//! Partition coordinates (n, l, m, s), analogous to atomic quantum numbers.
//!
//! Level `n` holds `2n^2` coordinates: `0 <= l < n`, `-l <= m <= l`, and two
//! spins. All coordinates are numbered by a linear index ordered by `n`, then
//! `l`, then `m` from `-l` to `l`, then spin down before spin up.

use vstd::prelude::*;

use crate::error::PartitionCoordError;

verus! {

/// Spin (chirality) of a coordinate: `Down` stands for -1/2, `Up` for +1/2.
#[derive(Debug, Clone, Copy, PartialEq, Eq, Hash, Structural)]
pub enum Spin {
    Down,
    Up,
}

/// Position of a spin inside its magnetic slot: 0 for down, 1 for up.
/// Two spins differ in value by exactly this difference.
pub open spec fn spin_bit(s: Spin) -> int {
    match s {
        Spin::Down => 0,
        Spin::Up => 1,
    }
}

/// Mathematical model of a partition coordinate.
pub struct Coord {
    pub n: int,
    pub l: int,
    pub m: int,
    pub s: Spin,
}

impl Coord {
    /// The range constraints of a coordinate.
    pub open spec fn valid(self) -> bool {
        &&& self.n >= 1
        &&& 0 <= self.l < self.n
        &&& -self.l <= self.m <= self.l
    }
}

/// Capacity of level `n`: `2n^2`.
pub open spec fn capacity_of(n: int) -> int {
    2 * n * n
}

/// Cumulative capacity of levels `1..=n`: the sum of `2i^2`; 0 for `n < 1`.
pub open spec fn total_capacity_of(n: int) -> int
    decreases n,
{
    if n <= 0 {
        0
    } else {
        total_capacity_of(n - 1) + capacity_of(n)
    }
}

/// Linear index of a coordinate: the coordinates of all lower levels, then
/// `2(2j+1)` coordinates for each `j < l`, then two per `m` below, then the spin.
pub open spec fn linear_index_of(c: Coord) -> int {
    total_capacity_of(c.n - 1) + 2 * c.l * c.l + 2 * (c.m + c.l) + spin_bit(c.s)
}

/// The coordinate whose linear index is `i` (every `i >= 0` has exactly one).
pub open spec fn coord_at(i: int) -> Coord {
    choose|c: Coord| c.valid() && linear_index_of(c) == i
}

/// Squared categorical distance: `dn^2 + dl^2 + dm^2 + ds^2`, where the two
/// spin values differ by `ds`.
pub open spec fn squared_distance_of(a: Coord, b: Coord) -> int {
    (a.n - b.n) * (a.n - b.n) + (a.l - b.l) * (a.l - b.l) + (a.m - b.m) * (a.m - b.m) + (
    spin_bit(a.s) - spin_bit(b.s)) * (spin_bit(a.s) - spin_bit(b.s))
}

/// Highest level whose cumulative capacity fits in an `i64`.
pub const MAX_LEVEL: i32 = 2400639;

/// Closed form of the cumulative capacity: `3 T(n) = n(n+1)(2n+1)`.
pub proof fn lemma_total_capacity_closed_form(n: int)
    requires
        n >= 0,
    ensures
        3 * total_capacity_of(n) == n * (n + 1) * (2 * n + 1),
    decreases n,
{
    if n > 0 {
        let p = n - 1;
        lemma_total_capacity_closed_form(p);
        assert(total_capacity_of(n) == total_capacity_of(p) + 2 * n * n);
        let t = total_capacity_of(p);
        assert(3 * (t + 2 * n * n) == n * (n + 1) * (2 * n + 1)) by (nonlinear_arith)
            requires
                3 * t == p * (p + 1) * (2 * p + 1),
                p == n - 1,
        ;
    } else {
        assert(n * (n + 1) * (2 * n + 1) == 0) by (nonlinear_arith)
            requires
                n == 0,
        ;
    }
}

/// The cumulative capacity grows with the level.
pub proof fn lemma_total_capacity_monotone(a: int, b: int)
    requires
        a <= b,
    ensures
        total_capacity_of(a) <= total_capacity_of(b),
    decreases b - a,
{
    if a < b {
        lemma_total_capacity_monotone(a, b - 1);
        if b > 0 {
            assert(capacity_of(b) >= 0) by (nonlinear_arith);
        }
    }
}

/// Levels up to `MAX_LEVEL` fit in an `i64`; the next one does not.
pub proof fn lemma_max_level()
    ensures
        total_capacity_of(MAX_LEVEL as int) <= i64::MAX,
        total_capacity_of(MAX_LEVEL as int + 1) > i64::MAX,
{
    lemma_total_capacity_closed_form(MAX_LEVEL as int);
    lemma_total_capacity_closed_form(MAX_LEVEL as int + 1);
    assert(2400639int * 2400640int * 4801279int == 27670107009549459840int) by (nonlinear_arith);
    assert(2400640int * 2400641int * 4801281int == 27670141587983917440int) by (nonlinear_arith);
}

/// A valid coordinate's index lies in its level's range `[T(n-1), T(n))`.
proof fn lemma_index_in_level(c: Coord)
    requires
        c.valid(),
    ensures
        total_capacity_of(c.n - 1) <= linear_index_of(c) < total_capacity_of(c.n),
        2 * c.l * c.l <= linear_index_of(c) - total_capacity_of(c.n - 1) < 2 * (c.l + 1) * (
        c.l + 1),
{
    let l = c.l;
    let n = c.n;
    assert(2 * l * l >= 0) by (nonlinear_arith);
    assert(2 * (l + 1) * (l + 1) == 2 * l * l + 4 * l + 2) by (nonlinear_arith);
    assert(2 * (l + 1) * (l + 1) <= 2 * n * n) by (nonlinear_arith)
        requires
            0 <= l + 1 <= n,
    ;
}

/// Distinct valid coordinates have distinct linear indices.
pub proof fn lemma_linear_index_injective(a: Coord, b: Coord)
    requires
        a.valid(),
        b.valid(),
        linear_index_of(a) == linear_index_of(b),
    ensures
        a == b,
{
    lemma_index_in_level(a);
    lemma_index_in_level(b);
    if a.n < b.n {
        lemma_total_capacity_monotone(a.n, b.n - 1);
    } else if b.n < a.n {
        lemma_total_capacity_monotone(b.n, a.n - 1);
    }
    assert(a.n == b.n);
    if a.l < b.l {
        assert(2 * (a.l + 1) * (a.l + 1) <= 2 * b.l * b.l) by (nonlinear_arith)
            requires
                0 <= a.l + 1 <= b.l,
        ;
    } else if b.l < a.l {
        assert(2 * (b.l + 1) * (b.l + 1) <= 2 * a.l * a.l) by (nonlinear_arith)
            requires
                0 <= b.l + 1 <= a.l,
        ;
    }
    assert(a.l == b.l);
}

/// The level holding index `i`, searched upward from `n`.
proof fn level_of(i: int, n: int) -> (k: int)
    requires
        1 <= n,
        total_capacity_of(n - 1) <= i,
    ensures
        n <= k,
        total_capacity_of(k - 1) <= i < total_capacity_of(k),
    decreases i - total_capacity_of(n - 1),
{
    assert(capacity_of(n) > 0) by (nonlinear_arith)
        requires
            n >= 1,
    ;
    if i < total_capacity_of(n) {
        n
    } else {
        level_of(i, n + 1)
    }
}

/// The orbital number holding offset `r` inside a level, searched upward from `l`.
proof fn orbital_of(r: int, l: int) -> (k: int)
    requires
        0 <= l,
        2 * l * l <= r,
    ensures
        l <= k,
        2 * k * k <= r < 2 * (k + 1) * (k + 1),
    decreases r - 2 * l * l,
{
    assert(2 * (l + 1) * (l + 1) > 2 * l * l) by (nonlinear_arith)
        requires
            0 <= l,
    ;
    if r < 2 * (l + 1) * (l + 1) {
        l
    } else {
        orbital_of(r, l + 1)
    }
}

/// Every non-negative index is the index of a valid coordinate.
pub proof fn lemma_linear_index_surjective(i: int)
    requires
        0 <= i,
    ensures
        coord_at(i).valid(),
        linear_index_of(coord_at(i)) == i,
{
    let n = level_of(i, 1);
    let r = i - total_capacity_of(n - 1);
    let l = orbital_of(r, 0);
    assert(l < n) by (nonlinear_arith)
        requires
            2 * l * l <= r < 2 * n * n,
            0 <= l,
            1 <= n,
    ;
    assert(2 * (l + 1) * (l + 1) == 2 * l * l + 4 * l + 2) by (nonlinear_arith);
    let q = r - 2 * l * l;
    let s = if q % 2 == 0 {
        Spin::Down
    } else {
        Spin::Up
    };
    let c = Coord { n, l, m: q / 2 - l, s };
    assert(c.valid() && linear_index_of(c) == i);
}

/// Decoding the index of a valid coordinate gives the coordinate back.
pub proof fn lemma_coord_at_linear_index(c: Coord)
    requires
        c.valid(),
    ensures
        coord_at(linear_index_of(c)) == c,
{
    lemma_index_in_level(c);
    lemma_total_capacity_monotone(0, c.n - 1);
    lemma_linear_index_surjective(linear_index_of(c));
    lemma_linear_index_injective(coord_at(linear_index_of(c)), c);
}

/// Round trip of the linear index: for every index `i >= 0`, re-encoding and
/// decoding the coordinate at `i` gives that same coordinate, and its index is `i`.
pub proof fn lemma_linear_index_round_trip(i: int)
    requires
        0 <= i,
    ensures
        linear_index_of(coord_at(i)) == i,
        coord_at(linear_index_of(coord_at(i))) == coord_at(i),
{
    lemma_linear_index_surjective(i);
}

/// Categorical distance is symmetric.
pub proof fn lemma_squared_distance_symmetric(a: Coord, b: Coord)
    ensures
        squared_distance_of(a, b) == squared_distance_of(b, a),
{
    assert(squared_distance_of(a, b) == squared_distance_of(b, a)) by (nonlinear_arith);
}

/// A validated partition coordinate. It is immutable; every value satisfies
/// the range constraints of its model.
#[derive(Debug, Clone, Copy, PartialEq, Eq, Hash, Structural)]
pub struct PartitionCoord {
    n: i32,
    l: i32,
    m: i32,
    s: Spin,
}

impl View for PartitionCoord {
    type V = Coord;

    closed spec fn view(&self) -> Coord {
        Coord { n: self.n as int, l: self.l as int, m: self.m as int, s: self.s }
    }
}

/// Cumulative capacity `T(n)` computed in 128 bits from the closed form.
fn total_capacity_wide(n: i32) -> (r: i128)
    requires
        0 <= n <= MAX_LEVEL + 1,
    ensures
        r == total_capacity_of(n as int),
{
    proof {
        lemma_total_capacity_closed_form(n as int);
    }
    let w = n as i128;
    assert(0 <= w * (w + 1) <= 0x1_0000_0000_0000) by (nonlinear_arith)
        requires
            0 <= w <= MAX_LEVEL + 1,
    ;
    assert(0 <= w * (w + 1) * (2 * w + 1) <= 0x1_0000_0000_0000 * 0x1_0000_0000) by (
    nonlinear_arith)
        requires
            0 <= w <= MAX_LEVEL + 1,
            0 <= w * (w + 1) <= 0x1_0000_0000_0000,
    ;
    w * (w + 1) * (2 * w + 1) / 3
}

impl PartitionCoord {
    #[verifier::type_invariant]
    pub open spec fn inv(&self) -> bool {
        self@.valid()
    }

    /// Builds a coordinate, naming the first component that is out of range.
    pub fn new(n: i32, l: i32, m: i32, s: Spin) -> (r: Result<Self, PartitionCoordError>)
        ensures
            n < 1 ==> r == Err::<Self, _>(PartitionCoordError::InvalidN(n)),
            n >= 1 && (l < 0 || l >= n) ==> r == Err::<Self, _>(
                PartitionCoordError::InvalidL(l, n),
            ),
            n >= 1 && 0 <= l < n && (m < -l || m > l) ==> r == Err::<Self, _>(
                PartitionCoordError::InvalidM(m, l),
            ),
            (Coord { n: n as int, l: l as int, m: m as int, s }).valid() ==> r is Ok && r->Ok_0@
                == (Coord { n: n as int, l: l as int, m: m as int, s }),
    {
        if n < 1 {
            return Err(PartitionCoordError::InvalidN(n));
        }
        if l < 0 || l >= n {
            return Err(PartitionCoordError::InvalidL(l, n));
        }
        if m < -l || m > l {
            return Err(PartitionCoordError::InvalidM(m, l));
        }
        Ok(PartitionCoord { n, l, m, s })
    }

    /// Principal number `n`.
    pub fn n(&self) -> (r: i32)
        ensures
            r == self@.n,
    {
        self.n
    }

    /// Orbital number `l`.
    pub fn l(&self) -> (r: i32)
        ensures
            r == self@.l,
    {
        self.l
    }

    /// Magnetic number `m`.
    pub fn m(&self) -> (r: i32)
        ensures
            r == self@.m,
    {
        self.m
    }

    /// Spin.
    pub fn s(&self) -> (r: Spin)
        ensures
            r == self@.s,
    {
        self.s
    }

    /// Capacity of level `n`: `2n^2`; fails when `n < 1`.
    pub fn capacity(n: i32) -> (r: Result<i32, PartitionCoordError>)
        requires
            n < 1 || capacity_of(n as int) <= i32::MAX,
        ensures
            n < 1 ==> r == Err::<i32, _>(PartitionCoordError::InvalidN(n)),
            n >= 1 ==> r == Ok::<i32, PartitionCoordError>(capacity_of(n as int) as i32),
    {
        if n < 1 {
            return Err(PartitionCoordError::InvalidN(n));
        }
        assert(0 <= 2 * n <= 2 * n * n <= i32::MAX) by (nonlinear_arith)
            requires
                n >= 1,
                capacity_of(n as int) <= i32::MAX,
        ;
        Ok(2 * n * n)
    }

    /// Cumulative capacity of levels `1..=n_max`, `n_max(n_max+1)(2n_max+1)/3`;
    /// 0 when `n_max < 1`.
    pub fn total_capacity(n_max: i32) -> (r: i64)
        requires
            n_max <= MAX_LEVEL,
        ensures
            r == total_capacity_of(n_max as int),
    {
        if n_max < 1 {
            return 0;
        }
        proof {
            lemma_max_level();
            lemma_total_capacity_monotone(n_max as int, MAX_LEVEL as int);
            lemma_total_capacity_monotone(0, n_max as int);
        }
        total_capacity_wide(n_max) as i64
    }

    /// Density of states at level `n`: `dC/dn = 4n`.
    pub fn density_of_states(n: i32) -> (r: i32)
        requires
            i32::MIN <= 4 * n <= i32::MAX,
        ensures
            r == 4 * n,
    {
        4 * n
    }

    /// Linear index of this coordinate in the canonical order.
    pub fn to_linear_index(&self) -> (r: i64)
        requires
            linear_index_of(self@) <= i64::MAX,
        ensures
            r == linear_index_of(self@),
    {
        proof {
            use_type_invariant(self);
            lemma_index_in_level(self@);
            lemma_max_level();
            if self.n - 1 > MAX_LEVEL + 1 {
                lemma_total_capacity_monotone(MAX_LEVEL + 1, self.n - 1);
            }
            lemma_total_capacity_monotone(0, self.n - 1);
        }
        let offset = total_capacity_wide(self.n - 1) as i64;

        // 2(2j+1) coordinates for each orbital number j below l
        let mut l_offset: i64 = 0;
        let mut l_val: i32 = 0;
        while l_val < self.l
            invariant
                0 <= l_val <= self.l,
                l_offset == 2 * l_val * l_val,
                self@.valid(),
                linear_index_of(self@) <= i64::MAX,
                offset == total_capacity_of(self.n - 1),
                2 * self.l * self.l <= linear_index_of(self@) - offset,
                0 <= offset,
            decreases self.l - l_val,
        {
            assert(2 * (l_val + 1) * (l_val + 1) == 2 * l_val * l_val + 4 * l_val + 2) by (
            nonlinear_arith);
            assert(2 * (l_val + 1) * (l_val + 1) <= 2 * self.l * self.l) by (nonlinear_arith)
                requires
                    0 <= l_val + 1 <= self.l,
            ;
            l_offset += 2 * (2 * l_val as i64 + 1);
            l_val += 1;
        }

        let m_offset = (self.m + self.l) as i64;
        let s_offset: i64 = match self.s {
            Spin::Down => 0,
            Spin::Up => 1,
        };
        offset + l_offset + 2 * m_offset + s_offset
    }

    /// The coordinate at a linear index; fails on a negative index.
    pub fn from_linear_index(index: i64) -> (r: Result<Self, PartitionCoordError>)
        ensures
            index < 0 ==> r == Err::<Self, _>(PartitionCoordError::InvalidIndex(index)),
            index >= 0 ==> r is Ok && r->Ok_0@ == coord_at(index as int) && linear_index_of(
                r->Ok_0@,
            ) == index,
    {
        if index < 0 {
            return Err(PartitionCoordError::InvalidIndex(index));
        }
        proof {
            lemma_max_level();
        }

        // Find the level n
        let mut n: i32 = 1;
        while total_capacity_wide(n) <= index as i128
            invariant
                1 <= n <= MAX_LEVEL + 1,
                total_capacity_of(n - 1) <= index,
                total_capacity_of(MAX_LEVEL as int + 1) > i64::MAX,
            decreases index - total_capacity_of(n - 1),
        {
            assert(capacity_of(n as int) > 0) by (nonlinear_arith)
                requires
                    n >= 1,
            ;
            if n == MAX_LEVEL + 1 {
                assert(false);
            }
            n += 1;
        }

        // Remaining index within level n
        assert(total_capacity_of(n as int) == total_capacity_of(n - 1) + capacity_of(n as int));
        proof {
            lemma_total_capacity_monotone(0, n - 1);
        }
        let mut remaining: i64 = (index as i128 - total_capacity_wide(n - 1)) as i64;
        assert(remaining < 2 * n * n);

        // Find l
        let mut l: i32 = 0;
        while remaining >= 2 * (2 * l as i64 + 1)
            invariant
                0 <= l < n,
                0 <= remaining,
                remaining + 2 * l * l == index - total_capacity_of(n - 1),
                index - total_capacity_of(n - 1) < 2 * n * n,
                n <= MAX_LEVEL + 1,
            decreases remaining,
        {
            proof {
                let ghost r0 = index - total_capacity_of(n - 1);
                assert(2 * (l + 1) * (l + 1) == 2 * l * l + 4 * l + 2) by (nonlinear_arith);
                assert(l + 1 < n) by (nonlinear_arith)
                    requires
                        2 * (l + 1) * (l + 1) <= r0,
                        r0 < 2 * n * n,
                        0 <= l,
                        1 <= n,
                ;
            }
            remaining -= 2 * (2 * l as i64 + 1);
            l += 1;
        }

        // Find m and s
        let m = (remaining / 2) as i32 - l;
        let s = if remaining % 2 == 0 {
            Spin::Down
        } else {
            Spin::Up
        };
        let c = PartitionCoord { n, l, m, s };
        proof {
            lemma_coord_at_linear_index(c@);
            lemma_index_in_level(c@);
        }
        Ok(c)
    }

    /// Squared categorical distance `dn^2 + dl^2 + dm^2 + ds^2`; the distance
    /// itself is its square root.
    pub fn categorical_distance_squared(&self, other: &PartitionCoord) -> (r: i128)
        ensures
            r == squared_distance_of(self@, other@),
    {
        let dn = self.n as i128 - other.n as i128;
        let dl = self.l as i128 - other.l as i128;
        let dm = self.m as i128 - other.m as i128;
        let ds: i128 = match (self.s, other.s) {
            (Spin::Up, Spin::Down) => 1,
            (Spin::Down, Spin::Up) => -1,
            _ => 0,
        };
        assert(0 <= dn * dn <= 0x1_0000_0000_0000_0000) by (nonlinear_arith)
            requires
                -0x1_0000_0000 <= dn <= 0x1_0000_0000,
        ;
        assert(0 <= dl * dl <= 0x1_0000_0000_0000_0000) by (nonlinear_arith)
            requires
                -0x1_0000_0000 <= dl <= 0x1_0000_0000,
        ;
        assert(0 <= dm * dm <= 0x1_0000_0000_0000_0000) by (nonlinear_arith)
            requires
                -0x1_0000_0000 <= dm <= 0x1_0000_0000,
        ;
        dn * dn + dl * dl + dm * dm + ds * ds
    }

    /// Two coordinates are adjacent when their categorical distance is exactly 1.
    pub fn is_adjacent(&self, other: &PartitionCoord) -> (r: bool)
        ensures
            r == (squared_distance_of(self@, other@) == 1),
    {
        self.categorical_distance_squared(other) == 1
    }

    /// All coordinates of level `n`, in canonical order: the `k`-th one has
    /// linear index `T(n-1) + k`. Fails when `n < 1`.
    pub fn all_coords_at_level(n: i32) -> (r: Result<Vec<PartitionCoord>, PartitionCoordError>)
        ensures
            n < 1 ==> r == Err::<Vec<PartitionCoord>, _>(PartitionCoordError::InvalidN(n)),
            n >= 1 ==> r is Ok && r->Ok_0@.len() == capacity_of(n as int) && (forall|k: int|
                0 <= k < r->Ok_0@.len() ==> #[trigger] r->Ok_0@[k]@ == coord_at(
                    total_capacity_of(n - 1) + k,
                )),
    {
        if n < 1 {
            return Err(PartitionCoordError::InvalidN(n));
        }
        let ghost base = total_capacity_of(n - 1);
        proof {
            lemma_total_capacity_monotone(0, n - 1);
        }
        let mut coords: Vec<PartitionCoord> = Vec::new();
        let mut l: i32 = 0;
        while l < n
            invariant
                0 <= l <= n,
                base == total_capacity_of(n - 1),
                0 <= base,
                coords@.len() == 2 * l * l,
                forall|k: int|
                    0 <= k < coords@.len() ==> #[trigger] coords@[k]@ == coord_at(base + k),
            decreases n - l,
        {
            let mut m: i32 = -l;
            while m <= l
                invariant
                    0 <= l < n,
                    -l <= m <= l + 1,
                    base == total_capacity_of(n - 1),
                    0 <= base,
                    coords@.len() == 2 * l * l + 2 * (m + l),
                    forall|k: int|
                        0 <= k < coords@.len() ==> #[trigger] coords@[k]@ == coord_at(base + k),
                decreases l + 1 - m,
            {
                let down = PartitionCoord { n, l, m, s: Spin::Down };
                let up = PartitionCoord { n, l, m, s: Spin::Up };
                proof {
                    lemma_coord_at_linear_index(down@);
                    lemma_coord_at_linear_index(up@);
                }
                coords.push(down);
                coords.push(up);
                m += 1;
            }
            assert(2 * (l + 1) * (l + 1) == 2 * l * l + 4 * l + 2) by (nonlinear_arith);
            l += 1;
        }
        Ok(coords)
    }

    /// All coordinates of levels `1..=n_max` in canonical order: the `k`-th one
    /// has linear index `k`.
    pub fn iter_all(n_max: i32) -> (r: Vec<PartitionCoord>)
        ensures
            r@.len() == total_capacity_of(n_max as int),
            forall|k: int| 0 <= k < r@.len() ==> #[trigger] r@[k]@ == coord_at(k),
    {
        let mut all: Vec<PartitionCoord> = Vec::new();
        let mut done: i32 = 0;
        while done < n_max
            invariant
                0 <= done,
                n_max >= 0 ==> done <= n_max,
                n_max < 0 ==> done == 0,
                all@.len() == total_capacity_of(done as int),
                forall|k: int| 0 <= k < all@.len() ==> #[trigger] all@[k]@ == coord_at(k),
            decreases n_max - done,
        {
            let n = done + 1;
            let mut level = match PartitionCoord::all_coords_at_level(n) {
                Ok(v) => v,
                Err(_) => Vec::new(),
            };
            let ghost prev = all@;
            let ghost added = level@;
            assert(total_capacity_of(n as int) == total_capacity_of(done as int) + capacity_of(
                n as int,
            ));
            all.append(&mut level);
            assert forall|k: int| 0 <= k < all@.len() implies #[trigger] all@[k]@ == coord_at(k) by {
                if k >= prev.len() {
                    assert(all@[k] == added[k - prev.len()]);
                }
            }
            done = n;
        }
        all
    }
}

impl Default for PartitionCoord {
    /// The first coordinate: `(1, 0, 0, down)`.
    fn default() -> (r: Self)
        ensures
            r@ == (Coord { n: 1, l: 0, m: 0, s: Spin::Down }),
    {
        PartitionCoord { n: 1, l: 0, m: 0, s: Spin::Down }
    }
}

} // verus!
