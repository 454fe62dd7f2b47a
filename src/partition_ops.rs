//! Operators on partition coordinates: capacity, partitioning of state ids,
//! enumeration of a level, and adjacency.

use vstd::prelude::*;

use crate::error::PartitionCoordError;
use crate::partition_coord::{
    capacity_of, coord_at, linear_index_of, squared_distance_of, total_capacity_of, Coord,
    PartitionCoord, Spin, MAX_LEVEL,
};

verus! {

/// Capacity of level `n`: `2n^2`; fails when `n < 1`.
pub fn capacity(n: i32) -> (r: Result<i32, PartitionCoordError>)
    requires
        n < 1 || capacity_of(n as int) <= i32::MAX,
    ensures
        n < 1 ==> r == Err::<i32, _>(PartitionCoordError::InvalidN(n)),
        n >= 1 ==> r == Ok::<i32, PartitionCoordError>(capacity_of(n as int) as i32),
{
    PartitionCoord::capacity(n)
}

/// Cumulative capacity of levels `1..=n_max`.
pub fn total_capacity(n_max: i32) -> (r: i64)
    requires
        n_max <= MAX_LEVEL,
    ensures
        r == total_capacity_of(n_max as int),
{
    PartitionCoord::total_capacity(n_max)
}

/// Maps a state id to its coordinate within the first `n_max` levels; fails
/// when the id is negative or not below their cumulative capacity.
pub fn partition(state_id: i64, n_max: i32) -> (r: Result<PartitionCoord, PartitionCoordError>)
    requires
        n_max <= MAX_LEVEL,
    ensures
        !(0 <= state_id < total_capacity_of(n_max as int)) ==> r == Err::<PartitionCoord, _>(
            PartitionCoordError::InvalidIndex(state_id),
        ),
        0 <= state_id < total_capacity_of(n_max as int) ==> r is Ok && r->Ok_0@ == coord_at(
            state_id as int,
        ) && linear_index_of(r->Ok_0@) == state_id,
{
    let total = total_capacity(n_max);
    if state_id < 0 || state_id >= total {
        return Err(PartitionCoordError::InvalidIndex(state_id));
    }
    PartitionCoord::from_linear_index(state_id)
}

/// All coordinates of level `n` in canonical order.
pub fn coords(n: i32) -> (r: Result<Vec<PartitionCoord>, PartitionCoordError>)
    ensures
        n < 1 ==> r == Err::<Vec<PartitionCoord>, _>(PartitionCoordError::InvalidN(n)),
        n >= 1 ==> r is Ok && r->Ok_0@.len() == capacity_of(n as int) && (forall|k: int|
            0 <= k < r->Ok_0@.len() ==> #[trigger] r->Ok_0@[k]@ == coord_at(
                total_capacity_of(n - 1) + k,
            )),
{
    PartitionCoord::all_coords_at_level(n)
}

/// `x` alone when it is a valid coordinate at distance 1 from `c`, else nothing.
pub open spec fn keep_if_adjacent(c: Coord, x: Coord) -> Seq<Coord> {
    if x.valid() && squared_distance_of(c, x) == 1 {
        seq![x]
    } else {
        seq![]
    }
}

/// The other spin.
pub open spec fn flipped(s: Spin) -> Spin {
    match s {
        Spin::Up => Spin::Down,
        Spin::Down => Spin::Up,
    }
}

/// `v` brought into `[-b, b]`.
pub open spec fn clamp_to(v: int, b: int) -> int {
    if v < -b {
        -b
    } else if v > b {
        b
    } else {
        v
    }
}

/// The neighbours of `c` that are tried, in order: one level down (with `l`
/// and `m` brought into range), one level up, `l - 1` (with `m` brought into
/// range), `l + 1`, `m - 1`, `m + 1`, and the other spin; each is kept when
/// it is a valid coordinate at distance exactly 1.
pub open spec fn adjacent_of(c: Coord) -> Seq<Coord> {
    let lo = if c.l < c.n - 2 {
        c.l
    } else {
        c.n - 2
    };
    keep_if_adjacent(c, Coord { n: c.n - 1, l: lo, m: clamp_to(c.m, lo), s: c.s }) + keep_if_adjacent(
        c,
        Coord { n: c.n + 1, ..c },
    ) + keep_if_adjacent(c, Coord { l: c.l - 1, m: clamp_to(c.m, c.l - 1), ..c })
        + keep_if_adjacent(c, Coord { l: c.l + 1, ..c }) + keep_if_adjacent(
        c,
        Coord { m: c.m - 1, ..c },
    ) + keep_if_adjacent(c, Coord { m: c.m + 1, ..c }) + keep_if_adjacent(
        c,
        Coord { s: flipped(c.s), ..c },
    )
}

/// Appends `cand` when it is valid and adjacent to `coord`.
fn push_if_adjacent(
    out: &mut Vec<PartitionCoord>,
    coord: &PartitionCoord,
    cand: Result<PartitionCoord, PartitionCoordError>,
    Ghost(x): Ghost<Coord>,
)
    requires
        x.valid() ==> cand is Ok && cand->Ok_0@ == x,
        !x.valid() ==> cand is Err,
    ensures
        final(out)@.map_values(|p: PartitionCoord| p@) == old(out)@.map_values(
            |p: PartitionCoord| p@,
        ) + keep_if_adjacent(coord@, x),
{
    if let Ok(c) = cand {
        if coord.is_adjacent(&c) {
            out.push(c);
        }
    }
    proof {
        assert(final(out)@.map_values(|p: PartitionCoord| p@) =~= old(out)@.map_values(
            |p: PartitionCoord| p@,
        ) + keep_if_adjacent(coord@, x));
    }
}

/// The coordinates at categorical distance exactly 1 from `coord`, in the
/// order of `adjacent_of`.
pub fn adjacent_coords(coord: &PartitionCoord) -> (r: Vec<PartitionCoord>)
    requires
        coord@.n < i32::MAX,
    ensures
        r@.map_values(|p: PartitionCoord| p@) == adjacent_of(coord@),
        forall|k: int|
            0 <= k < r@.len() ==> (#[trigger] r@[k]@).valid() && squared_distance_of(
                coord@,
                r@[k]@,
            ) == 1,
{
    proof {
        use_type_invariant(coord);
    }
    let mut adjacent: Vec<PartitionCoord> = Vec::new();
    let n = coord.n();
    let l = coord.l();
    let m = coord.m();
    let s = coord.s();
    let ghost c = coord@;
    let ghost lo = if c.l < c.n - 2 {
        c.l
    } else {
        c.n - 2
    };

    // n - 1 and n + 1
    let ghost x1 = Coord { n: c.n - 1, l: lo, m: clamp_to(c.m, lo), s: c.s };
    if n > 1 {
        let lo_e = if l < n - 2 {
            l
        } else {
            n - 2
        };
        let m_e = if m < -lo_e {
            -lo_e
        } else if m > lo_e {
            lo_e
        } else {
            m
        };
        push_if_adjacent(&mut adjacent, coord, PartitionCoord::new(n - 1, lo_e, m_e, s), Ghost(x1));
    }
    let ghost x2 = Coord { n: c.n + 1, ..c };
    push_if_adjacent(&mut adjacent, coord, PartitionCoord::new(n + 1, l, m, s), Ghost(x2));

    // l - 1 and l + 1
    let ghost x3 = Coord { l: c.l - 1, m: clamp_to(c.m, c.l - 1), ..c };
    if l > 0 {
        let m_e = if m < -(l - 1) {
            -(l - 1)
        } else if m > l - 1 {
            l - 1
        } else {
            m
        };
        push_if_adjacent(&mut adjacent, coord, PartitionCoord::new(n, l - 1, m_e, s), Ghost(x3));
    }
    let ghost x4 = Coord { l: c.l + 1, ..c };
    if l + 1 < n {
        push_if_adjacent(&mut adjacent, coord, PartitionCoord::new(n, l + 1, m, s), Ghost(x4));
    }

    // m - 1 and m + 1
    let ghost x5 = Coord { m: c.m - 1, ..c };
    if m > -l {
        push_if_adjacent(&mut adjacent, coord, PartitionCoord::new(n, l, m - 1, s), Ghost(x5));
    }
    let ghost x6 = Coord { m: c.m + 1, ..c };
    if m < l {
        push_if_adjacent(&mut adjacent, coord, PartitionCoord::new(n, l, m + 1, s), Ghost(x6));
    }

    // spin flip
    let other_spin = match s {
        Spin::Up => Spin::Down,
        Spin::Down => Spin::Up,
    };
    let ghost x7 = Coord { s: flipped(c.s), ..c };
    push_if_adjacent(&mut adjacent, coord, PartitionCoord::new(n, l, m, other_spin), Ghost(x7));

    proof {
        assert(adjacent_of(c) =~= keep_if_adjacent(c, x1) + keep_if_adjacent(c, x2)
            + keep_if_adjacent(c, x3) + keep_if_adjacent(c, x4) + keep_if_adjacent(c, x5)
            + keep_if_adjacent(c, x6) + keep_if_adjacent(c, x7));
        assert forall|k: int| 0 <= k < adjacent@.len() implies (#[trigger] adjacent@[k]@).valid()
            && squared_distance_of(c, adjacent@[k]@) == 1 by {
            let mapped = adjacent@.map_values(|p: PartitionCoord| p@);
            assert(mapped[k] == adjacent@[k]@);
        }
    }
    adjacent
}

} // verus!
