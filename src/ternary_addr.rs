//! Ternary addresses: paths through the recursive trisection of the unit
//! interval, written as sequences of digits in `{0, 1, 2}`.

use vstd::arithmetic::div_mod::lemma_div_denominator;
use vstd::prelude::*;
use vstd::string::StrSliceExecFns;
use vstd::string::StringExecFns;

use crate::error::TernaryAddrError;

verus! {

/// Every digit lies in `{0, 1, 2}`.
pub open spec fn valid_digits(d: Seq<u8>) -> bool {
    forall|i: int| 0 <= i < d.len() ==> d[i] <= 2
}

/// `i` is the first position of `d` that holds a digit above 2.
pub open spec fn first_invalid_at(d: Seq<u8>, i: int) -> bool {
    &&& 0 <= i < d.len()
    &&& d[i] > 2
    &&& forall|j: int| 0 <= j < i ==> d[j] <= 2
}

/// `3^k`.
pub open spec fn pow3(k: nat) -> nat
    decreases k,
{
    if k == 0 {
        1
    } else {
        3 * pow3((k - 1) as nat)
    }
}

/// The digit sequence read as a base-3 number, most significant digit first.
pub open spec fn value_of(d: Seq<u8>) -> nat
    decreases d.len(),
{
    if d.len() == 0 {
        0
    } else {
        value_of(d.drop_last()) * 3 + d.last() as nat
    }
}

/// The `depth` base-3 digits of `v`, most significant first.
pub open spec fn digits_of(v: nat, depth: nat) -> Seq<u8> {
    Seq::new(depth, |j: int| ((v / pow3((depth - 1 - j) as nat)) % 3) as u8)
}

/// Length of the longest common prefix of `a` and `b`.
pub open spec fn common_prefix_len(a: Seq<u8>, b: Seq<u8>) -> nat
    decreases a.len(),
{
    if a.len() == 0 || b.len() == 0 || a[0] != b[0] {
        0
    } else {
        1 + common_prefix_len(a.drop_first(), b.drop_first())
    }
}

/// The character that writes a ternary digit.
pub open spec fn digit_char(d: u8) -> char {
    if d == 0 {
        '0'
    } else if d == 1 {
        '1'
    } else {
        '2'
    }
}

/// A character among `'0'..='9'`.
pub open spec fn is_decimal(c: char) -> bool {
    '0' <= c <= '9'
}

/// The value of a decimal digit character.
pub open spec fn decimal_value(c: char) -> u8 {
    (c as u32 - '0' as u32) as u8
}

/// The values of a sequence of decimal digit characters.
pub open spec fn decimal_digits(cs: Seq<char>) -> Seq<u8> {
    cs.map_values(|c: char| decimal_value(c))
}

/// The text form of a digit sequence: `T` followed by the digits.
pub open spec fn repr_of(d: Seq<u8>) -> Seq<char> {
    seq!['T'] + d.map_values(|x: u8| digit_char(x))
}

pub proof fn lemma_pow3_positive(k: nat)
    ensures
        pow3(k) >= 1,
    decreases k,
{
    if k > 0 {
        lemma_pow3_positive((k - 1) as nat);
    }
}

pub proof fn lemma_pow3_monotone(a: nat, b: nat)
    requires
        a <= b,
    ensures
        pow3(a) <= pow3(b),
    decreases b - a,
{
    if a < b {
        lemma_pow3_monotone(a, (b - 1) as nat);
        lemma_pow3_positive((b - 1) as nat);
    }
}

/// `v / 3^(k+1) == (v / 3^k) / 3`.
proof fn lemma_div_pow3_step(v: nat, k: nat)
    ensures
        v / pow3(k + 1) == (v / pow3(k)) / 3,
{
    lemma_pow3_positive(k);
    lemma_div_denominator(v as int, pow3(k) as int, 3);
    assert(pow3(k + 1) == pow3(k) * 3);
}

/// `v / 3^(k+1) == (v / 3) / 3^k`.
proof fn lemma_div_pow3_front(v: nat, k: nat)
    ensures
        v / pow3(k + 1) == (v / 3) / pow3(k),
{
    lemma_pow3_positive(k);
    lemma_div_denominator(v as int, 3, pow3(k) as int);
    assert(pow3(k + 1) == 3 * pow3(k));
}

/// A prefix is worth no more than the whole sequence.
proof fn lemma_value_prefix_le(d: Seq<u8>, i: int)
    requires
        0 <= i <= d.len(),
    ensures
        value_of(d.subrange(0, i)) <= value_of(d),
    decreases d.len() - i,
{
    if i < d.len() {
        lemma_value_prefix_le(d.drop_last(), i);
        assert(d.drop_last().subrange(0, i) =~= d.subrange(0, i));
    } else {
        assert(d.subrange(0, i) =~= d);
    }
}

/// Dropping the last of `d` digits of `v` leaves the `d - 1` digits of `v / 3`,
/// and the last digit is `v % 3`.
proof fn lemma_digits_of_split(v: nat, d: nat)
    requires
        d > 0,
    ensures
        digits_of(v, d).drop_last() == digits_of(v / 3, (d - 1) as nat),
        digits_of(v, d).last() == v % 3,
{
    let k = (d - 1) as nat;
    assert forall|j: int| 0 <= j < k implies #[trigger] digits_of(v, d).drop_last()[j]
        == digits_of(v / 3, k)[j] by {
        let e = (k - 1 - j) as nat;
        lemma_div_pow3_front(v, e);
        assert((d - 1 - j) as nat == e + 1);
    }
    assert(digits_of(v, d).drop_last() =~= digits_of(v / 3, k));
    assert(pow3(0) == 1);
    assert(v / 1 == v) by (nonlinear_arith);
}

/// Decoding the digits of a value gives the value back: for every depth `d`
/// and every `v < 3^d`, `value_of(digits_of(v, d)) == v`.
pub proof fn lemma_decode_encode(v: nat, d: nat)
    requires
        v < pow3(d),
    ensures
        value_of(digits_of(v, d)) == v,
        valid_digits(digits_of(v, d)),
        digits_of(v, d).len() == d,
    decreases d,
{
    if d > 0 {
        let k = (d - 1) as nat;
        lemma_decode_encode(v / 3, k);
        lemma_digits_of_split(v, d);
    }
}

/// Encoding the value of an address at its own depth gives the address back:
/// for every digit sequence `s`, `value_of(s) < 3^len(s)` and
/// `digits_of(value_of(s), len(s)) == s`.
pub proof fn lemma_encode_decode(s: Seq<u8>)
    requires
        valid_digits(s),
    ensures
        value_of(s) < pow3(s.len()),
        digits_of(value_of(s), s.len()) == s,
    decreases s.len(),
{
    if s.len() > 0 {
        let p = s.drop_last();
        let d = s.len();
        lemma_encode_decode(p);
        let v = value_of(s);
        assert(v / 3 == value_of(p) && v % 3 == s.last());
        lemma_digits_of_split(v, d);
        assert(digits_of(v, d) =~= p.push(s.last()));
        assert(s =~= p.push(s.last()));
    }
}

/// The common prefix ends where the sequences first differ or one of them ends.
proof fn lemma_common_prefix_len(a: Seq<u8>, b: Seq<u8>, i: int)
    requires
        0 <= i <= a.len(),
        i <= b.len(),
        forall|j: int| 0 <= j < i ==> a[j] == b[j],
        i == a.len() || i == b.len() || a[i] != b[i],
    ensures
        common_prefix_len(a, b) == i,
    decreases i,
{
    if i > 0 {
        lemma_common_prefix_len(a.drop_first(), b.drop_first(), i - 1);
    }
}

/// A validated ternary address: a sequence of digits in `{0, 1, 2}`. Its
/// depth is its length; the empty address is the root.
#[derive(Debug, PartialEq, Eq, Hash)]
pub struct TernaryAddr {
    digits: Vec<u8>,
}

impl View for TernaryAddr {
    type V = Seq<u8>;

    closed spec fn view(&self) -> Seq<u8> {
        self.digits@
    }
}

impl TernaryAddr {
    #[verifier::type_invariant]
    pub open spec fn inv(&self) -> bool {
        valid_digits(self@)
    }

    /// The address of the first `len` digits.
    fn prefix(&self, len: usize) -> (r: TernaryAddr)
        requires
            len <= self@.len(),
        ensures
            r@ == self@.subrange(0, len as int),
    {
        proof {
            use_type_invariant(self);
        }
        let mut digits: Vec<u8> = Vec::new();
        let mut i: usize = 0;
        while i < len
            invariant
                i <= len <= self@.len(),
                digits@ == self@.subrange(0, i as int),
                valid_digits(self@),
            decreases len - i,
        {
            digits.push(self.digits[i]);
            i += 1;
            assert(digits@ =~= self@.subrange(0, i as int));
        }
        TernaryAddr { digits }
    }

    /// The address one level down in direction `d`.
    fn child(&self, d: u8) -> (r: TernaryAddr)
        requires
            d <= 2,
        ensures
            r@ == self@.push(d),
    {
        proof {
            use_type_invariant(self);
        }
        let c = self.prefix(self.digits.len());
        proof {
            use_type_invariant(&c);
            assert(self@.subrange(0, self@.len() as int) =~= self@);
        }
        let mut digits = c.digits;
        digits.push(d);
        TernaryAddr { digits }
    }
}

impl TernaryAddr {
    /// Builds an address, rejecting the first digit above 2.
    pub fn new(digits: Vec<u8>) -> (r: Result<Self, TernaryAddrError>)
        ensures
            valid_digits(digits@) ==> r is Ok && r->Ok_0@ == digits@,
            !valid_digits(digits@) ==> exists|i: int|
                first_invalid_at(digits@, i) && r == Err::<Self, _>(
                    TernaryAddrError::InvalidDigit(digits@[i]),
                ),
    {
        let mut i: usize = 0;
        while i < digits.len()
            invariant
                i <= digits@.len(),
                forall|j: int| 0 <= j < i ==> digits@[j] <= 2,
            decreases digits@.len() - i,
        {
            let d = digits[i];
            if d > 2 {
                assert(first_invalid_at(digits@, i as int));
                return Err(TernaryAddrError::InvalidDigit(d));
            }
            i += 1;
        }
        Ok(TernaryAddr { digits })
    }

    /// Builds an address from digits already known to lie in `{0, 1, 2}`.
    pub fn new_unchecked(digits: Vec<u8>) -> (r: Self)
        requires
            valid_digits(digits@),
        ensures
            r@ == digits@,
    {
        TernaryAddr { digits }
    }

    /// The digits, root first.
    pub fn digits(&self) -> (r: &[u8])
        ensures
            r@ == self@,
    {
        self.digits.as_slice()
    }

    /// Depth in the ternary tree: the number of digits.
    pub fn depth(&self) -> (r: usize)
        ensures
            r == self@.len(),
    {
        self.digits.len()
    }

    /// The address of `value` at `depth`: its base-3 digits, most significant
    /// first. Fails when `value` exceeds `3^depth - 1`.
    pub fn encode(value: u64, depth: usize) -> (r: Result<Self, TernaryAddrError>)
        ensures
            value < pow3(depth as nat) ==> r is Ok && r->Ok_0@ == digits_of(
                value as nat,
                depth as nat,
            ),
            value >= pow3(depth as nat) ==> r == Err::<Self, _>(
                TernaryAddrError::ValueExceedsCapacity(
                    value,
                    (pow3(depth as nat) - 1) as u64,
                    depth,
                ),
            ),
    {
        // Least significant digit first
        let mut low_first: Vec<u8> = Vec::new();
        let mut remaining = value;
        let mut i: usize = 0;
        assert(pow3(0) == 1);
        assert(value as nat / 1 == value as nat) by (nonlinear_arith);
        while i < depth
            invariant
                i <= depth,
                low_first@.len() == i,
                remaining == value as nat / pow3(i as nat),
                forall|k: int|
                    0 <= k < i ==> #[trigger] low_first@[k] == ((value as nat / pow3(k as nat))
                        % 3) as u8,
            decreases depth - i,
        {
            proof {
                lemma_div_pow3_step(value as nat, i as nat);
            }
            low_first.push((remaining % 3) as u8);
            remaining /= 3;
            i += 1;
        }

        if remaining != 0 {
            // value >= 3^depth, so 3^depth fits
            proof {
                lemma_pow3_positive(depth as nat);
                if value < pow3(depth as nat) {
                    assert(value as nat / pow3(depth as nat) == 0) by (nonlinear_arith)
                        requires
                            value < pow3(depth as nat),
                            pow3(depth as nat) >= 1,
                    ;
                }
            }
            let mut max_value: u64 = 1;
            let mut k: usize = 0;
            while k < depth
                invariant
                    k <= depth,
                    max_value == pow3(k as nat),
                    pow3(depth as nat) <= value,
                decreases depth - k,
            {
                proof {
                    lemma_pow3_monotone((k + 1) as nat, depth as nat);
                }
                max_value *= 3;
                k += 1;
            }
            return Err(TernaryAddrError::ValueExceedsCapacity(value, max_value - 1, depth));
        }
        proof {
            lemma_pow3_positive(depth as nat);
            assert(value < pow3(depth as nat)) by (nonlinear_arith)
                requires
                    value as nat / pow3(depth as nat) == 0,
                    pow3(depth as nat) >= 1,
            ;
        }

        // Most significant digit first
        let mut digits: Vec<u8> = Vec::new();
        let mut j: usize = depth;
        while j > 0
            invariant
                j <= depth,
                low_first@.len() == depth,
                digits@.len() == depth - j,
                forall|k: int|
                    0 <= k < i ==> #[trigger] low_first@[k] == ((value as nat / pow3(k as nat))
                        % 3) as u8,
                i == depth,
                forall|t: int|
                    0 <= t < digits@.len() ==> #[trigger] digits@[t] == digits_of(
                        value as nat,
                        depth as nat,
                    )[t],
            decreases j,
        {
            j -= 1;
            digits.push(low_first[j]);
        }
        assert(digits@ =~= digits_of(value as nat, depth as nat));
        proof {
            lemma_decode_encode(value as nat, depth as nat);
        }
        Ok(TernaryAddr { digits })
    }

    /// The digits read as a base-3 number.
    pub fn decode(&self) -> (r: u64)
        requires
            value_of(self@) <= u64::MAX,
        ensures
            r == value_of(self@),
    {
        let mut acc: u64 = 0;
        let mut i: usize = 0;
        while i < self.digits.len()
            invariant
                i <= self@.len(),
                acc == value_of(self@.subrange(0, i as int)),
                value_of(self@) <= u64::MAX,
            decreases self@.len() - i,
        {
            proof {
                assert(self@.subrange(0, i + 1).drop_last() =~= self@.subrange(0, i as int));
                lemma_value_prefix_le(self@, i + 1);
            }
            acc = acc * 3 + self.digits[i] as u64;
            i += 1;
        }
        assert(self@.subrange(0, i as int) =~= self@);
        acc
    }

    /// The three children: this address followed by 0, 1 and 2.
    pub fn trisect(&self) -> (r: (Self, Self, Self))
        ensures
            r.0@ == self@.push(0),
            r.1@ == self@.push(1),
            r.2@ == self@.push(2),
    {
        (self.child(0), self.child(1), self.child(2))
    }

    /// The address one level up; none for the root.
    pub fn parent(&self) -> (r: Option<Self>)
        ensures
            self@.len() == 0 ==> r is None,
            self@.len() > 0 ==> r is Some && r->Some_0@ == self@.drop_last(),
    {
        if self.digits.len() == 0 {
            None
        } else {
            Some(self.prefix(self.digits.len() - 1))
        }
    }

    /// The child in `direction`; fails when `direction` is above 2.
    pub fn navigate(&self, direction: u8) -> (r: Result<Self, TernaryAddrError>)
        ensures
            direction > 2 ==> r == Err::<Self, _>(TernaryAddrError::InvalidDirection(direction)),
            direction <= 2 ==> r is Ok && r->Ok_0@ == self@.push(direction),
    {
        if direction > 2 {
            return Err(TernaryAddrError::InvalidDirection(direction));
        }
        Ok(self.child(direction))
    }

    /// Length of the longest common prefix with `other`.
    fn common_len(&self, other: &TernaryAddr) -> (r: usize)
        ensures
            r == common_prefix_len(self@, other@),
            r <= self@.len(),
            r <= other@.len(),
            self@.subrange(0, r as int) == other@.subrange(0, r as int),
    {
        let mut i: usize = 0;
        while i < self.digits.len() && i < other.digits.len() && self.digits[i] == other.digits[i]
            invariant
                i <= self@.len(),
                i <= other@.len(),
                forall|j: int| 0 <= j < i ==> self@[j] == other@[j],
            decreases self@.len() - i,
        {
            i += 1;
        }
        proof {
            lemma_common_prefix_len(self@, other@, i as int);
        }
        assert(self@.subrange(0, i as int) =~= other@.subrange(0, i as int));
        i
    }

    /// The lowest common ancestor: the longest common prefix.
    pub fn common_ancestor(&self, other: &TernaryAddr) -> (r: Self)
        ensures
            r@ == self@.subrange(0, common_prefix_len(self@, other@) as int),
            r@ == other@.subrange(0, common_prefix_len(self@, other@) as int),
    {
        let k = self.common_len(other);
        self.prefix(k)
    }

    /// Number of tree edges between the two addresses through their common
    /// ancestor: `depth(a) + depth(b) - 2 depth(common_ancestor(a, b))`.
    pub fn navigation_distance(&self, other: &TernaryAddr) -> (r: usize)
        requires
            self@.len() + other@.len() <= usize::MAX,
        ensures
            r == self@.len() + other@.len() - 2 * common_prefix_len(self@, other@),
    {
        let k = self.common_len(other);
        (self.depth() - k) + (other.depth() - k)
    }

    /// The addresses from this one up to the common ancestor and down to
    /// `other`, both ends included: with `k` the common prefix length, first
    /// the prefixes of `self` of lengths `len(self)` down to `k`, then those
    /// of `other` of lengths `k + 1` up to `len(other)`.
    pub fn path_to(&self, other: &TernaryAddr) -> (r: Vec<TernaryAddr>)
        ensures
            r@.len() == self@.len() + other@.len() + 1 - 2 * common_prefix_len(self@, other@),
            forall|j: int|
                0 <= j <= self@.len() - common_prefix_len(self@, other@) ==> (#[trigger] r@[j])@
                    == self@.subrange(0, self@.len() - j),
            forall|j: int|
                self@.len() - common_prefix_len(self@, other@) <= j < r@.len() ==> (
                #[trigger] r@[j])@ == other@.subrange(
                    0,
                    j - self@.len() + 2 * common_prefix_len(self@, other@),
                ),
    {
        let k = self.common_len(other);
        let ghost up = self@.len() - k;
        let mut path: Vec<TernaryAddr> = Vec::new();

        // Up to the ancestor, which is included
        let mut len = self.digits.len();
        while len > k
            invariant
                k <= len <= self@.len(),
                path@.len() == self@.len() - len,
                forall|j: int|
                    0 <= j < path@.len() ==> (#[trigger] path@[j])@ == self@.subrange(
                        0,
                        self@.len() - j,
                    ),
            decreases len,
        {
            path.push(self.prefix(len));
            len -= 1;
        }
        path.push(self.prefix(k));

        // Down to `other`
        let mut down = k;
        while down < other.digits.len()
            invariant
                k <= down <= other@.len(),
                k == common_prefix_len(self@, other@),
                k <= self@.len(),
                self@.subrange(0, k as int) == other@.subrange(0, k as int),
                path@.len() == up + 1 + (down - k),
                up == self@.len() - k,
                forall|j: int|
                    0 <= j <= up ==> (#[trigger] path@[j])@ == self@.subrange(0, self@.len() - j),
                forall|j: int|
                    up <= j < path@.len() ==> (#[trigger] path@[j])@ == other@.subrange(
                        0,
                        j - self@.len() + 2 * k,
                    ),
            decreases other@.len() - down,
        {
            down += 1;
            path.push(other.prefix(down));
        }
        path
    }

    /// The text form: `T` followed by the digits, e.g. `T012`.
    pub fn to_string_repr(&self) -> (r: String)
        ensures
            r@ == repr_of(self@),
    {
        proof {
            use_type_invariant(self);
            reveal_strlit("T");
        }
        let mut out = String::from_str("T");
        let mut i: usize = 0;
        while i < self.digits.len()
            invariant
                i <= self@.len(),
                valid_digits(self@),
                out@ == repr_of(self@.subrange(0, i as int)),
            decreases self@.len() - i,
        {
            let d = self.digits[i];
            let ghost prev = out@;
            if d == 0 {
                proof {
                    reveal_strlit("0");
                }
                assert("0"@ =~= seq!['0']);
                out.append("0");
            } else if d == 1 {
                proof {
                    reveal_strlit("1");
                }
                assert("1"@ =~= seq!['1']);
                out.append("1");
            } else {
                proof {
                    reveal_strlit("2");
                }
                assert("2"@ =~= seq!['2']);
                out.append("2");
            }
            assert(out@ =~= prev + seq![digit_char(d)]);
            assert(self@.subrange(0, i + 1) =~= self@.subrange(0, i as int).push(d));
            assert(repr_of(self@.subrange(0, i + 1)) =~= repr_of(self@.subrange(0, i as int))
                + seq![digit_char(d)]);
            i += 1;
        }
        assert(self@.subrange(0, i as int) =~= self@);
        out
    }

    /// Parses the text form. Fails with `InvalidPrefix` when the text does not
    /// start with `T`, with `InvalidDigit(255)` when a later character is no
    /// decimal digit, and with `InvalidDigit(d)` for the first digit `d` above 2.
    pub fn from_string(s: &str) -> (r: Result<Self, TernaryAddrError>)
        ensures
            !(s@.len() > 0 && s@[0] == 'T') ==> r is Err && r->Err_0 is InvalidPrefix
                && r->Err_0->InvalidPrefix_0@ == s@,
            s@.len() > 0 && s@[0] == 'T' && !(forall|j: int|
                1 <= j < s@.len() ==> is_decimal(#[trigger] s@[j])) ==> r == Err::<Self, _>(
                TernaryAddrError::InvalidDigit(255),
            ),
            s@.len() > 0 && s@[0] == 'T' && (forall|j: int|
                1 <= j < s@.len() ==> is_decimal(#[trigger] s@[j])) ==> ({
                let d = decimal_digits(s@.drop_first());
                &&& valid_digits(d) ==> r is Ok && r->Ok_0@ == d
                &&& !valid_digits(d) ==> exists|i: int|
                    first_invalid_at(d, i) && r == Err::<Self, _>(
                        TernaryAddrError::InvalidDigit(d[i]),
                    )
            }),
    {
        let n = s.unicode_len();
        if n == 0 || s.get_char(0) != 'T' {
            return Err(TernaryAddrError::InvalidPrefix(String::from_str(s)));
        }
        if n == 1 {
            assert(decimal_digits(s@.drop_first()) =~= Seq::<u8>::empty());
            return Ok(Self::root());
        }
        let mut digits: Vec<u8> = Vec::new();
        let mut i: usize = 1;
        while i < n
            invariant
                1 <= i <= n,
                n == s@.len(),
                s@[0] == 'T',
                digits@ == decimal_digits(s@.subrange(1, i as int)),
                forall|j: int| 1 <= j < i ==> is_decimal(#[trigger] s@[j]),
            decreases n - i,
        {
            let c = s.get_char(i);
            if c < '0' || c > '9' {
                return Err(TernaryAddrError::InvalidDigit(255));
            }
            digits.push((c as u32 - '0' as u32) as u8);
            assert(digits@ =~= decimal_digits(s@.subrange(1, i + 1)));
            i += 1;
        }
        assert(s@.subrange(1, n as int) =~= s@.drop_first());
        Self::new(digits)
    }

    /// The root: the empty address.
    pub fn root() -> (r: Self)
        ensures
            r@ == Seq::<u8>::empty(),
    {
        TernaryAddr { digits: Vec::new() }
    }
}

impl Default for TernaryAddr {
    fn default() -> (r: Self)
        ensures
            r@ == Seq::<u8>::empty(),
    {
        Self::root()
    }
}

impl Clone for TernaryAddr {
    fn clone(&self) -> (r: Self)
        ensures
            r@ == self@,
    {
        let r = self.prefix(self.digits.len());
        assert(self@.subrange(0, self@.len() as int) =~= self@);
        r
    }
}

} // verus!
