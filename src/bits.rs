use vstd::prelude::*;

verus! {

/// A set of candidate digits: bit `d - 1` is set when digit `d` is a candidate.
pub type PossibilitiesBits = u16;

/// Whether `d` is a digit of the puzzle.
pub open spec fn is_digit(d: u8) -> bool {
    1 <= d <= 9
}

/// The bit that stands for digit `d`.
pub open spec fn digit_bit(d: u8) -> u16 {
    (1u16 << ((d - 1) as u16)) as u16
}

/// Whether digit `d` is in the set `s`.
pub open spec fn holds(s: u16, d: u8) -> bool {
    (s >> ((d - 1) as u16)) & 1u16 == 1u16
}

/// `s` with digit `d` in it.
pub open spec fn with_digit(s: u16, d: u8) -> u16 {
    s | digit_bit(d)
}

/// `s` with digit `d` taken out.
pub open spec fn without_digit(s: u16, d: u8) -> u16 {
    s & !digit_bit(d)
}

/// `s` with the membership of digit `d` flipped.
pub open spec fn flip_digit(s: u16, d: u8) -> u16 {
    s ^ digit_bit(d)
}

pub fn add_possibility(possibilities: PossibilitiesBits, value: u8) -> (r: PossibilitiesBits)
    requires
        is_digit(value),
    ensures
        r == with_digit(possibilities, value),
{
    possibilities | (1u16 << ((value - 1) as u16))
}


pub fn remove_possibility(possibilities: PossibilitiesBits, value: u8) -> (r: PossibilitiesBits)
    requires
        is_digit(value),
    ensures
        r == without_digit(possibilities, value),
{
    possibilities & !(1u16 << ((value - 1) as u16))
}

pub fn toggle_possibility(possibilities: PossibilitiesBits, value: u8) -> (r: PossibilitiesBits)
    requires
        is_digit(value),
    ensures
        r == flip_digit(possibilities, value),
{
    possibilities ^ (1u16 << ((value - 1) as u16))
}

pub fn check_possibility(possibilities: PossibilitiesBits, value: u8) -> (r: bool)
    requires
        is_digit(value),
    ensures
        r == holds(possibilities, value),
{
    (possibilities >> ((value - 1) as u16)) & 1u16 == 1u16
}

/// The sets that hold no bit beyond those of the nine digits.
pub open spec fn in_range(s: u16) -> bool {
    s < 512
}

/// The set holds exactly the one digit `d`.
pub open spec fn is_single(s: u16, d: u8) -> bool {
    is_digit(d) && s == digit_bit(d)
}

/// The digit of a set that holds exactly one, if it does.
pub fn sole_candidate(s: PossibilitiesBits) -> (r: Option<u8>)
    ensures
        match r {
            Some(d) => is_single(s, d),
            None => forall|d: u8| !is_single(s, d),
        },
{
    let mut d: u8 = 1;
    while d <= 9
        invariant
            1 <= d <= 10,
            forall|e: u8| 1 <= e < d ==> s != digit_bit(e),
        decreases 10 - d,
    {
        if s == 1u16 << ((d - 1) as u16) {
            return Some(d);
        }
        d = d + 1;
    }
    None
}

/// Every digit of `x` is a digit of `y`.
pub open spec fn subset_of(x: u16, y: u16) -> bool {
    x & y == x
}

pub(crate) proof fn lemma_subset_trans(x: u16, y: u16, z: u16)
    requires
        subset_of(x, y),
        subset_of(y, z),
    ensures
        subset_of(x, z),
{
    assert(x & y == x && y & z == y ==> x & z == x) by (bit_vector);
}

pub(crate) proof fn lemma_subset_holds(x: u16, y: u16, d: u8)
    requires
        is_digit(d),
        subset_of(x, y),
        holds(x, d),
    ensures
        holds(y, d),
{
    let k = (d - 1) as u16;
    assert(x & y == x && (x >> k) & 1u16 == 1u16 ==> (y >> k) & 1u16 == 1u16) by (bit_vector);
}

pub(crate) proof fn lemma_without_subset(s: u16, d: u8)
    requires
        is_digit(d),
    ensures
        subset_of(without_digit(s, d), s),
        in_range(s) ==> in_range(without_digit(s, d)),
        subset_of(s, s),
{
    let k = (d - 1) as u16;
    assert((s & !(1u16 << k)) & s == (s & !(1u16 << k))) by (bit_vector);
    assert(s < 512 ==> (s & !(1u16 << k)) < 512) by (bit_vector);
    assert(s & s == s) by (bit_vector);
}

pub(crate) proof fn lemma_single_holds(s: u16, d: u8)
    requires
        is_single(s, d),
    ensures
        holds(s, d),
        in_range(s),
{
    let k = (d - 1) as u16;
    assert(k < 9 ==> ((1u16 << k) >> k) & 1u16 == 1u16 && (1u16 << k) < 512) by (bit_vector);
}

pub(crate) proof fn lemma_single_unique(s: u16, d: u8, e: u8)
    requires
        is_single(s, d),
        is_single(s, e),
    ensures
        d == e,
{
    let k = (d - 1) as u16;
    let m = (e - 1) as u16;
    assert(k < 9 && m < 9 && (1u16 << k) == (1u16 << m) ==> k == m) by (bit_vector);
}

pub(crate) proof fn lemma_ops_in_range(s: u16, d: u8)
    requires
        is_digit(d),
        in_range(s),
    ensures
        in_range(with_digit(s, d)),
        in_range(flip_digit(s, d)),
{
    let k = (d - 1) as u16;
    assert(k < 9 && s < 512 ==> (s | (1u16 << k)) < 512 && (s ^ (1u16 << k)) < 512) by (bit_vector);
}

pub(crate) proof fn lemma_without_keeps(s: u16, d: u8, e: u8)
    requires
        is_digit(d),
        is_digit(e),
        d != e,
        holds(s, e),
    ensures
        holds(without_digit(s, d), e),
{
    let k = (d - 1) as u16;
    let m = (e - 1) as u16;
    assert(k < 9 && m < 9 && k != m && (s >> m) & 1u16 == 1u16 ==> ((s & !(1u16 << k)) >> m) & 1u16
        == 1u16) by (bit_vector);
}

/// Adding a digit and then taking it out is the same as taking it out; taking it out and
/// adding it back leaves it in.
pub proof fn lemma_add_remove(s: u16, d: u8)
    requires
        is_digit(d),
    ensures
        without_digit(with_digit(s, d), d) == without_digit(s, d),
        holds(with_digit(without_digit(s, d), d), d),
{
    let k = (d - 1) as u16;
    assert(((s | (1u16 << k)) & !(1u16 << k)) == (s & !(1u16 << k))) by (bit_vector);
    assert((((s & !(1u16 << k)) | (1u16 << k)) >> k) & 1u16 == 1u16) by (bit_vector)
        requires
            k < 9,
    ;
}

/// Flipping a digit twice gives the set back.
pub proof fn lemma_toggle_twice(s: u16, d: u8)
    requires
        is_digit(d),
    ensures
        flip_digit(flip_digit(s, d), d) == s,
{
    let k = (d - 1) as u16;
    assert(((s ^ (1u16 << k)) ^ (1u16 << k)) == s) by (bit_vector);
}

/// A digit that was added is in the set, one that was taken out is not, whatever the set held.
pub proof fn lemma_contains_after(s: u16, d: u8)
    requires
        is_digit(d),
    ensures
        holds(with_digit(s, d), d),
        !holds(without_digit(s, d), d),
{
    let k = (d - 1) as u16;
    assert(((s | (1u16 << k)) >> k) & 1u16 == 1u16) by (bit_vector)
        requires
            k < 9,
    ;
    assert(((s & !(1u16 << k)) >> k) & 1u16 == 0u16) by (bit_vector)
        requires
            k < 9,
    ;
}

} // verus!
