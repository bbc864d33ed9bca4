//! Candidate masks: one bit per digit, bit `i` standing for digit `i + 1`.
use vstd::prelude::*;
use bitvec::order::Lsb0;
use bitvec::view::BitView;

verus! {

/// Bit `i` (counted from the least significant end) of `m` is set.
pub open spec fn has_bit(m: u16, i: int) -> bool {
    0 <= i < 16 && (m >> (i as u16)) & 1u16 == 1u16
}

/// `m` with bit `i` cleared.
pub open spec fn clear_bit(m: u16, i: int) -> u16 {
    m & !(1u16 << (i as u16))
}

/// `m` with bit `i` set.
pub open spec fn set_bit(m: u16, i: int) -> u16 {
    m | (1u16 << (i as u16))
}

pub proof fn lemma_has_bit_and3(a: u16, b: u16, c: u16, i: int)
    requires
        0 <= i < 16,
    ensures
        has_bit(a & b & c, i) == (has_bit(a, i) && has_bit(b, i) && has_bit(c, i)),
{
    let s = i as u16;
    assert((((a & b & c) >> s) & 1u16 == 1u16) == (((a >> s) & 1u16 == 1u16) && ((b >> s)
        & 1u16 == 1u16) && ((c >> s) & 1u16 == 1u16))) by (bit_vector)
        requires
            s < 16,
    ;
}

pub proof fn lemma_clear_bit(m: u16, i: int, j: int)
    requires
        0 <= i < 16,
        0 <= j < 16,
    ensures
        has_bit(clear_bit(m, i), j) == (has_bit(m, j) && i != j),
{
    let s = i as u16;
    let t = j as u16;
    assert((((m & !(1u16 << s)) >> t) & 1u16 == 1u16) == (((m >> t) & 1u16 == 1u16) && s != t))
        by (bit_vector)
        requires
            s < 16,
            t < 16,
    ;
}

pub proof fn lemma_set_bit(m: u16, i: int, j: int)
    requires
        0 <= i < 16,
        0 <= j < 16,
    ensures
        has_bit(set_bit(m, i), j) == (has_bit(m, j) || i == j),
{
    let s = i as u16;
    let t = j as u16;
    assert((((m | (1u16 << s)) >> t) & 1u16 == 1u16) == (((m >> t) & 1u16 == 1u16) || s == t))
        by (bit_vector)
        requires
            s < 16,
            t < 16,
    ;
}

/// Setting a bit that was cleared from a mask where it was set gives the mask back.
pub proof fn lemma_clear_then_set(m: u16, i: int)
    requires
        has_bit(m, i),
    ensures
        set_bit(clear_bit(m, i), i) == m,
{
    let s = i as u16;
    assert(((m >> s) & 1u16 == 1u16) ==> ((m & !(1u16 << s)) | (1u16 << s)) == m) by (bit_vector)
        requires
            s < 16,
    ;
}

/// Clearing a bit that was set in a mask where it was clear gives the mask back.
pub proof fn lemma_set_then_clear(m: u16, i: int)
    requires
        0 <= i < 16,
        !has_bit(m, i),
    ensures
        clear_bit(set_bit(m, i), i) == m,
{
    let s = i as u16;
    assert(!((m >> s) & 1u16 == 1u16) ==> ((m | (1u16 << s)) & !(1u16 << s)) == m) by (bit_vector)
        requires
            s < 16,
    ;
}

/// Every bit of the full mask is set.
pub proof fn lemma_full_mask(i: int)
    requires
        0 <= i < 16,
    ensures
        has_bit(0xffffu16, i),
{
    let s = i as u16;
    assert((0xffffu16 >> s) & 1u16 == 1u16) by (bit_vector)
        requires
            s < 16,
    ;
}

/// The single-bit mask of bit `i`.
pub fn bit_of(i: usize) -> (b: u16)
    requires
        i < 16,
    ensures
        b == 1u16 << (i as u16),
{
    1u16 << (i as u16)
}

/// The positions of the set bits among the lowest nine bits of `m`, in
/// ascending order.
pub open spec fn lists_low_nine_ones(m: u16, ones: Seq<usize>) -> bool {
    &&& forall|j: int| 0 <= j < ones.len() ==> #[trigger] ones[j] < 9 && has_bit(m, ones[j] as int)
    &&& forall|j: int, l: int| 0 <= j < l < ones.len() ==> ones[j] < ones[l]
    &&& forall|i: int| 0 <= i < 9 && has_bit(m, i) ==> ones.contains(i as usize)
}

/// `BitSlice::iter_ones` of `bitvec` over bits `0..9` of `m` viewed in `Lsb0`
/// order: the indices of the set bits among the lowest nine, ascending.
#[verifier::external_body]
pub(crate) fn low_nine_ones(m: u16) -> (ones: Vec<usize>)
    ensures
        lists_low_nine_ones(m, ones@),
{
    m.view_bits::<Lsb0>()[0..9].iter_ones().collect()
}

} // verus!
