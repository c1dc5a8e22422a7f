//! What this crate takes on trust about `fixedbitset::FixedBitSet`.
//!
//! Nothing in this file is proved. Each item states, over the sequence of bits
//! that a set holds, what a method of `FixedBitSet` does according to the
//! source of `fixedbitset`.

use fixedbitset::FixedBitSet;
use vstd::prelude::*;

verus! {

/// `fixedbitset::FixedBitSet`, taken as a whole: what is inside a set is spoken
/// of through `bits` alone.
#[verifier::external_type_specification]
#[verifier::external_body]
pub struct ExFixedBitSet(FixedBitSet);

/// The bits that a set holds, in order: `bits(s).len()` is `s.len()`, and
/// `bits(s)[i]` is what `s.contains(i)` returns for `i < s.len()`.
pub uninterp spec fn bits(s: FixedBitSet) -> Seq<bool>;

/// Whether `words` holds `cells` packed 32 to a word: cell `i` is bit `i % 32`,
/// counted from the least significant, of word `i / 32`, and there are just
/// enough words for all the cells.
pub open spec fn packed(words: Seq<u32>, cells: Seq<bool>) -> bool {
    &&& words.len() == (cells.len() + 31) / 32
    &&& forall|i: int|
        0 <= i < cells.len() ==> #[trigger] cells[i] == (words[i / 32] & (1u32 << ((i
            % 32) as u32)) != 0)
}

/// `FixedBitSet::with_capacity`: a set of `n` bits, all of them clear.
pub assume_specification[ FixedBitSet::with_capacity ](n: usize) -> (s: FixedBitSet)
    ensures
        bits(s) == Seq::new(n as nat, |i: int| false),
;

/// `FixedBitSet::set`: bit `bit` becomes `enabled` and the others stay. The
/// method panics when `bit` is out of bounds.
pub assume_specification[ FixedBitSet::set ](s: &mut FixedBitSet, bit: usize, enabled: bool)
    requires
        bit < bits(*old(s)).len(),
    ensures
        bits(*final(s)) == bits(*old(s)).update(bit as int, enabled),
;

/// `FixedBitSet::toggle`: bit `bit` is inverted and the others stay. The
/// method panics when `bit` is out of bounds.
pub assume_specification[ FixedBitSet::toggle ](s: &mut FixedBitSet, bit: usize)
    requires
        bit < bits(*old(s)).len(),
    ensures
        bits(*final(s)) == bits(*old(s)).update(bit as int, !bits(*old(s))[bit as int]),
;

/// `FixedBitSet::clone`: the copy holds the same bits.
pub assume_specification[ <FixedBitSet as Clone>::clone ](s: &FixedBitSet) -> (copy: FixedBitSet)
    ensures
        bits(copy) == bits(*s),
;

/// `FixedBitSet::as_slice`: the blocks in which the set keeps its bits.
pub assume_specification[ FixedBitSet::as_slice ](s: &FixedBitSet) -> (words: &[u32])
    ensures
        packed(words@, bits(*s)),
;

/// `FixedBitSet::set_range` with the full range `..` and `false`: every bit is
/// cleared, and the set keeps its length.
#[verifier::external_body]
pub(crate) fn clear_all(s: &mut FixedBitSet)
    ensures
        bits(*final(s)) == Seq::new(bits(*old(s)).len(), |i: int| false),
{
    s.set_range(.., false);
}

/// Indexing a `FixedBitSet`, which reads one bit as `contains` does.
#[verifier::external_body]
pub(crate) fn bit_at(s: &FixedBitSet, bit: usize) -> (enabled: bool)
    requires
        bit < bits(*s).len(),
    ensures
        enabled == bits(*s)[bit as int],
{
    s[bit]
}

} // verus!
