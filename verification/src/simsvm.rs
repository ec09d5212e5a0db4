//! Helper functions for dealing with text data files in a "SIMple
//! SVMlight" (simsvm) format, i.e., `<target> <feature> <feature>...`
//! where target and features should be contiguous non-negative integers.

use vstd::prelude::*;

use crate::scanner::DelimIter;

verus! {

/// The word consists only of ASCII decimal digits (and is nonempty).
pub open spec fn is_digits(w: Seq<u8>) -> bool {
    w.len() > 0 && forall|i: int| 0 <= i < w.len() ==> 48 <= #[trigger] w[i] <= 57
}

/// The number the digit word denotes.
pub open spec fn digits_val(w: Seq<u8>) -> int
    decreases w.len(),
{
    if w.len() == 0 {
        0
    } else {
        digits_val(w.drop_last()) * 10 + (w.last() - 48)
    }
}

/// A word is a valid `u32` token when it is all digits and its value fits.
pub open spec fn word_ok(w: Seq<u8>) -> bool {
    is_digits(w) && digits_val(w) <= u32::MAX
}

/// The value a valid word denotes, as a `u32`.
pub open spec fn word_val(w: Seq<u8>) -> u32 {
    digits_val(w) as u32
}

proof fn lemma_digits_val_nonneg(w: Seq<u8>)
    requires
        forall|i: int| 0 <= i < w.len() ==> 48 <= #[trigger] w[i] <= 57,
    ensures
        digits_val(w) >= 0,
    decreases w.len(),
{
    if w.len() > 0 {
        assert forall|i: int| 0 <= i < w.drop_last().len() implies 48 <= #[trigger] w.drop_last()[i]
            <= 57 by {
            assert(48 <= w[i] <= 57);
        }
        lemma_digits_val_nonneg(w.drop_last());
    }
}

proof fn lemma_digits_val_prefix_le(w: Seq<u8>, i: int)
    requires
        forall|k: int| 0 <= k < w.len() ==> 48 <= #[trigger] w[k] <= 57,
        0 <= i <= w.len(),
    ensures
        digits_val(w.take(i)) <= digits_val(w),
    decreases w.len() - i,
{
    if i < w.len() {
        lemma_digits_val_prefix_le(w, i + 1);
        assert(w.take(i + 1).drop_last() =~= w.take(i));
        assert forall|k: int| 0 <= k < w.take(i).len() implies 48 <= #[trigger] w.take(i)[k]
            <= 57 by {
            assert(48 <= w[k] <= 57);
        }
        lemma_digits_val_nonneg(w.take(i));
        assert(digits_val(w.take(i + 1)) == digits_val(w.take(i)) * 10 + (w[i] - 48));
    } else {
        assert(w.take(i) =~= w);
    }
}

/// Parse a word of ASCII decimal digits into a `u32`; `None` exactly when
/// the word is empty, holds a non-digit, or denotes a value over
/// `u32::MAX`.
pub fn parse_u32(w: &[u8]) -> (r: Option<u32>)
    ensures
        r is Some <==> word_ok(w@),
        r is Some ==> r->Some_0 == word_val(w@),
{
    let n = w.len();
    if n == 0 {
        return None;
    }
    let mut acc: u64 = 0;
    let mut i: usize = 0;
    while i < n
        invariant
            n == w@.len(),
            0 < n,
            i <= n,
            forall|k: int| 0 <= k < i ==> 48 <= #[trigger] w@[k] <= 57,
            acc == digits_val(w@.take(i as int)),
            acc <= u32::MAX,
        decreases n - i,
    {
        let b = w[i];
        if b < 48 || b > 57 {
            return None;
        }
        proof {
            assert(w@.take(i + 1).drop_last() =~= w@.take(i as int));
        }
        acc = acc * 10 + ((b - 48) as u64);
        if acc > u32::MAX as u64 {
            proof {
                if forall|k: int| 0 <= k < w@.len() ==> 48 <= #[trigger] w@[k] <= 57 {
                    lemma_digits_val_prefix_le(w@, i + 1);
                }
            }
            return None;
        }
        i = i + 1;
    }
    proof {
        assert(w@.take(n as int) =~= w@);
    }
    Some(acc as u32)
}

/// Given a [`DelimIter`] pointing to the front of a line in a simsvm
/// file, this wrapper walks just the features in that line.
pub struct SimSvmLineIter<'a> {
    target: &'a [u8],
    iter: DelimIter<'a>,
}

/// Split off the line's target word; `None` when the line has no words.
pub fn parse<'a>(iter: DelimIter<'a>) -> (r: Option<SimSvmLineIter<'a>>)
    requires
        iter.wf(),
    ensures
        r is Some <==> iter.remaining().len() > 0,
        r is Some ==> {
            &&& r->Some_0.target_word() == iter.remaining()[0]
            &&& r->Some_0.remaining_words() == iter.remaining().drop_first()
            &&& r->Some_0.wf()
        },
{
    let mut iter = iter;
    match iter.next() {
        Some(target) => Some(SimSvmLineIter { target, iter }),
        None => None,
    }
}

impl<'a> SimSvmLineIter<'a> {
    /// The bytes of the line's leading target word.
    pub closed spec fn target_word(self) -> Seq<u8> {
        self.target@
    }

    /// The feature words not yet yielded.
    pub closed spec fn remaining_words(self) -> Seq<Seq<u8>> {
        self.iter.remaining()
    }

    /// The inner iterator position is in range.
    pub closed spec fn wf(self) -> bool {
        self.iter.wf()
    }

    /// The line's target id; `None` when the target word is no `u32`.
    pub fn target(&self) -> (r: Option<u32>)
        ensures
            r is Some <==> word_ok(self.target_word()),
            r is Some ==> r->Some_0 == word_val(self.target_word()),
    {
        parse_u32(self.target)
    }

    /// The next feature: `None` at the end of the line, `Some(None)` on a
    /// word that is no `u32`, and otherwise the feature id.
    pub fn next(&mut self) -> (r: Option<Option<u32>>)
        requires
            old(self).wf(),
        ensures
            final(self).wf(),
            final(self).target_word() == old(self).target_word(),
            r is None <==> old(self).remaining_words().len() == 0,
            r is None ==> final(self).remaining_words() == old(self).remaining_words(),
            r is Some ==> {
                &&& final(self).remaining_words() == old(self).remaining_words().drop_first()
                &&& (r->Some_0 is Some <==> word_ok(old(self).remaining_words()[0]))
                &&& (r->Some_0 is Some ==> r->Some_0->Some_0 == word_val(
                    old(self).remaining_words()[0],
                ))
            },
    {
        match self.iter.next() {
            Some(word) => Some(parse_u32(word)),
            None => None,
        }
    }
}

} // verus!
