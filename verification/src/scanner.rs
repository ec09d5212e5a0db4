//! Line- and word-level access to delimiter-separated byte text.
//!
//! A [`DelimIter`] walks the words of a byte slice separated by a fixed
//! delimiter; a [`Scanner`] names a set of text shards and the delimiter
//! their words are separated with. Reading shards from disk is the
//! caller's business; everything here works on in-memory bytes.

use vstd::prelude::*;

verus! {

/// The index of the first `delim` in `bytes` at or after `pos`, or the
/// length of `bytes` if there is none.
pub open spec fn find_from(bytes: Seq<u8>, delim: u8, pos: int) -> int
    decreases bytes.len() - pos,
{
    if pos >= bytes.len() {
        bytes.len() as int
    } else if bytes[pos] == delim {
        pos
    } else {
        find_from(bytes, delim, pos + 1)
    }
}

/// Characterization of [`find_from`]: it lands on the first delimiter at
/// or after `pos`.
pub proof fn lemma_find_from(bytes: Seq<u8>, delim: u8, pos: int)
    requires
        0 <= pos <= bytes.len(),
    ensures
        pos <= find_from(bytes, delim, pos),
        find_from(bytes, delim, pos) <= bytes.len(),
        find_from(bytes, delim, pos) < bytes.len() ==> bytes[find_from(bytes, delim, pos)]
            == delim,
        forall|k: int| pos <= k < find_from(bytes, delim, pos) ==> bytes[k] != delim,
    decreases bytes.len() - pos,
{
    if pos < bytes.len() && bytes[pos] != delim {
        lemma_find_from(bytes, delim, pos + 1);
    }
}

/// Any index with the first-delimiter properties is [`find_from`].
pub proof fn lemma_find_from_unique(bytes: Seq<u8>, delim: u8, pos: int, e: int)
    requires
        0 <= pos <= e <= bytes.len(),
        e < bytes.len() ==> bytes[e] == delim,
        forall|k: int| pos <= k < e ==> bytes[k] != delim,
    ensures
        find_from(bytes, delim, pos) == e,
    decreases bytes.len() - pos,
{
    if pos < bytes.len() && bytes[pos] != delim {
        lemma_find_from_unique(bytes, delim, pos + 1, e);
    }
}

/// The words of `bytes` from `pos` on, split at `delim`. Words do not
/// contain the delimiter but may be empty; a trailing delimiter does not
/// produce a trailing empty word.
pub open spec fn words_from(bytes: Seq<u8>, delim: u8, pos: int) -> Seq<Seq<u8>>
    decreases bytes.len() - pos,
{
    if pos < 0 || pos >= bytes.len() {
        Seq::empty()
    } else {
        let end = find_from_clipped(bytes, delim, pos);
        let nxt = if end < bytes.len() {
            end + 1
        } else {
            end
        };
        seq![bytes.subrange(pos, end)] + words_from(bytes, delim, nxt)
    }
}

/// [`find_from`], clamped into `[pos, bytes.len()]` so that recursion
/// over word boundaries visibly terminates; the two agree on in-range
/// positions.
pub open spec fn find_from_clipped(bytes: Seq<u8>, delim: u8, pos: int) -> int {
    let e = find_from(bytes, delim, pos);
    if e < pos {
        pos
    } else if e > bytes.len() {
        bytes.len() as int
    } else {
        e
    }
}

/// On in-range positions the clipped and plain searches agree.
pub proof fn lemma_find_from_clipped(bytes: Seq<u8>, delim: u8, pos: int)
    requires
        0 <= pos <= bytes.len(),
    ensures
        find_from_clipped(bytes, delim, pos) == find_from(bytes, delim, pos),
{
    lemma_find_from(bytes, delim, pos);
}

/// Relies on bstr's `find_byte`: returns the index of the first
/// occurrence of the given byte, or `None` if the byte does not occur.
#[verifier::external_body]
fn find_byte(bytes: &[u8], delim: u8) -> (r: Option<usize>)
    ensures
        match r {
            Some(i) => i < bytes@.len() && bytes@[i as int] == delim && forall|k: int|
                0 <= k < i ==> bytes@[k] != delim,
            None => forall|k: int| 0 <= k < bytes@.len() ==> bytes@[k] != delim,
        },
{
    bstr::ByteSlice::find_byte(bytes, delim)
}

/// An iterator over byte slices separated by a delimiter.
/// The iterated-over slices won't contain the delimiter, but may be empty.
pub struct DelimIter<'a> {
    bytes: &'a [u8],
    pos: usize,
    delim: u8,
}

impl<'a> DelimIter<'a> {
    /// The underlying bytes.
    pub closed spec fn bytes_spec(self) -> Seq<u8> {
        self.bytes@
    }

    /// The current position.
    pub closed spec fn pos_spec(self) -> int {
        self.pos as int
    }

    /// The delimiter words are separated with.
    pub closed spec fn delim_spec(self) -> u8 {
        self.delim
    }

    /// The position stays within the bytes.
    pub open spec fn wf(self) -> bool {
        0 <= self.pos_spec() <= self.bytes_spec().len()
    }

    /// The words not yet yielded.
    pub open spec fn remaining(self) -> Seq<Seq<u8>> {
        words_from(self.bytes_spec(), self.delim_spec(), self.pos_spec())
    }

    /// Start iterating the words of `bytes`.
    pub fn new(bytes: &[u8], delim: u8) -> (r: DelimIter<'_>)
        ensures
            r.wf(),
            r.bytes_spec() == bytes@,
            r.delim_spec() == delim,
            r.remaining() == words_from(bytes@, delim, 0),
    {
        DelimIter { bytes, pos: 0, delim }
    }

    /// The next word, or `None` once the bytes are exhausted.
    pub fn next(&mut self) -> (r: Option<&'a [u8]>)
        requires
            old(self).wf(),
        ensures
            final(self).wf(),
            final(self).bytes_spec() == old(self).bytes_spec(),
            final(self).delim_spec() == old(self).delim_spec(),
            old(self).remaining().len() == 0 ==> r is None && *final(self) == *old(self),
            old(self).remaining().len() > 0 ==> {
                &&& r is Some
                &&& r->Some_0@ == old(self).remaining()[0]
                &&& final(self).remaining() == old(self).remaining().drop_first()
            },
    {
        proof {
            lemma_find_from(self.bytes@, self.delim, self.pos as int);
        }
        if self.pos == self.bytes.len() {
            None
        } else {
            let bytes: &'a [u8] = self.bytes;
            let start = self.pos;
            let tail = &bytes[start..bytes.len()];
            let (end, new_pos): (usize, usize) = match find_byte(tail, self.delim) {
                None => (tail.len(), tail.len()),
                Some(next_line) => (next_line, next_line + 1),
            };
            proof {
                assert forall|k: int| start <= k < start + end implies bytes@[k]
                    != self.delim by {
                    assert(tail@[k - start] != self.delim);
                }
                if (end as int) < tail@.len() {
                    assert(bytes@[start + end] == tail@[end as int]);
                }
                lemma_find_from_unique(bytes@, self.delim, start as int, start + end);
                lemma_find_from_clipped(bytes@, self.delim, start as int);
                assert(tail@.subrange(0, end as int) =~= bytes@.subrange(
                    start as int,
                    start + end,
                ));
            }
            self.pos = start + new_pos;
            Some(&tail[0..end])
        }
    }
}

/// A `Scanner` names a set of text shards holding words separated by a
/// fixed delimiter. Lines that start with the delimiter or have repeated
/// delimiters will show empty words.
pub struct Scanner {
    paths: Vec<String>,
    delimiter: u8,
}

impl Scanner {
    /// The shard paths.
    pub closed spec fn paths_spec(self) -> Seq<String> {
        self.paths@
    }

    /// The word delimiter.
    pub closed spec fn delimiter_spec(self) -> u8 {
        self.delimiter
    }

    /// A scanner over the given shard paths and word delimiter.
    pub fn new(paths: Vec<String>, delimiter: u8) -> (r: Scanner)
        ensures
            r.paths_spec() == paths@,
            r.delimiter_spec() == delimiter,
    {
        Scanner { paths, delimiter }
    }

    /// The shard paths, for the caller that performs the reading.
    pub fn paths(&self) -> (r: &Vec<String>)
        ensures
            r@ == self.paths_spec(),
    {
        &self.paths
    }

    /// The word delimiter.
    pub fn delimiter(&self) -> (r: u8)
        ensures
            r == self.delimiter_spec(),
    {
        self.delimiter
    }
}

} // verus!
