//! Simple graph format reader.
//!
//! Turns sharded edge-list text into a compact [`Graph`] using the same
//! two passes as a lock-free builder would run in parallel: count degrees,
//! prefix-sum them into offsets, then place every directed edge through a
//! per-vertex cursor into its reserved window, and finally sort each
//! window. The text itself never leaves memory: reading shard files is
//! the caller's business.

use vstd::prelude::*;

use crate::graph::Graph;
use crate::graph::csr_wf;
use crate::graph::csr_window;
use crate::graph::lemma_occ_index;
use crate::graph::lemma_occ_none;
use crate::graph::lemma_occ_pos;
use crate::graph::lemma_occ_two;
use crate::graph::lemma_occ_update;
use crate::graph::occ;
use crate::scanner::DelimIter;
use crate::scanner::words_from;
use crate::simsvm;
use crate::simsvm::word_ok;
use crate::simsvm::word_val;

verus! {

/// How often the directed pair `(a, b)` occurs in `pairs`.
pub open spec fn occ_pair(pairs: Seq<(u32, u32)>, a: u32, b: u32) -> int
    decreases pairs.len(),
{
    if pairs.len() == 0 {
        0
    } else {
        occ_pair(pairs.drop_last(), a, b) + if pairs.last() == (a, b) {
            1int
        } else {
            0int
        }
    }
}

/// The destinations of the pairs leaving `v`, in order.
pub open spec fn dsts(pairs: Seq<(u32, u32)>, v: u32) -> Seq<u32>
    decreases pairs.len(),
{
    if pairs.len() == 0 {
        Seq::empty()
    } else {
        dsts(pairs.drop_last(), v) + if pairs.last().0 == v {
            seq![pairs.last().1]
        } else {
            Seq::empty()
        }
    }
}

/// How many pairs leave `v`.
pub open spec fn src_count(pairs: Seq<(u32, u32)>, v: u32) -> int {
    dsts(pairs, v).len() as int
}

/// The total number of pairs leaving vertices below `k`.
pub open spec fn counts_sum(pairs: Seq<(u32, u32)>, k: int) -> int
    decreases k,
{
    if k <= 0 {
        0
    } else {
        counts_sum(pairs, k - 1) + src_count(pairs, (k - 1) as u32)
    }
}

/// The words of one line of a shard.
pub open spec fn line_words(line: Seq<u8>, delim: u8) -> Seq<Seq<u8>> {
    words_from(line, delim, 0)
}

/// A line is well-formed: it has a target word, and every word is a
/// decimal integer that fits a `u32`.
pub open spec fn line_ok(line: Seq<u8>, delim: u8) -> bool {
    let ws = line_words(line, delim);
    ws.len() >= 1 && forall|k: int| 0 <= k < ws.len() ==> word_ok(#[trigger] ws[k])
}

/// The ids a line mentions: its target first, then its features.
pub open spec fn line_ids(line: Seq<u8>, delim: u8) -> Seq<u32> {
    line_words(line, delim).map_values(|w: Seq<u8>| word_val(w))
}

/// The line's target id.
pub open spec fn line_target(line: Seq<u8>, delim: u8) -> u32 {
    line_ids(line, delim)[0]
}

/// The line's feature ids.
pub open spec fn line_feats(line: Seq<u8>, delim: u8) -> Seq<u32> {
    line_ids(line, delim).drop_first()
}

/// Both directed pairs for every feature under target `t`, in file order.
pub open spec fn feat_pairs(t: u32, feats: Seq<u32>) -> Seq<(u32, u32)>
    decreases feats.len(),
{
    if feats.len() == 0 {
        Seq::empty()
    } else {
        feat_pairs(t, feats.drop_last()) + seq![(t, feats.last()), (feats.last(), t)]
    }
}

/// The directed pairs a line contributes.
pub open spec fn line_pairs(line: Seq<u8>, delim: u8) -> Seq<(u32, u32)> {
    feat_pairs(line_target(line, delim), line_feats(line, delim))
}

/// The lines of a shard, split at newlines.
pub open spec fn shard_lines(shard: Seq<u8>) -> Seq<Seq<u8>> {
    words_from(shard, 10, 0)
}

/// Every line of the sequence is well-formed.
pub open spec fn lines_ok(lines: Seq<Seq<u8>>, delim: u8) -> bool {
    forall|k: int| 0 <= k < lines.len() ==> line_ok(#[trigger] lines[k], delim)
}

/// The directed pairs a sequence of lines contributes, in order.
pub open spec fn lines_pairs(lines: Seq<Seq<u8>>, delim: u8) -> Seq<(u32, u32)>
    decreases lines.len(),
{
    if lines.len() == 0 {
        Seq::empty()
    } else {
        lines_pairs(lines.drop_last(), delim) + line_pairs(lines.last(), delim)
    }
}

/// The views of a vector of byte shards.
pub open spec fn shard_views(shards: Seq<Vec<u8>>) -> Seq<Seq<u8>> {
    shards.map_values(|s: Vec<u8>| s@)
}

/// Every line of every shard is well-formed.
pub open spec fn shards_ok(shards: Seq<Seq<u8>>, delim: u8) -> bool {
    forall|s: int| 0 <= s < shards.len() ==> lines_ok(shard_lines(#[trigger] shards[s]), delim)
}

/// The directed pairs of all shards, in order.
pub open spec fn shards_pairs(shards: Seq<Seq<u8>>, delim: u8) -> Seq<(u32, u32)>
    decreases shards.len(),
{
    if shards.len() == 0 {
        Seq::empty()
    } else {
        shards_pairs(shards.drop_last(), delim) + lines_pairs(
            shard_lines(shards.last()),
            delim,
        )
    }
}

/// The largest of a sequence of ids, or zero when there is none.
pub open spec fn seq_max0(s: Seq<u32>) -> int
    decreases s.len(),
{
    if s.len() == 0 {
        0
    } else {
        let m = seq_max0(s.drop_last());
        if s.last() > m {
            s.last() as int
        } else {
            m
        }
    }
}

/// The largest id a line mentions, or zero.
pub open spec fn line_max(line: Seq<u8>, delim: u8) -> int {
    seq_max0(line_ids(line, delim))
}

/// The largest id a sequence of lines mentions, or zero.
pub open spec fn lines_max(lines: Seq<Seq<u8>>, delim: u8) -> int
    decreases lines.len(),
{
    if lines.len() == 0 {
        0
    } else {
        let m = lines_max(lines.drop_last(), delim);
        let lm = line_max(lines.last(), delim);
        if lm > m {
            lm
        } else {
            m
        }
    }
}

/// The largest id any shard mentions, or zero.
pub open spec fn shards_max(shards: Seq<Seq<u8>>, delim: u8) -> int
    decreases shards.len(),
{
    if shards.len() == 0 {
        0
    } else {
        let m = shards_max(shards.drop_last(), delim);
        let sm = lines_max(shard_lines(shards.last()), delim);
        if sm > m {
            sm
        } else {
            m
        }
    }
}

/// The adjacency implied by the input is simple: no duplicate edges and
/// no self-loops.
pub open spec fn pairs_simple(pairs: Seq<(u32, u32)>) -> bool {
    forall|v: u32, x: u32| occ_pair(pairs, v, x) <= 1 && occ_pair(pairs, v, v) == 0
}

/// The larger of two numbers.
pub open spec fn max2(a: int, b: int) -> int {
    if a > b {
        a
    } else {
        b
    }
}

/// Walk every line of every shard, collecting both directed pairs of
/// every `(target, feature)` edge in file order together with the
/// largest id mentioned anywhere; `None` exactly when some line is
/// malformed.
#[verifier::spinoff_prover]
fn collect_pairs(shards: &Vec<Vec<u8>>, delim: u8) -> (r: Option<(Vec<(u32, u32)>, u32)>)
    ensures
        r is Some <==> shards_ok(shard_views(shards@), delim),
        r is Some ==> {
            &&& r->Some_0.0@ == shards_pairs(shard_views(shards@), delim)
            &&& r->Some_0.1 == shards_max(shard_views(shards@), delim)
        },
{
    let ghost views = shard_views(shards@);
    let mut pairs: Vec<(u32, u32)> = Vec::new();
    let mut maxid: u32 = 0;
    let nshards = shards.len();
    let mut si: usize = 0;
    while si < nshards
        invariant
            nshards == shards@.len(),
            views == shard_views(shards@),
            views.len() == nshards,
            si <= nshards,
            pairs@ == shards_pairs(views.take(si as int), delim),
            maxid == shards_max(views.take(si as int), delim),
            forall|s: int| 0 <= s < si ==> lines_ok(shard_lines(#[trigger] views[s]), delim),
        decreases nshards - si,
    {
        let shard: &Vec<u8> = &shards[si];
        proof {
            assert(views[si as int] == shard@);
        }
        let mut lines = DelimIter::new(shard.as_slice(), 10);
        let ghost all_lines = shard_lines(shard@);
        let ghost mut li: int = 0;
        let ghost pairs_shard0 = pairs@;
        let ghost max_shard0 = maxid;
        loop
            invariant_except_break
                nshards == shards@.len(),
                views == shard_views(shards@),
                views.len() == nshards,
                si < nshards,
                views[si as int] == shard@,
                all_lines == shard_lines(shard@),
                lines.wf(),
                lines.bytes_spec() == shard@,
                lines.delim_spec() == 10,
                0 <= li <= all_lines.len(),
                lines.remaining() == all_lines.skip(li),
                pairs_shard0 == shards_pairs(views.take(si as int), delim),
                max_shard0 == shards_max(views.take(si as int), delim),
                forall|s: int| 0 <= s < si ==> lines_ok(shard_lines(#[trigger] views[s]), delim),
                pairs@ == pairs_shard0 + lines_pairs(all_lines.take(li), delim),
                maxid == max2(max_shard0 as int, lines_max(all_lines.take(li), delim)),
                forall|k: int| 0 <= k < li ==> line_ok(#[trigger] all_lines[k], delim),
            ensures
                pairs@ == pairs_shard0 + lines_pairs(all_lines, delim),
                maxid == max2(max_shard0 as int, lines_max(all_lines, delim)),
                lines_ok(all_lines, delim),
            decreases all_lines.len() - li,
        {
            let line = match lines.next() {
                Some(l) => l,
                None => {
                    proof {
                        assert(all_lines.skip(li) =~= all_lines.take(li).skip(li));
                        assert(li == all_lines.len());
                        assert(all_lines.take(li) =~= all_lines);
                    }
                    break ;
                },
            };
            proof {
                assert(line@ == all_lines.skip(li)[0]);
                assert(line@ == all_lines[li]);
                assert(all_lines.skip(li).drop_first() =~= all_lines.skip(li + 1));
            }
            let ghost words = line_words(line@, delim);
            let ghost ids = line_ids(line@, delim);
            let ghost feats = line_feats(line@, delim);
            let mut it = match simsvm::parse(DelimIter::new(line, delim)) {
                Some(it) => it,
                None => {
                    proof {
                        assert(!line_ok(all_lines[li], delim));
                        assert(!shards_ok(views, delim)) by {
                            if shards_ok(views, delim) {
                                assert(lines_ok(shard_lines(views[si as int]), delim));
                            }
                        }
                    }
                    return None;
                },
            };
            let t = match it.target() {
                Some(t) => t,
                None => {
                    proof {
                        assert(!word_ok(words[0]));
                        assert(!line_ok(all_lines[li], delim));
                        assert(!shards_ok(views, delim)) by {
                            if shards_ok(views, delim) {
                                assert(lines_ok(shard_lines(views[si as int]), delim));
                            }
                        }
                    }
                    return None;
                },
            };
            if t > maxid {
                maxid = t;
            }
            proof {
                assert(ids[0] == word_val(words[0]));
                assert(t == line_target(line@, delim));
                assert(ids.take(1).drop_last() =~= ids.take(0));
                assert(ids.take(1).last() == ids[0]);
                assert(ids.take(0).len() == 0);
                assert(seq_max0(ids.take(0)) == 0);
                assert(seq_max0(ids.take(1)) == ids[0]);
            }
            let ghost pairs_line0 = pairs@;
            let ghost max_line0: int = max2(
                max_shard0 as int,
                lines_max(all_lines.take(li), delim),
            );
            let ghost mut fi: int = 0;
            loop
                invariant_except_break
                    nshards == shards@.len(),
                    views == shard_views(shards@),
                    views.len() == nshards,
                    si < nshards,
                    views[si as int] == shard@,
                    all_lines == shard_lines(shard@),
                    0 <= li < all_lines.len(),
                    line@ == all_lines[li],
                    words == line_words(line@, delim),
                    ids == line_ids(line@, delim),
                    feats == line_feats(line@, delim),
                    ids.len() == words.len(),
                    feats.len() == words.len() - 1,
                    words.len() >= 1,
                    it.wf(),
                    it.target_word() == words[0],
                    word_ok(words[0]),
                    t == word_val(words[0]),
                    0 <= fi <= feats.len(),
                    it.remaining_words() == words.drop_first().skip(fi),
                    forall|k: int| 0 <= k < 1 + fi ==> word_ok(#[trigger] words[k]),
                    pairs@ == pairs_line0 + feat_pairs(t, feats.take(fi)),
                    maxid == max2(max_line0, seq_max0(ids.take(1 + fi))),
                ensures
                    pairs@ == pairs_line0 + feat_pairs(t, feats),
                    maxid == max2(max_line0, seq_max0(ids)),
                    line_ok(line@, delim),
                decreases feats.len() - fi,
            {
                let fo = match it.next() {
                    Some(x) => x,
                    None => {
                        proof {
                            assert(words.drop_first().skip(fi).len() == 0);
                            assert(fi == feats.len());
                            assert(feats.take(fi) =~= feats);
                            assert(ids.take(1 + fi) =~= ids);
                            assert(line_ok(line@, delim)) by {
                                assert forall|k: int|
                                    0 <= k < words.len() implies word_ok(
                                    #[trigger] words[k],
                                ) by {
                                    assert(k < 1 + fi);
                                }
                            }
                        }
                        break ;
                    },
                };
                proof {
                    assert(words.drop_first().skip(fi)[0] == words[1 + fi]);
                    assert(words.drop_first().skip(fi).drop_first() =~= words.drop_first().skip(
                        fi + 1,
                    ));
                }
                let f = match fo {
                    Some(f) => f,
                    None => {
                        proof {
                            assert(!word_ok(words[1 + fi]));
                            assert(!line_ok(all_lines[li], delim));
                            assert(!shards_ok(views, delim)) by {
                                if shards_ok(views, delim) {
                                    assert(lines_ok(shard_lines(views[si as int]), delim));
                                }
                            }
                        }
                        return None;
                    },
                };
                let ghost pairs_pre = pairs@;
                pairs.push((t, f));
                pairs.push((f, t));
                if f > maxid {
                    maxid = f;
                }
                proof {
                    assert(ids[1 + fi] == word_val(words[1 + fi]));
                    assert(feats[fi] == ids[1 + fi]);
                    assert(f == feats[fi]);
                    assert(feats.take(fi + 1).drop_last() =~= feats.take(fi));
                    assert(feats.take(fi + 1).last() == feats[fi]);
                    assert(pairs@ =~= pairs_pre + seq![(t, f), (f, t)]);
                    assert(feat_pairs(t, feats.take(fi + 1)) =~= feat_pairs(t, feats.take(fi))
                        + seq![(t, f), (f, t)]);
                    assert(pairs@ =~= pairs_line0 + feat_pairs(t, feats.take(fi + 1)));
                    assert(ids.take(1 + fi + 1).drop_last() =~= ids.take(1 + fi));
                    assert(ids.take(1 + fi + 1).last() == ids[1 + fi]);
                    fi = fi + 1;
                }
            }
            proof {
                assert(all_lines.take(li + 1).drop_last() =~= all_lines.take(li));
                assert(all_lines.take(li + 1).last() == all_lines[li]);
                assert(line_pairs(all_lines[li], delim) == feat_pairs(t, feats));
                assert(lines_pairs(all_lines.take(li + 1), delim) =~= lines_pairs(
                    all_lines.take(li),
                    delim,
                ) + line_pairs(all_lines[li], delim));
                assert(pairs@ =~= pairs_shard0 + lines_pairs(all_lines.take(li + 1), delim));
                assert(line_max(all_lines[li], delim) == seq_max0(ids));
                assert(lines_max(all_lines.take(li + 1), delim) == max2(
                    lines_max(all_lines.take(li), delim),
                    line_max(all_lines[li], delim),
                ));
                li = li + 1;
            }
        }
        proof {
            assert(views.take(si + 1).drop_last() =~= views.take(si as int));
            assert(views.take(si + 1).last() == views[si as int]);
            assert(shards_pairs(views.take(si + 1), delim) =~= shards_pairs(
                views.take(si as int),
                delim,
            ) + lines_pairs(all_lines, delim));
        }
        si = si + 1;
    }
    proof {
        assert(views.take(nshards as int) =~= views);
    }
    Some((pairs, maxid))
}

#[verifier::spinoff_prover]
proof fn lemma_dsts_len_le(pairs: Seq<(u32, u32)>, v: u32)
    ensures
        0 <= dsts(pairs, v).len() <= pairs.len(),
    decreases pairs.len(),
{
    if pairs.len() > 0 {
        lemma_dsts_len_le(pairs.drop_last(), v);
    }
}

#[verifier::spinoff_prover]
proof fn lemma_src_count_take_le(pairs: Seq<(u32, u32)>, i: int, v: u32)
    requires
        0 <= i <= pairs.len(),
    ensures
        src_count(pairs.take(i), v) <= src_count(pairs, v),
    decreases pairs.len() - i,
{
    if i == pairs.len() {
        assert(pairs.take(i) =~= pairs);
    } else {
        lemma_src_count_take_le(pairs, i + 1, v);
        assert(pairs.take(i + 1).drop_last() =~= pairs.take(i));
    }
}

#[verifier::spinoff_prover]
proof fn lemma_counts_sum_mono(pairs: Seq<(u32, u32)>, k1: int, k2: int)
    requires
        k1 <= k2,
    ensures
        counts_sum(pairs, k1) <= counts_sum(pairs, k2),
    decreases k2 - k1,
{
    if k1 < k2 {
        lemma_counts_sum_mono(pairs, k1, k2 - 1);
        lemma_dsts_len_le(pairs, (k2 - 1) as u32);
    }
}

#[verifier::spinoff_prover]
proof fn lemma_counts_sum_drop_last(pairs: Seq<(u32, u32)>, k: int)
    requires
        pairs.len() > 0,
        0 <= k <= u32::MAX + 1,
    ensures
        counts_sum(pairs, k) == counts_sum(pairs.drop_last(), k) + (if (pairs.last().0 as int)
            < k {
            1int
        } else {
            0int
        }),
    decreases k,
{
    if k > 0 {
        lemma_counts_sum_drop_last(pairs, k - 1);
        assert(src_count(pairs, (k - 1) as u32) == src_count(pairs.drop_last(), (k - 1) as u32)
            + (if pairs.last().0 == (k - 1) as u32 {
            1int
        } else {
            0int
        }));
    }
}

#[verifier::spinoff_prover]
proof fn lemma_counts_sum_total(pairs: Seq<(u32, u32)>, n: int)
    requires
        0 <= n <= u32::MAX + 1,
        forall|i: int| 0 <= i < pairs.len() ==> ((#[trigger] pairs[i]).0 as int) < n,
    ensures
        counts_sum(pairs, n) == pairs.len(),
    decreases pairs.len(),
{
    if pairs.len() == 0 {
        lemma_counts_sum_empty(pairs, n);
    } else {
        lemma_counts_sum_drop_last(pairs, n);
        assert forall|i: int|
            0 <= i < pairs.drop_last().len() implies ((#[trigger] pairs.drop_last()[i]).0 as int)
            < n by {
            assert(pairs.drop_last()[i] == pairs[i]);
        }
        lemma_counts_sum_total(pairs.drop_last(), n);
    }
}

#[verifier::spinoff_prover]
proof fn lemma_counts_sum_empty(pairs: Seq<(u32, u32)>, k: int)
    requires
        pairs.len() == 0,
    ensures
        counts_sum(pairs, k) == 0,
    decreases k,
{
    if k > 0 {
        lemma_counts_sum_empty(pairs, k - 1);
    }
}

#[verifier::spinoff_prover]
proof fn lemma_seq_max0_ge(s: Seq<u32>, k: int)
    requires
        0 <= k < s.len(),
    ensures
        s[k] <= seq_max0(s),
        seq_max0(s) >= 0,
    decreases s.len(),
{
    lemma_seq_max0_nonneg(s);
    if k < s.len() - 1 {
        lemma_seq_max0_ge(s.drop_last(), k);
    }
}

#[verifier::spinoff_prover]
proof fn lemma_seq_max0_nonneg(s: Seq<u32>)
    ensures
        seq_max0(s) >= 0,
    decreases s.len(),
{
    if s.len() > 0 {
        lemma_seq_max0_nonneg(s.drop_last());
    }
}

#[verifier::spinoff_prover]
proof fn lemma_feat_pairs_bound(t: u32, feats: Seq<u32>, b: int)
    requires
        t <= b,
        forall|k: int| 0 <= k < feats.len() ==> (#[trigger] feats[k]) <= b,
    ensures
        forall|i: int|
            0 <= i < feat_pairs(t, feats).len() ==> ((#[trigger] feat_pairs(t, feats)[i]).0 <= b
                && feat_pairs(t, feats)[i].1 <= b),
    decreases feats.len(),
{
    if feats.len() > 0 {
        assert forall|k: int| 0 <= k < feats.drop_last().len() implies (
        #[trigger] feats.drop_last()[k]) <= b by {
            assert(feats[k] <= b);
        }
        lemma_feat_pairs_bound(t, feats.drop_last(), b);
        assert(feats.last() <= b);
        assert forall|i: int|
            0 <= i < feat_pairs(t, feats).len() implies ((#[trigger] feat_pairs(t, feats)[i]).0
            <= b && feat_pairs(t, feats)[i].1 <= b) by {
            let p1 = feat_pairs(t, feats.drop_last());
            let tail = seq![(t, feats.last()), (feats.last(), t)];
            if i < p1.len() {
                assert(feat_pairs(t, feats)[i] == p1[i]);
            } else {
                assert(feat_pairs(t, feats)[i] == tail[i - p1.len()]);
            }
        }
    }
}

#[verifier::spinoff_prover]
proof fn lemma_line_pairs_bound(line: Seq<u8>, delim: u8)
    requires
        line_words(line, delim).len() >= 1,
    ensures
        forall|i: int|
            0 <= i < line_pairs(line, delim).len() ==> ((#[trigger] line_pairs(line, delim)[i]).0
                <= line_max(line, delim) && line_pairs(line, delim)[i].1 <= line_max(
                line,
                delim,
            )),
{
    let ids = line_ids(line, delim);
    let feats = line_feats(line, delim);
    lemma_seq_max0_ge(ids, 0);
    assert forall|k: int| 0 <= k < feats.len() implies (#[trigger] feats[k]) <= line_max(
        line,
        delim,
    ) by {
        assert(feats[k] == ids[k + 1]);
        lemma_seq_max0_ge(ids, k + 1);
    }
    lemma_feat_pairs_bound(line_target(line, delim), feats, line_max(line, delim));
}

#[verifier::spinoff_prover]
proof fn lemma_lines_pairs_bound(lines: Seq<Seq<u8>>, delim: u8)
    requires
        lines_ok(lines, delim),
    ensures
        forall|i: int|
            0 <= i < lines_pairs(lines, delim).len() ==> ((#[trigger] lines_pairs(
                lines,
                delim,
            )[i]).0 <= lines_max(lines, delim) && lines_pairs(lines, delim)[i].1 <= lines_max(
                lines,
                delim,
            )),
    decreases lines.len(),
{
    if lines.len() > 0 {
        assert forall|k: int| 0 <= k < lines.drop_last().len() implies line_ok(
            #[trigger] lines.drop_last()[k],
            delim,
        ) by {
            assert(line_ok(lines[k], delim));
        }
        lemma_lines_pairs_bound(lines.drop_last(), delim);
        assert(line_ok(lines.last(), delim));
        lemma_line_pairs_bound(lines.last(), delim);
        assert forall|i: int| 0 <= i < lines_pairs(lines, delim).len() implies ((
        #[trigger] lines_pairs(lines, delim)[i]).0 <= lines_max(lines, delim) && lines_pairs(
            lines,
            delim,
        )[i].1 <= lines_max(lines, delim)) by {
            let p1 = lines_pairs(lines.drop_last(), delim);
            if i < p1.len() {
                assert(lines_pairs(lines, delim)[i] == p1[i]);
            } else {
                assert(lines_pairs(lines, delim)[i] == line_pairs(lines.last(), delim)[i
                    - p1.len()]);
            }
        }
    }
}

#[verifier::spinoff_prover]
proof fn lemma_shards_pairs_bound(shards: Seq<Seq<u8>>, delim: u8)
    requires
        shards_ok(shards, delim),
    ensures
        forall|i: int|
            0 <= i < shards_pairs(shards, delim).len() ==> ((#[trigger] shards_pairs(
                shards,
                delim,
            )[i]).0 <= shards_max(shards, delim) && shards_pairs(shards, delim)[i].1
                <= shards_max(shards, delim)),
    decreases shards.len(),
{
    if shards.len() > 0 {
        assert forall|k: int| 0 <= k < shards.drop_last().len() implies lines_ok(
            shard_lines(#[trigger] shards.drop_last()[k]),
            delim,
        ) by {
            assert(lines_ok(shard_lines(shards[k]), delim));
        }
        lemma_shards_pairs_bound(shards.drop_last(), delim);
        assert(lines_ok(shard_lines(shards.last()), delim));
        lemma_lines_pairs_bound(shard_lines(shards.last()), delim);
        assert forall|i: int| 0 <= i < shards_pairs(shards, delim).len() implies ((
        #[trigger] shards_pairs(shards, delim)[i]).0 <= shards_max(shards, delim)
            && shards_pairs(shards, delim)[i].1 <= shards_max(shards, delim)) by {
            let p1 = shards_pairs(shards.drop_last(), delim);
            if i < p1.len() {
                assert(shards_pairs(shards, delim)[i] == p1[i]);
            } else {
                assert(shards_pairs(shards, delim)[i] == lines_pairs(
                    shard_lines(shards.last()),
                    delim,
                )[i - p1.len()]);
            }
        }
    }
}

#[verifier::spinoff_prover]
proof fn lemma_dsts_occ(pairs: Seq<(u32, u32)>, v: u32, x: u32)
    ensures
        occ(dsts(pairs, v), x) == occ_pair(pairs, v, x),
    decreases pairs.len(),
{
    if pairs.len() > 0 {
        lemma_dsts_occ(pairs.drop_last(), v, x);
        if pairs.last().0 == v {
            assert(dsts(pairs, v).drop_last() =~= dsts(pairs.drop_last(), v));
            assert(dsts(pairs, v).last() == pairs.last().1);
        } else {
            assert(dsts(pairs, v) =~= dsts(pairs.drop_last(), v));
        }
    }
}

#[verifier::spinoff_prover]
proof fn lemma_occ_pair_concat(p1: Seq<(u32, u32)>, p2: Seq<(u32, u32)>, a: u32, b: u32)
    ensures
        occ_pair(p1 + p2, a, b) == occ_pair(p1, a, b) + occ_pair(p2, a, b),
    decreases p2.len(),
{
    if p2.len() == 0 {
        assert(p1 + p2 =~= p1);
    } else {
        assert((p1 + p2).drop_last() =~= p1 + p2.drop_last());
        assert((p1 + p2).last() == p2.last());
        lemma_occ_pair_concat(p1, p2.drop_last(), a, b);
    }
}


#[verifier::spinoff_prover]
proof fn lemma_feat_pairs_sym(t: u32, feats: Seq<u32>, a: u32, b: u32)
    ensures
        occ_pair(feat_pairs(t, feats), a, b) == occ_pair(feat_pairs(t, feats), b, a),
    decreases feats.len(),
{
    if feats.len() > 0 {
        lemma_feat_pairs_sym(t, feats.drop_last(), a, b);
        let f = feats.last();
        let tail = seq![(t, f), (f, t)];
        lemma_occ_pair_concat(feat_pairs(t, feats.drop_last()), tail, a, b);
        lemma_occ_pair_concat(feat_pairs(t, feats.drop_last()), tail, b, a);
        assert(tail.drop_last() =~= seq![(t, f)]);
        assert(seq![(t, f)].drop_last() =~= Seq::<(u32, u32)>::empty());
        assert(tail.last() == (f, t));
        assert(seq![(t, f)].last() == (t, f));
        assert(occ_pair(Seq::<(u32, u32)>::empty(), a, b) == 0);
        assert(occ_pair(Seq::<(u32, u32)>::empty(), b, a) == 0);
        assert(occ_pair(seq![(t, f)], a, b) == (if (t, f) == (a, b) {
            1int
        } else {
            0int
        }));
        assert(occ_pair(seq![(t, f)], b, a) == (if (t, f) == (b, a) {
            1int
        } else {
            0int
        }));
        assert(occ_pair(tail, a, b) == (if (t, f) == (a, b) {
            1int
        } else {
            0int
        }) + (if (f, t) == (a, b) {
            1int
        } else {
            0int
        }));
        assert(occ_pair(tail, b, a) == (if (t, f) == (b, a) {
            1int
        } else {
            0int
        }) + (if (f, t) == (b, a) {
            1int
        } else {
            0int
        }));
        assert(occ_pair(tail, a, b) == occ_pair(tail, b, a));
    }
}


#[verifier::spinoff_prover]
proof fn lemma_lines_pairs_sym(lines: Seq<Seq<u8>>, delim: u8, a: u32, b: u32)
    ensures
        occ_pair(lines_pairs(lines, delim), a, b) == occ_pair(lines_pairs(lines, delim), b, a),
    decreases lines.len(),
{
    if lines.len() > 0 {
        lemma_lines_pairs_sym(lines.drop_last(), delim, a, b);
        lemma_feat_pairs_sym(
            line_target(lines.last(), delim),
            line_feats(lines.last(), delim),
            a,
            b,
        );
        lemma_occ_pair_concat(
            lines_pairs(lines.drop_last(), delim),
            line_pairs(lines.last(), delim),
            a,
            b,
        );
        lemma_occ_pair_concat(
            lines_pairs(lines.drop_last(), delim),
            line_pairs(lines.last(), delim),
            b,
            a,
        );
    }
}


#[verifier::spinoff_prover]
proof fn lemma_shards_pairs_sym(shards: Seq<Seq<u8>>, delim: u8, a: u32, b: u32)
    ensures
        occ_pair(shards_pairs(shards, delim), a, b) == occ_pair(shards_pairs(shards, delim), b, a),
    decreases shards.len(),
{
    if shards.len() > 0 {
        lemma_shards_pairs_sym(shards.drop_last(), delim, a, b);
        lemma_lines_pairs_sym(shard_lines(shards.last()), delim, a, b);
        lemma_occ_pair_concat(
            shards_pairs(shards.drop_last(), delim),
            lines_pairs(shard_lines(shards.last()), delim),
            a,
            b,
        );
        lemma_occ_pair_concat(
            shards_pairs(shards.drop_last(), delim),
            lines_pairs(shard_lines(shards.last()), delim),
            b,
            a,
        );
    }
}


#[verifier::spinoff_prover]
proof fn lemma_window_cover(offsets: Seq<usize>, j: int) -> (v: int)
    requires
        offsets.len() >= 1,
        offsets[0] == 0,
        forall|k: int| 0 <= k < offsets.len() - 1 ==> (#[trigger] offsets[k]) <= offsets[k + 1],
        0 <= j < offsets[offsets.len() - 1],
    ensures
        0 <= v < offsets.len() - 1,
        offsets[v] <= j < offsets[v + 1],
    decreases offsets.len(),
{
    let n = offsets.len() - 1;
    if j >= offsets[n - 1] {
        n - 1
    } else {
        assert forall|k: int| 0 <= k < offsets.drop_last().len() - 1 implies (
        #[trigger] offsets.drop_last()[k]) <= offsets.drop_last()[k + 1] by {
            assert(offsets[k] <= offsets[k + 1]);
        }
        let v = lemma_window_cover(offsets.drop_last(), j);
        assert(offsets[v] == offsets.drop_last()[v]);
        v
    }
}

#[verifier::spinoff_prover]
proof fn lemma_dsts_entries(pairs: Seq<(u32, u32)>, v: u32, m: int, n: int)
    requires
        forall|i: int|
            0 <= i < pairs.len() ==> ((#[trigger] pairs[i]).0 as int) < n && ((
            pairs[i]).1 as int) < n,
        0 <= m < dsts(pairs, v).len(),
    ensures
        (dsts(pairs, v)[m] as int) < n,
    decreases pairs.len(),
{
    if pairs.len() > 0 {
        assert forall|i: int| 0 <= i < pairs.drop_last().len() implies ((
        #[trigger] pairs.drop_last()[i]).0 as int) < n && ((pairs.drop_last()[i]).1 as int)
            < n by {
            assert((pairs[i].0 as int) < n);
        }
        if pairs.last().0 == v && m == dsts(pairs, v).len() - 1 {
            assert(dsts(pairs, v).last() == pairs.last().1);
        } else {
            lemma_dsts_entries(pairs.drop_last(), v, m, n);
            assert(dsts(pairs, v)[m] == dsts(pairs.drop_last(), v)[m]);
        }
    }
}


/// Every slot of the placed arrays holds an in-range vertex id, because
/// every parsed pair endpoint is bounded by the largest id seen.
#[verifier::spinoff_prover]
proof fn lemma_entries_in_range(
    offsets: Seq<usize>,
    edges: Seq<u32>,
    gpairs: Seq<(u32, u32)>,
    n: int,
)
    requires
        1 <= n + 1,
        offsets.len() == n + 1,
        offsets[0] == 0,
        offsets[n] == edges.len(),
        forall|a: int, b: int| 0 <= a <= b <= n ==> (#[trigger] offsets[a]) <= (#[trigger] offsets[b]),
        forall|u: int, x: u32|
            0 <= u < n ==> #[trigger] occ(
                edges.subrange((#[trigger] offsets[u]) as int, offsets[u + 1] as int),
                x,
            ) == occ(dsts(gpairs, u as u32), x),
        forall|i: int|
            0 <= i < gpairs.len() ==> ((#[trigger] gpairs[i]).0 as int) < n && ((
            gpairs[i]).1 as int) < n,
    ensures
        forall|j: int| 0 <= j < edges.len() ==> (#[trigger] edges[j]) < n,
{
    assert forall|j: int| 0 <= j < edges.len() implies (#[trigger] edges[j]) < n by {
        let u = lemma_window_cover(offsets, j);
        let w = edges.subrange(offsets[u] as int, offsets[u + 1] as int);
        assert(w[j - offsets[u]] == edges[j]);
        lemma_occ_index(w, j - offsets[u]);
        assert(occ(w, edges[j]) == occ(dsts(gpairs, u as u32), edges[j]));
        let m = lemma_occ_pos(dsts(gpairs, u as u32), edges[j]);
        lemma_dsts_entries(gpairs, u as u32, m, n);
    }
}

/// The reverse direction of every stored edge is stored too: the pair
/// list carries both directions of every parsed edge, so the two
/// occurrence counts agree.
#[verifier::spinoff_prover]
proof fn lemma_symmetry_holds(
    offsets: Seq<usize>,
    edges: Seq<u32>,
    gpairs: Seq<(u32, u32)>,
    views: Seq<Seq<u8>>,
    delim: u8,
    n: int,
    v: int,
    j: int,
)
    requires
        1 <= n + 1,
        n <= u32::MAX,
        offsets.len() == n + 1,
        offsets[n] == edges.len(),
        gpairs == shards_pairs(views, delim),
        forall|a: int, b: int| 0 <= a <= b <= n ==> (#[trigger] offsets[a]) <= (#[trigger] offsets[b]),
        forall|u: int, x: u32|
            0 <= u < n ==> #[trigger] occ(
                edges.subrange((#[trigger] offsets[u]) as int, offsets[u + 1] as int),
                x,
            ) == occ(dsts(gpairs, u as u32), x),
        forall|j2: int| 0 <= j2 < edges.len() ==> (#[trigger] edges[j2]) < n,
        0 <= v < n,
        0 <= j < csr_window(offsets, edges, v).len(),
    ensures
        occ(csr_window(offsets, edges, (csr_window(offsets, edges, v)[j]) as int), v as u32)
            >= 1,
{
    let x = csr_window(offsets, edges, v)[j];
    assert(csr_window(offsets, edges, v) == edges.subrange(
        offsets[v] as int,
        offsets[v + 1] as int,
    ));
    lemma_occ_index(csr_window(offsets, edges, v), j);
    assert(occ(edges.subrange(offsets[v] as int, offsets[v + 1] as int), x) == occ(
        dsts(gpairs, v as u32),
        x,
    ));
    assert(occ(dsts(gpairs, v as u32), x) >= 1);
    lemma_dsts_occ(gpairs, v as u32, x);
    lemma_shards_pairs_sym(views, delim, v as u32, x);
    lemma_dsts_occ(gpairs, x, v as u32);
    assert(occ(dsts(gpairs, x), v as u32) >= 1);
    assert(x == edges[offsets[v] + j]);
    assert((x as int) < n);
    assert(occ(edges.subrange(offsets[x as int] as int, offsets[x as int + 1] as int), v as u32)
        == occ(dsts(gpairs, x), v as u32));
    assert(csr_window(offsets, edges, x as int) == edges.subrange(
        offsets[x as int] as int,
        offsets[x as int + 1] as int,
    ));
}

/// Sort `edges[lo..hi]` in place by repeated adjacent swaps, leaving the
/// rest of the vector untouched and the window's contents unchanged as a
/// bag.
#[verifier::spinoff_prover]
fn sort_range(edges: &mut Vec<u32>, lo: usize, hi: usize)
    requires
        lo <= hi <= old(edges)@.len(),
    ensures
        final(edges)@.len() == old(edges)@.len(),
        forall|k: int| 0 <= k < lo ==> final(edges)@[k] == old(edges)@[k],
        forall|k: int| hi <= k < old(edges)@.len() ==> final(edges)@[k] == old(edges)@[k],
        forall|a: int, b: int|
            lo <= a < b < hi ==> (#[trigger] final(edges)@[a]) <= (#[trigger] final(edges)@[b]),
        forall|x: u32|
            occ(final(edges)@.subrange(lo as int, hi as int), x) == occ(
                old(edges)@.subrange(lo as int, hi as int),
                x,
            ),
{
    let mut i = lo;
    while i < hi
        invariant
            lo <= i <= hi <= edges@.len(),
            edges@.len() == old(edges)@.len(),
            forall|k: int| 0 <= k < lo ==> edges@[k] == old(edges)@[k],
            forall|k: int| hi <= k < old(edges)@.len() ==> edges@[k] == old(edges)@[k],
            forall|a: int, b: int|
                lo <= a < b < i ==> (#[trigger] edges@[a]) <= (#[trigger] edges@[b]),
            forall|x: u32|
                occ(edges@.subrange(lo as int, hi as int), x) == occ(
                    old(edges)@.subrange(lo as int, hi as int),
                    x,
                ),
        decreases hi - i,
    {
        let mut j = i;
        while j > lo && edges[j - 1] > edges[j]
            invariant
                lo <= j <= i < hi <= edges@.len(),
                edges@.len() == old(edges)@.len(),
                forall|k: int| 0 <= k < lo ==> edges@[k] == old(edges)@[k],
                forall|k: int| hi <= k < old(edges)@.len() ==> edges@[k] == old(edges)@[k],
                forall|a: int, b: int|
                    lo <= a < b < i + 1 && b != j ==> (#[trigger] edges@[a]) <= (
                    #[trigger] edges@[b]),
                forall|x: u32|
                    occ(edges@.subrange(lo as int, hi as int), x) == occ(
                        old(edges)@.subrange(lo as int, hi as int),
                        x,
                    ),
            decreases j,
        {
            let ghost pre = edges@;
            let a = edges[j - 1];
            let b = edges[j];
            edges[j - 1] = b;
            edges[j] = a;
            proof {
                let losub = pre.subrange(lo as int, hi as int);
                assert(edges@.subrange(lo as int, hi as int) =~= losub.update(
                    j - 1 - lo,
                    b,
                ).update(j - lo, a));
                assert forall|x: u32|
                    occ(edges@.subrange(lo as int, hi as int), x) == occ(losub, x) by {
                    lemma_occ_update(losub, j - 1 - lo, b, x);
                    lemma_occ_update(losub.update(j - 1 - lo, b), j - lo, a, x);
                }
            }
            j = j - 1;
        }
        i = i + 1;
    }
}

/// What can go wrong while reading a graph.
#[derive(Debug, PartialEq, Eq)]
pub enum GraphReadError {
    /// A line held no target, a non-integer word, or an id over `u32`.
    MalformedLine,
    /// The inferred vertex count does not fit the address space.
    TooManyVertices,
    /// A duplicate edge or a self-loop.
    NotSimple,
}

/// Every stored edge must have its reverse direction stored too: for
/// each slot of `v`'s window, scan the window of the vertex found there
/// for `v` itself. Input that lists an edge in one direction only still
/// passes, because the builder synthesizes both directions.
#[verifier::spinoff_prover]
fn check_symmetry(
    edges: &Vec<u32>,
    offsets: &Vec<usize>,
    n: usize,
    Ghost(gpairs): Ghost<Seq<(u32, u32)>>,
    Ghost(views): Ghost<Seq<Seq<u8>>>,
    Ghost(gdelim): Ghost<u8>,
) -> (ok: bool)
    requires
        n <= u32::MAX,
        offsets@.len() == n + 1,
        offsets@[0] == 0,
        offsets@[n as int] == edges@.len(),
        gpairs == shards_pairs(views, gdelim),
        forall|a: int, b: int|
            0 <= a <= b <= n ==> (#[trigger] offsets@[a]) <= (#[trigger] offsets@[b]),
        forall|u: int, x: u32|
            0 <= u < n ==> #[trigger] occ(
                edges@.subrange((#[trigger] offsets@[u]) as int, offsets@[u + 1] as int),
                x,
            ) == occ(dsts(gpairs, u as u32), x),
        forall|j: int| 0 <= j < edges@.len() ==> (#[trigger] edges@[j]) < n,
    ensures
        ok,
        forall|v: int, j: int|
            0 <= v < n && 0 <= j < csr_window(offsets@, edges@, v).len() ==> occ(
                #[trigger] csr_window(
                    offsets@,
                    edges@,
                    csr_window(offsets@, edges@, v)[j] as int,
                ),
                v as u32,
            ) >= 1,
{
    let mut v: usize = 0;
    while v < n
        invariant
            n <= u32::MAX,
            offsets@.len() == n + 1,
            offsets@[0] == 0,
            offsets@[n as int] == edges@.len(),
            gpairs == shards_pairs(views, gdelim),
            v <= n,
            forall|a: int, b: int|
                0 <= a <= b <= n ==> (#[trigger] offsets@[a]) <= (#[trigger] offsets@[b]),
            forall|u: int, x: u32|
                0 <= u < n ==> #[trigger] occ(
                    edges@.subrange((#[trigger] offsets@[u]) as int, offsets@[u + 1] as int),
                    x,
                ) == occ(dsts(gpairs, u as u32), x),
            forall|j: int| 0 <= j < edges@.len() ==> (#[trigger] edges@[j]) < n,
            forall|u: int, j: int|
                0 <= u < v && 0 <= j < csr_window(offsets@, edges@, u).len() ==> occ(
                    #[trigger] csr_window(
                        offsets@,
                        edges@,
                        csr_window(offsets@, edges@, u)[j] as int,
                    ),
                    u as u32,
                ) >= 1,
        decreases n - v,
    {
        let lo = offsets[v];
        let hi = offsets[v + 1];
        let mut t: usize = lo;
        while t < hi
            invariant
                n <= u32::MAX,
                offsets@.len() == n + 1,
                offsets@[0] == 0,
                offsets@[n as int] == edges@.len(),
                gpairs == shards_pairs(views, gdelim),
                v < n,
                lo == offsets@[v as int],
                hi == offsets@[v as int + 1],
                lo <= t <= hi,
                hi <= edges@.len(),
                forall|a: int, b: int|
                    0 <= a <= b <= n ==> (#[trigger] offsets@[a]) <= (#[trigger] offsets@[b]),
                forall|u: int, x: u32|
                    0 <= u < n ==> #[trigger] occ(
                        edges@.subrange(
                            (#[trigger] offsets@[u]) as int,
                            offsets@[u + 1] as int,
                        ),
                        x,
                    ) == occ(dsts(gpairs, u as u32), x),
                forall|j: int| 0 <= j < edges@.len() ==> (#[trigger] edges@[j]) < n,
                forall|j2: int|
                    0 <= j2 < t - lo ==> occ(
                        #[trigger] csr_window(
                            offsets@,
                            edges@,
                            csr_window(offsets@, edges@, v as int)[j2] as int,
                        ),
                        v as u32,
                    ) >= 1,
            decreases hi - t,
        {
            let x = edges[t];
            let xlo = offsets[x as usize];
            let xhi = offsets[x as usize + 1];
            let mut m: usize = xlo;
            let mut found = false;
            while m < xhi
                invariant
                    offsets@.len() == n + 1,
                    (x as int) < n,
                    xlo == offsets@[x as int],
                    xhi == offsets@[x as int + 1],
                    xlo <= m <= xhi,
                    xhi <= edges@.len(),
                    v < n,
                    found ==> occ(
                        csr_window(offsets@, edges@, x as int),
                        v as u32,
                    ) >= 1,
                    !found ==> forall|m2: int|
                        xlo <= m2 < m ==> (#[trigger] edges@[m2]) != v as u32,
                decreases xhi - m,
            {
                if edges[m] == v as u32 {
                    proof {
                        let wx = csr_window(offsets@, edges@, x as int);
                        assert(wx[m - xlo] == v as u32);
                        lemma_occ_index(wx, m - xlo);
                    }
                    found = true;
                }
                m = m + 1;
            }
            if !found {
                // Unreachable: the pair list carries both directions of
                // every parsed edge, so the reverse is always present.
                proof {
                    let wx = csr_window(offsets@, edges@, x as int);
                    assert forall|k: int| 0 <= k < wx.len() implies (#[trigger] wx[k])
                        != v as u32 by {
                        assert(edges@[xlo + k] != v as u32);
                    }
                    lemma_occ_none(wx, v as u32);
                    assert(csr_window(offsets@, edges@, v as int)[t - lo] == x);
                    lemma_symmetry_holds(
                        offsets@,
                        edges@,
                        gpairs,
                        views,
                        gdelim,
                        n as int,
                        v as int,
                        t - lo,
                    );
                    assert(false);
                }
                return false;
            }
            proof {
                assert(csr_window(offsets@, edges@, v as int)[t - lo] == edges@[t as int]);
                assert forall|j2: int| 0 <= j2 < t + 1 - lo implies occ(
                    #[trigger] csr_window(
                        offsets@,
                        edges@,
                        csr_window(offsets@, edges@, v as int)[j2] as int,
                    ),
                    v as u32,
                ) >= 1 by {
                    if j2 == t - lo {
                        assert(csr_window(offsets@, edges@, v as int)[j2] == x);
                    }
                }
            }
            t = t + 1;
        }
        proof {
            assert forall|u: int, j: int|
                0 <= u < v + 1 && 0 <= j < csr_window(offsets@, edges@, u).len() implies occ(
                #[trigger] csr_window(
                    offsets@,
                    edges@,
                    csr_window(offsets@, edges@, u)[j] as int,
                ),
                u as u32,
            ) >= 1 by {
                if u == v as int {
                    assert(csr_window(offsets@, edges@, u).len() == hi - lo);
                }
            }
        }
        v = v + 1;
    }
    true
}

/// Wrap validated offsets/edges into a graph: every structural clause
/// of the CSR invariant has been established, so construction is safe.
#[verifier::spinoff_prover]
fn assemble_graph(
    offsets: Vec<usize>,
    edges: Vec<u32>,
    n: usize,
) -> (g: Graph)
    requires
        1 <= n + 1,
        n + 1 <= 0x1_0000_0000,
        offsets@.len() == n + 1,
        offsets@[0] == 0,
        offsets@[n as int] == edges@.len(),
        forall|a: int, b: int|
            0 <= a <= b <= n ==> (#[trigger] offsets@[a]) <= (#[trigger] offsets@[b]),
        forall|j: int| 0 <= j < edges@.len() ==> (#[trigger] edges@[j]) < n,
        forall|v: int, t1: int, t2: int|
            0 <= v < n && (#[trigger] offsets@[v]) as int <= t1 < t2 < offsets@[v + 1] as int
                ==> (#[trigger] edges@[t1]) < (#[trigger] edges@[t2]),
        forall|v: int, t: int|
            0 <= v < n && (#[trigger] offsets@[v]) as int <= t < offsets@[v + 1] as int ==> (
            #[trigger] edges@[t]) != v,
        forall|v: int, j: int|
            0 <= v < n && 0 <= j < csr_window(offsets@, edges@, v).len() ==> occ(
                #[trigger] csr_window(
                    offsets@,
                    edges@,
                    csr_window(offsets@, edges@, v)[j] as int,
                ),
                v as u32,
            ) >= 1,
    ensures
        g.wf(),
        g.nv() == n,
        forall|v: int| 0 <= v < n ==> g.nbrs(v) == csr_window(offsets@, edges@, v),
{
    proof {
        assert forall|v: int| 0 <= v <= n implies (#[trigger] offsets@[v]) <= edges@.len() by {
            assert(offsets@[v] <= offsets@[n as int]);
        }
        assert(csr_wf(offsets@, edges@));
    }
    Graph::new(offsets, edges)
}

/// Count each vertex's outgoing pairs and prefix-sum the counts into
/// the offsets array: `offsets[v]` is the first slot of `v`'s window.
#[verifier::spinoff_prover]
fn build_offsets(pairs_vec: &Vec<(u32, u32)>, n: usize) -> (offsets: Vec<usize>)
    requires
        n < usize::MAX,
        n <= u32::MAX,
        forall|i2: int|
            0 <= i2 < pairs_vec@.len() ==> ((#[trigger] pairs_vec@[i2]).0 as int) < n && ((
            pairs_vec@[i2]).1 as int) < n,
    ensures
        offsets@.len() == n + 1,
        forall|j: int| 0 <= j <= n ==> (#[trigger] offsets@[j]) == counts_sum(pairs_vec@, j),
{
    let ghost gpairs = pairs_vec@;
    let np = pairs_vec.len();
    let mut counts: Vec<usize> = Vec::new();
    let mut k: usize = 0;
    while k < n + 1
        invariant
            n < usize::MAX,
            k <= n + 1,
            counts@.len() == k,
            forall|j: int| 0 <= j < k ==> (#[trigger] counts@[j]) == 0,
        decreases n + 1 - k,
    {
        counts.push(0);
        k = k + 1;
    }
    let mut i: usize = 0;
    proof {
        assert(gpairs.take(0) =~= Seq::empty());
    }
    while i < np
        invariant
            np == gpairs.len(),
            pairs_vec@ == gpairs,
            n < usize::MAX,
            n <= u32::MAX,
            i <= np,
            counts@.len() == n + 1,
            counts@[0] == 0,
            forall|i2: int|
                0 <= i2 < gpairs.len() ==> ((#[trigger] gpairs[i2]).0 as int) < n && ((
                gpairs[i2]).1 as int) < n,
            forall|j: int|
                1 <= j <= n ==> (#[trigger] counts@[j]) == src_count(
                    gpairs.take(i as int),
                    (j - 1) as u32,
                ),
        decreases np - i,
    {
        let (s, _d) = pairs_vec[i];
        proof {
            lemma_dsts_len_le(gpairs.take(i as int), s);
        }
        let c = counts[s as usize + 1];
        counts[s as usize + 1] = c + 1;
        proof {
            assert(gpairs.take(i + 1).drop_last() =~= gpairs.take(i as int));
            assert(gpairs.take(i + 1).last() == gpairs[i as int]);
            assert forall|j: int| 1 <= j <= n implies (#[trigger] counts@[j]) == src_count(
                gpairs.take(i + 1),
                (j - 1) as u32,
            ) by {
                let v = (j - 1) as u32;
                if gpairs[i as int].0 == v {
                    assert(dsts(gpairs.take(i + 1), v) =~= dsts(gpairs.take(i as int), v)
                        + seq![gpairs[i as int].1]);
                    assert(j == s as int + 1);
                } else {
                    assert(dsts(gpairs.take(i + 1), v) =~= dsts(gpairs.take(i as int), v));
                    assert(j != s as int + 1);
                }
            }
        }
        i = i + 1;
    }
    proof {
        assert(gpairs.take(np as int) =~= gpairs);
    }
    // Exclusive prefix sum: the counts become the offsets.
    let mut offsets: Vec<usize> = Vec::new();
    let mut cumsum: usize = 0;
    let mut k: usize = 0;
    proof {
        lemma_counts_sum_total(gpairs, n as int);
    }
    while k < n + 1
        invariant
            np == gpairs.len(),
            k <= n + 1,
            counts@.len() == n + 1,
            counts@[0] == 0,
            n < usize::MAX,
            n <= u32::MAX,
            forall|j: int|
                1 <= j <= n ==> (#[trigger] counts@[j]) == src_count(gpairs, (j - 1) as u32),
            counts_sum(gpairs, n as int) == np,
            offsets@.len() == k,
            forall|j: int| 0 <= j < k ==> (#[trigger] offsets@[j]) == counts_sum(gpairs, j),
            cumsum == counts_sum(gpairs, k as int - 1),
        decreases n + 1 - k,
    {
        proof {
            lemma_counts_sum_mono(gpairs, k as int, n as int);
            lemma_dsts_len_le(gpairs, (k - 1) as u32);
            if k >= 1 {
                assert(counts_sum(gpairs, k as int) == counts_sum(gpairs, k as int - 1)
                    + src_count(gpairs, (k - 1) as u32));
            }
        }
        cumsum = cumsum + counts[k];
        offsets.push(cumsum);
        k = k + 1;
    }
    offsets
}

/// Gather every vertex's destinations into its reserved window, vertex
/// by vertex in file order; windows are laid out back to back, so the
/// result is the flat neighbor array the offsets describe.
#[verifier::spinoff_prover]
fn place_edges(pairs_vec: &Vec<(u32, u32)>, offsets: &Vec<usize>, n: usize) -> (edges: Vec<u32>)
    requires
        n < usize::MAX,
        n <= u32::MAX,
        offsets@.len() == n + 1,
        forall|j: int| 0 <= j <= n ==> (#[trigger] offsets@[j]) == counts_sum(pairs_vec@, j),
        forall|i2: int|
            0 <= i2 < pairs_vec@.len() ==> ((#[trigger] pairs_vec@[i2]).0 as int) < n && ((
            pairs_vec@[i2]).1 as int) < n,
    ensures
        edges@.len() == pairs_vec@.len(),
        forall|u: int|
            0 <= u < n ==> edges@.subrange(
                (#[trigger] offsets@[u]) as int,
                offsets@[u + 1] as int,
            ) == dsts(pairs_vec@, u as u32),
{
    let ghost gpairs = pairs_vec@;
    let np = pairs_vec.len();
    proof {
        lemma_counts_sum_total(gpairs, n as int);
        assert(offsets@[n as int] == np);
        assert(offsets@[0] == 0);
        assert forall|a: int, b: int|
            0 <= a <= b <= n implies (#[trigger] offsets@[a]) <= (#[trigger] offsets@[b]) by {
            lemma_counts_sum_mono(gpairs, a, b);
        }
    }
    let mut edges: Vec<u32> = Vec::new();
    let mut v: usize = 0;
    while v < n
        invariant
            np == gpairs.len(),
            pairs_vec@ == gpairs,
            v <= n,
            offsets@.len() == n + 1,
            offsets@[n as int] == np,
            forall|j: int| 0 <= j <= n ==> (#[trigger] offsets@[j]) == counts_sum(gpairs, j),
            forall|a: int, b: int|
                0 <= a <= b <= n ==> (#[trigger] offsets@[a]) <= (#[trigger] offsets@[b]),
            edges@.len() == offsets@[v as int],
            forall|u: int|
                0 <= u < v ==> edges@.subrange(
                    (#[trigger] offsets@[u]) as int,
                    offsets@[u + 1] as int,
                ) == dsts(gpairs, u as u32),
        decreases n - v,
    {
        let ghost pre = edges@;
        let mut i: usize = 0;
        while i < np
            invariant
                np == gpairs.len(),
                pairs_vec@ == gpairs,
                v < n,
                i <= np,
                edges@ == pre + dsts(gpairs.take(i as int), v as u32),
            decreases np - i,
        {
            let (s, d) = pairs_vec[i];
            proof {
                assert(gpairs.take(i + 1).drop_last() =~= gpairs.take(i as int));
                assert(gpairs.take(i + 1).last() == gpairs[i as int]);
            }
            if s == v as u32 {
                edges.push(d);
                proof {
                    assert(edges@ =~= pre + dsts(gpairs.take(i + 1), v as u32));
                }
            } else {
                proof {
                    assert(dsts(gpairs.take(i + 1), v as u32) =~= dsts(
                        gpairs.take(i as int),
                        v as u32,
                    ));
                }
            }
            i = i + 1;
        }
        proof {
            assert(gpairs.take(np as int) =~= gpairs);
            assert(edges@ == pre + dsts(gpairs, v as u32));
            assert(counts_sum(gpairs, v as int + 1) == counts_sum(gpairs, v as int) + src_count(
                gpairs,
                v as u32,
            ));
            assert(edges@.len() == offsets@[v as int + 1]);
            assert forall|u: int| 0 <= u < v + 1 implies edges@.subrange(
                (#[trigger] offsets@[u]) as int,
                offsets@[u + 1] as int,
            ) == dsts(gpairs, u as u32) by {
                if u < v as int {
                    assert(offsets@[u + 1] <= offsets@[v as int]);
                    assert(edges@.subrange(offsets@[u] as int, offsets@[u + 1] as int)
                        =~= pre.subrange(offsets@[u] as int, offsets@[u + 1] as int));
                } else {
                    assert(edges@.subrange(offsets@[u] as int, offsets@[u + 1] as int) =~= dsts(
                        gpairs,
                        u as u32,
                    ));
                }
            }
        }
        v = v + 1;
    }
    edges
}

/// Sort every vertex's window independently, in place; windows do not
/// overlap, so each keeps exactly its own contents.
#[verifier::spinoff_prover]
fn sort_windows(
    edges: &mut Vec<u32>,
    offsets: &Vec<usize>,
    n: usize,
    Ghost(gpairs): Ghost<Seq<(u32, u32)>>,
)
    requires
        offsets@.len() == n + 1,
        offsets@[0] == 0,
        offsets@[n as int] == old(edges)@.len(),
        forall|a: int, b: int|
            0 <= a <= b <= n ==> (#[trigger] offsets@[a]) <= (#[trigger] offsets@[b]),
        forall|u: int|
            0 <= u < n ==> old(edges)@.subrange(
                (#[trigger] offsets@[u]) as int,
                offsets@[u + 1] as int,
            ) == dsts(gpairs, u as u32),
    ensures
        final(edges)@.len() == old(edges)@.len(),
        forall|u: int, a: int, b: int|
            0 <= u < n && (#[trigger] offsets@[u]) as int <= a < b < offsets@[u + 1] as int
                ==> (#[trigger] final(edges)@[a]) <= (#[trigger] final(edges)@[b]),
        forall|u: int, x: u32|
            0 <= u < n ==> #[trigger] occ(
                final(edges)@.subrange((#[trigger] offsets@[u]) as int, offsets@[u + 1] as int),
                x,
            ) == occ(dsts(gpairs, u as u32), x),
{
    let ghost np = old(edges)@.len();
    let mut v: usize = 0;
    while v < n
        invariant
            edges@.len() == np,
            offsets@.len() == n + 1,
            offsets@[0] == 0,
            offsets@[n as int] == np,
            v <= n,
            forall|a: int, b: int|
                0 <= a <= b <= n ==> (#[trigger] offsets@[a]) <= (#[trigger] offsets@[b]),
            forall|u: int|
                v <= u < n ==> edges@.subrange(
                    (#[trigger] offsets@[u]) as int,
                    offsets@[u + 1] as int,
                ) == dsts(gpairs, u as u32),
            forall|u: int, a: int, b: int|
                0 <= u < v && (#[trigger] offsets@[u]) as int <= a < b < offsets@[u + 1] as int
                    ==> (#[trigger] edges@[a]) <= (#[trigger] edges@[b]),
            forall|u: int, x: u32|
                0 <= u < v ==> #[trigger] occ(
                    edges@.subrange((#[trigger] offsets@[u]) as int, offsets@[u + 1] as int),
                    x,
                ) == occ(dsts(gpairs, u as u32), x),
        decreases n - v,
    {
        let lo = offsets[v];
        let hi = offsets[v + 1];
        let ghost pre = edges@;
        sort_range(edges, lo, hi);
        proof {
            assert forall|u: int|
                v + 1 <= u < n implies edges@.subrange(
                (#[trigger] offsets@[u]) as int,
                offsets@[u + 1] as int,
            ) == dsts(gpairs, u as u32) by {
                assert(hi <= offsets@[u]);
                assert(edges@.subrange(offsets@[u] as int, offsets@[u + 1] as int) =~= pre.subrange(
                    offsets@[u] as int,
                    offsets@[u + 1] as int,
                ));
            }
            assert forall|u: int, x: u32| 0 <= u < v + 1 implies #[trigger] occ(
                edges@.subrange((#[trigger] offsets@[u]) as int, offsets@[u + 1] as int),
                x,
            ) == occ(dsts(gpairs, u as u32), x) by {
                if u < v {
                    assert(offsets@[u + 1] <= lo);
                    assert(edges@.subrange(offsets@[u] as int, offsets@[u + 1] as int)
                        =~= pre.subrange(offsets@[u] as int, offsets@[u + 1] as int));
                } else {
                    assert(pre.subrange(lo as int, hi as int) == dsts(gpairs, u as u32));
                }
            }
            assert forall|u: int, a: int, b: int|
                0 <= u < v + 1 && (#[trigger] offsets@[u]) as int <= a < b < offsets@[u
                + 1] as int implies (#[trigger] edges@[a]) <= (#[trigger] edges@[b]) by {
                if u < v {
                    assert(offsets@[u + 1] <= lo);
                    assert(edges@[a] == pre[a] && edges@[b] == pre[b]);
                }
            }
        }
        v = v + 1;
    }
}

/// Check every sorted window for duplicates, self-loops, and strictness;
/// a failure names input whose adjacency is not simple.
#[verifier::spinoff_prover]
fn check_windows(
    edges: &Vec<u32>,
    offsets: &Vec<usize>,
    n: usize,
    Ghost(gpairs): Ghost<Seq<(u32, u32)>>,
) -> (ok: bool)
    requires
        offsets@.len() == n + 1,
        offsets@[0] == 0,
        offsets@[n as int] == edges@.len(),
        forall|a: int, b: int|
            0 <= a <= b <= n ==> (#[trigger] offsets@[a]) <= (#[trigger] offsets@[b]),
        forall|u: int, a: int, b: int|
            0 <= u < n && (#[trigger] offsets@[u]) as int <= a < b < offsets@[u + 1] as int
                ==> (#[trigger] edges@[a]) <= (#[trigger] edges@[b]),
        forall|u: int, x: u32|
            0 <= u < n ==> #[trigger] occ(
                edges@.subrange((#[trigger] offsets@[u]) as int, offsets@[u + 1] as int),
                x,
            ) == occ(dsts(gpairs, u as u32), x),
    ensures
        ok ==> forall|u: int, t: int|
            0 <= u < n && (#[trigger] offsets@[u]) as int <= t < offsets@[u + 1] as int ==> (
            #[trigger] edges@[t]) != u,
        ok ==> forall|u: int, t1: int, t2: int|
            0 <= u < n && (#[trigger] offsets@[u]) as int <= t1 < t2 < offsets@[u + 1] as int
                ==> (#[trigger] edges@[t1]) < (#[trigger] edges@[t2]),
        !ok ==> !pairs_simple(gpairs),
{
    let mut v: usize = 0;
    while v < n
        invariant
            offsets@.len() == n + 1,
            offsets@[0] == 0,
            offsets@[n as int] == edges@.len(),
            v <= n,
            forall|a: int, b: int|
                0 <= a <= b <= n ==> (#[trigger] offsets@[a]) <= (#[trigger] offsets@[b]),
            forall|u: int, a: int, b: int|
                0 <= u < n && (#[trigger] offsets@[u]) as int <= a < b < offsets@[u + 1] as int
                    ==> (#[trigger] edges@[a]) <= (#[trigger] edges@[b]),
            forall|u: int, x: u32|
                0 <= u < n ==> #[trigger] occ(
                    edges@.subrange((#[trigger] offsets@[u]) as int, offsets@[u + 1] as int),
                    x,
                ) == occ(dsts(gpairs, u as u32), x),
            forall|u: int, t: int|
                0 <= u < v && (#[trigger] offsets@[u]) as int <= t < offsets@[u + 1] as int ==> (
                #[trigger] edges@[t]) != u,
            forall|u: int, t1: int, t2: int|
                0 <= u < v && (#[trigger] offsets@[u]) as int <= t1 < t2 < offsets@[u
                + 1] as int ==> (#[trigger] edges@[t1]) < (#[trigger] edges@[t2]),
        decreases n - v,
    {
        let lo = offsets[v];
        let hi = offsets[v + 1];
        let mut t: usize = lo;
        while t < hi
            invariant
                offsets@.len() == n + 1,
                v < n,
                lo == offsets@[v as int],
                hi == offsets@[v as int + 1],
                lo <= t <= hi,
                hi <= edges@.len(),
                forall|a: int, b: int|
                    0 <= a <= b <= n ==> (#[trigger] offsets@[a]) <= (#[trigger] offsets@[b]),
                forall|u: int, a: int, b: int|
                    0 <= u < n && (#[trigger] offsets@[u]) as int <= a < b < offsets@[u
                    + 1] as int ==> (#[trigger] edges@[a]) <= (#[trigger] edges@[b]),
                forall|u: int, x: u32|
                    0 <= u < n ==> #[trigger] occ(
                        edges@.subrange(
                            (#[trigger] offsets@[u]) as int,
                            offsets@[u + 1] as int,
                        ),
                        x,
                    ) == occ(dsts(gpairs, u as u32), x),
                forall|t2: int| lo <= t2 < t ==> (#[trigger] edges@[t2]) != v,
                forall|t1: int, t2: int|
                    lo <= t1 < t2 < t ==> (#[trigger] edges@[t1]) < (#[trigger] edges@[t2]),
            decreases hi - t,
        {
            let e = edges[t];
            if e == v as u32 {
                proof {
                    let w = edges@.subrange(lo as int, hi as int);
                    assert(w[t - lo] == v as u32);
                    lemma_occ_index(w, t - lo);
                    assert(occ(dsts(gpairs, v as u32), v as u32) >= 1);
                    lemma_dsts_occ(gpairs, v as u32, v as u32);
                    assert(!pairs_simple(gpairs));
                }
                return false;
            }
            if t > lo && edges[t - 1] >= e {
                proof {
                    let w = edges@.subrange(lo as int, hi as int);
                    assert(w[t - 1 - lo] == edges@[t - 1] && w[t - lo] == e);
                    assert(edges@[t - 1] <= edges@[t as int]);
                    assert(edges@[t - 1] == e);
                    assert(w[t - 1 - lo] == w[t - lo]);
                    lemma_occ_two(w, t - 1 - lo, t - lo);
                    assert(occ(dsts(gpairs, v as u32), e) >= 2);
                    lemma_dsts_occ(gpairs, v as u32, e);
                    assert(!pairs_simple(gpairs));
                }
                return false;
            }
            proof {
                assert forall|t1: int, t2: int| lo <= t1 < t2 < t + 1 implies (
                #[trigger] edges@[t1]) < (#[trigger] edges@[t2]) by {
                    if t2 == t {
                        assert(edges@[t1] <= edges@[t - 1]);
                        assert(edges@[t - 1] < edges@[t as int]);
                    }
                }
            }
            t = t + 1;
        }
        v = v + 1;
    }
    true
}

/// Read in-memory text shards into a graph.
///
/// The vertex count is one more than the largest id mentioned anywhere.
/// Degrees are counted first; an exclusive prefix sum turns them into
/// offsets; each directed edge is then gathered into its vertex's
/// reserved window, and every window is sorted. For every vertex the
/// resulting window holds exactly the neighbors the input implies, in
/// increasing order.
///
/// Errors: a malformed line, an id too large for the address space, and
/// input whose adjacency is not simple (a duplicate edge, counting both
/// listed directions, or a self-loop), each exactly on the inputs it
/// names.
#[verifier::spinoff_prover]
#[verifier::rlimit(100)]
pub fn read(shards: &Vec<Vec<u8>>, delim: u8) -> (r: Result<Graph, GraphReadError>)
    ensures
        ({
            let views = shard_views(shards@);
            let p = shards_pairs(views, delim);
            let m = shards_max(views, delim);
            match r {
                Ok(g) => {
                    &&& shards_ok(views, delim)
                    &&& m < u32::MAX
                    &&& m + 2 <= usize::MAX
                    &&& g.wf()
                    &&& g.nv() == m + 1
                    &&& forall|v: u32, x: u32|
                        (v as int) < g.nv() ==> #[trigger] occ(g.nbrs(v as int), x) == occ(
                            dsts(p, v),
                            x,
                        )
                },
                Err(GraphReadError::MalformedLine) => !shards_ok(views, delim),
                Err(GraphReadError::TooManyVertices) => shards_ok(views, delim) && (m
                    >= u32::MAX || m + 2 > usize::MAX),
                Err(GraphReadError::NotSimple) => shards_ok(views, delim) && m < u32::MAX && m
                    + 2 <= usize::MAX && !pairs_simple(p),
            }
        }),
{
    let ghost views = shard_views(shards@);
    let (pairs_vec, maxid) = match collect_pairs(shards, delim) {
        Some(pm) => pm,
        None => {
            return Err(GraphReadError::MalformedLine);
        },
    };
    if maxid == u32::MAX || (maxid as u64) + 2 > (usize::MAX as u64) {
        return Err(GraphReadError::TooManyVertices);
    }
    let n: usize = (maxid as usize) + 1;
    let ghost gpairs = pairs_vec@;
    proof {
        lemma_shards_pairs_bound(views, delim);
        assert forall|i: int| 0 <= i < gpairs.len() implies ((#[trigger] gpairs[i]).0 as int) < n
            && ((gpairs[i]).1 as int) < n by {
            assert(gpairs[i].0 <= shards_max(views, delim));
        }
    }
    let offsets = build_offsets(&pairs_vec, n);
    proof {
        lemma_counts_sum_total(gpairs, n as int);
        assert forall|a: int, b: int|
            0 <= a <= b <= n implies (#[trigger] offsets@[a]) <= (#[trigger] offsets@[b]) by {
            lemma_counts_sum_mono(gpairs, a, b);
        }
    }
    let mut edges = place_edges(&pairs_vec, &offsets, n);
    sort_windows(&mut edges, &offsets, n, Ghost(gpairs));
    if !check_windows(&edges, &offsets, n, Ghost(gpairs)) {
        return Err(GraphReadError::NotSimple);
    }
    // The remaining structural clauses always hold of the built arrays:
    // every slot is in range, and the reverse of every edge is stored.
    // The symmetry scan revalidates the latter; its failure would
    // contradict the pair list carrying both directions of every edge.
    proof {
        lemma_entries_in_range(offsets@, edges@, gpairs, n as int);
    }
    if !check_symmetry(&edges, &offsets, n, Ghost(gpairs), Ghost(views), Ghost(delim)) {
        return Err(GraphReadError::NotSimple);
    }
    let ghost offs = offsets@;
    let ghost edgs = edges@;
    let g = assemble_graph(offsets, edges, n);
    proof {
        assert forall|v2: u32, x: u32| (v2 as int) < g.nv() implies #[trigger] occ(
            g.nbrs(v2 as int),
            x,
        ) == occ(dsts(shards_pairs(views, delim), v2), x) by {
            assert(g.nbrs(v2 as int) == csr_window(offs, edgs, v2 as int));
            assert(csr_window(offs, edgs, v2 as int) == edgs.subrange(
                offs[v2 as int] as int,
                offs[v2 as int + 1] as int,
            ));
        }
    }
    Ok(g)
}

} // verus!
