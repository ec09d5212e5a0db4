//! A uniform sampler over arbitrary subsets of `0..n` which allows:
//!
//!  - constant-time removal from the domain
//!  - constant-time sampling
//!  - a reset whose cost is proportional to the number removed

use vstd::prelude::*;

use crate::rng::rand_below;

verus! {

/// Tracks an "alive" subset of the domain `0..n` and the "dead" rest.
pub struct DiscreteSampler {
    alive_set: Vec<u32>,
    dead_set: Vec<u32>,
    index: Vec<u32>,
    alive: Vec<bool>,
}

impl DiscreteSampler {
    /// The size `n` of the domain `0..n`.
    pub closed spec fn domain(self) -> int {
        self.alive@.len() as int
    }

    /// Whether `i` is still alive.
    pub closed spec fn is_alive(self, i: int) -> bool {
        self.alive@[i]
    }

    /// The number of alive elements.
    pub closed spec fn nalive_spec(self) -> int {
        self.alive_set@.len() as int
    }

    /// The number of elements removed since the last reset.
    pub closed spec fn ndead_spec(self) -> int {
        self.dead_set@.len() as int
    }

    /// Structural invariant: `alive_set` and `dead_set` partition the
    /// domain according to the `alive` flags, and `index` locates each
    /// alive element inside `alive_set`.
    pub closed spec fn wf(self) -> bool {
        let n = self.alive@.len() as int;
        &&& n <= u32::MAX
        &&& self.index@.len() == n
        &&& self.alive_set@.len() + self.dead_set@.len() == n
        &&& self.dead_set@.no_duplicates()
        &&& forall|k: int|
            0 <= k < self.alive_set@.len() ==> (#[trigger] self.alive_set@[k]) < n
                && self.alive@[self.alive_set@[k] as int]
                && self.index@[self.alive_set@[k] as int] == k
        &&& forall|k: int|
            0 <= k < self.dead_set@.len() ==> (#[trigger] self.dead_set@[k]) < n
                && !self.alive@[self.dead_set@[k] as int]
        &&& forall|i: int|
            0 <= i < n && self.alive@[i] ==> {
                &&& (#[trigger] self.index@[i]) < self.alive_set@.len()
                &&& self.alive_set@[self.index@[i] as int] == i
            }
        &&& forall|i: int|
            0 <= i < n && !(#[trigger] self.alive@[i]) ==> self.dead_set@.contains(i as u32)
    }

    /// Initializes a sampler with the entire domain `0..n` alive.
    pub fn new(n: u32) -> (r: DiscreteSampler)
        ensures
            r.wf(),
            r.domain() == n,
            r.nalive_spec() == n,
            forall|i: int| 0 <= i < n ==> r.is_alive(i),
    {
        let mut alive_set: Vec<u32> = Vec::new();
        let mut index: Vec<u32> = Vec::new();
        let mut alive: Vec<bool> = Vec::new();
        let mut i: u32 = 0;
        while i < n
            invariant
                i <= n,
                alive_set@.len() == i,
                index@.len() == i,
                alive@.len() == i,
                forall|k: int| 0 <= k < i ==> alive_set@[k] == k,
                forall|k: int| 0 <= k < i ==> index@[k] == k,
                forall|k: int| 0 <= k < i ==> alive@[k],
            decreases n - i,
        {
            alive_set.push(i);
            index.push(i);
            alive.push(true);
            i = i + 1;
        }
        DiscreteSampler { alive_set, dead_set: Vec::new(), index, alive }
    }

    /// Remove `i` from the alive set; a no-op if `i` is already dead.
    pub fn remove(&mut self, i: u32)
        requires
            old(self).wf(),
            i < old(self).domain(),
        ensures
            final(self).wf(),
            final(self).domain() == old(self).domain(),
            !final(self).is_alive(i as int),
            forall|j: int|
                0 <= j < old(self).domain() && j != i ==> final(self).is_alive(j) == old(
                    self,
                ).is_alive(j),
            old(self).is_alive(i as int) ==> final(self).nalive_spec() == old(self).nalive_spec()
                - 1 && final(self).ndead_spec() == old(self).ndead_spec() + 1,
            !old(self).is_alive(i as int) ==> *final(self) == *old(self),
    {
        if !self.alive[i as usize] {
            return ;
        }
        proof {
            assert(old(self).index@[i as int] < old(self).alive_set@.len());
        }
        let ix = self.index[i as usize];
        let end = self.alive_set.len() - 1;
        proof {
            assert(old(self).alive_set@[end as int] < old(self).domain());
        }
        let last = self.alive_set[end];
        self.index[last as usize] = ix;
        let ii = self.alive_set.swap_remove(ix as usize);
        self.index[i as usize] = u32::MAX;
        self.dead_set.push(i);
        self.alive[i as usize] = false;
        proof {
            let pre = *old(self);
            let n = pre.domain();
            assert(pre.alive_set@[ix as int] == i);
            assert(ii == i);
            // Elements of the shrunk alive set are alive, with correct index.
            assert forall|k: int| 0 <= k < self.alive_set@.len() implies (
            #[trigger] self.alive_set@[k]) < n && self.alive@[self.alive_set@[k] as int]
                && self.index@[self.alive_set@[k] as int] == k by {
                let e = if k == ix as int {
                    pre.alive_set@[end as int]
                } else {
                    pre.alive_set@[k]
                };
                assert(self.alive_set@[k] == e);
                assert(pre.alive@[e as int]);
                assert(e != i) by {
                    if k == ix as int {
                        assert(pre.index@[e as int] == end);
                    } else {
                        assert(pre.index@[e as int] == k);
                    }
                    assert(pre.index@[i as int] == ix);
                }
            }
            // Alive elements are still indexed into the alive set.
            assert forall|j: int| 0 <= j < n && self.alive@[j] implies (
            #[trigger] self.index@[j]) < self.alive_set@.len() && self.alive_set@[self.index@[
                j
            ] as int] == j by {
                assert(pre.alive@[j] && j != i);
                if j == last as int && ix as int != end {
                    assert(self.index@[j] == ix);
                    assert(self.alive_set@[ix as int] == pre.alive_set@[end as int]);
                } else {
                    assert(pre.index@[j] == self.index@[j]);
                    assert(pre.index@[j] != end || j == last as int);
                }
            }
            // The grown dead set holds dead elements, without duplicates.
            assert(self.dead_set@ == pre.dead_set@.push(i));
            assert forall|k: int| 0 <= k < self.dead_set@.len() implies (
            #[trigger] self.dead_set@[k]) < n && !self.alive@[self.dead_set@[k] as int] by {
                if k < pre.dead_set@.len() {
                    assert(self.dead_set@[k] == pre.dead_set@[k]);
                }
            }
            assert(self.dead_set@.no_duplicates()) by {
                assert forall|k1: int, k2: int|
                    0 <= k1 < self.dead_set@.len() && 0 <= k2 < self.dead_set@.len() && k1
                        != k2 implies self.dead_set@[k1] != self.dead_set@[k2] by {
                    if k2 == pre.dead_set@.len() {
                        assert(!pre.alive@[pre.dead_set@[k1] as int]);
                    } else if k1 == pre.dead_set@.len() {
                        assert(!pre.alive@[pre.dead_set@[k2] as int]);
                    }
                }
            }
            // Every dead element is recorded in the dead set.
            assert forall|j: int|
                0 <= j < n && !(#[trigger] self.alive@[j]) implies self.dead_set@.contains(
                j as u32,
            ) by {
                if j == i {
                    assert(self.dead_set@[pre.dead_set@.len() as int] == i);
                } else {
                    assert(pre.dead_set@.contains(j as u32));
                    let m = choose|m: int|
                        0 <= m < pre.dead_set@.len() && pre.dead_set@[m] == j as u32;
                    assert(self.dead_set@[m] == j as u32);
                }
            }
        }
    }

    /// Revert to the original domain, re-inserting everything removed since
    /// the last reset.
    pub fn reset(&mut self)
        requires
            old(self).wf(),
        ensures
            final(self).wf(),
            final(self).domain() == old(self).domain(),
            final(self).nalive_spec() == final(self).domain(),
            final(self).ndead_spec() == 0,
            forall|i: int| 0 <= i < final(self).domain() ==> final(self).is_alive(i),
    {
        while self.dead_set.len() > 0
            invariant
                self.wf(),
                self.domain() == old(self).domain(),
            decreases self.dead_set@.len(),
        {
            let ghost pre = *self;
            let i = self.dead_set.pop().unwrap();
            let end = self.alive_set.len();
            proof {
                assert(pre.dead_set@[pre.dead_set@.len() - 1] == i);
                assert(i < pre.domain());
                assert(end < pre.domain() + 1);
            }
            self.index[i as usize] = end as u32;
            self.alive_set.push(i);
            self.alive[i as usize] = true;
            proof {
                let n = pre.domain();
                assert(self.alive_set@ == pre.alive_set@.push(i));
                assert(self.dead_set@ == pre.dead_set@.drop_last());
                // Alive-set entries are alive and correctly indexed.
                assert forall|k: int| 0 <= k < self.alive_set@.len() implies (
                #[trigger] self.alive_set@[k]) < n && self.alive@[self.alive_set@[k] as int]
                    && self.index@[self.alive_set@[k] as int] == k by {
                    if k < pre.alive_set@.len() {
                        let e = pre.alive_set@[k];
                        assert(self.alive_set@[k] == e);
                        assert(pre.alive@[e as int]);
                        assert(e != i);
                    } else {
                        assert(self.alive_set@[k] == i);
                    }
                }
                // Remaining dead entries are still dead.
                assert forall|k: int| 0 <= k < self.dead_set@.len() implies (
                #[trigger] self.dead_set@[k]) < n && !self.alive@[self.dead_set@[k] as int] by {
                    assert(self.dead_set@[k] == pre.dead_set@[k]);
                    assert(pre.dead_set@[k] != i);
                }
                // Alive elements are indexed into the grown alive set.
                assert forall|j: int| 0 <= j < n && self.alive@[j] implies (
                #[trigger] self.index@[j]) < self.alive_set@.len() && self.alive_set@[self.index@[
                    j
                ] as int] == j by {
                    if j != i {
                        assert(pre.alive@[j]);
                        assert(self.index@[j] == pre.index@[j]);
                        assert(self.alive_set@[pre.index@[j] as int] == pre.alive_set@[pre.index@[
                            j
                        ] as int]);
                    }
                }
                // Every dead element is still recorded in the dead set.
                assert forall|j: int|
                    0 <= j < n && !(#[trigger] self.alive@[j]) implies self.dead_set@.contains(
                    j as u32,
                ) by {
                    assert(pre.dead_set@.contains(j as u32));
                    let m = choose|m: int|
                        0 <= m < pre.dead_set@.len() && pre.dead_set@[m] == j as u32;
                    assert(m != pre.dead_set@.len() - 1);
                    assert(self.dead_set@[m] == j as u32);
                }
            }
        }
        proof {
            assert forall|i: int| 0 <= i < self.domain() implies self.is_alive(i) by {
                if !self.alive@[i] {
                    assert(self.dead_set@.contains(i as u32));
                }
            }
        }
    }

    /// Sample uniformly from the alive subset.
    pub fn sample(&self, rng: &mut rand_pcg::Lcg64Xsh32) -> (r: u32)
        requires
            self.wf(),
            self.nalive_spec() > 0,
        ensures
            r < self.domain(),
            self.is_alive(r as int),
    {
        let k = rand_below(rng, self.alive_set.len());
        self.alive_set[k]
    }

    /// The current number of alive elements.
    pub fn nalive(&self) -> (r: usize)
        ensures
            r == self.nalive_spec(),
    {
        self.alive_set.len()
    }
}

/// A domain element that is alive witnesses a nonempty alive set.
pub proof fn lemma_alive_nonzero(s: DiscreteSampler, i: int)
    requires
        s.wf(),
        0 <= i < s.domain(),
        s.is_alive(i),
    ensures
        s.nalive_spec() > 0,
{
    assert(s.index@[i] < s.alive_set@.len());
}

/// For any sequence of `remove` and `reset` calls, the number of alive
/// elements plus the number removed since the last reset equals the domain
/// size.
pub proof fn lemma_alive_dead_partition(s: DiscreteSampler)
    requires
        s.wf(),
    ensures
        s.nalive_spec() + s.ndead_spec() == s.domain(),
{
}

} // verus!
