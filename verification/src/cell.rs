//! A read/write lockable `u32`, packed into a single `u64` word.
//!
//! The word is split up as follows:
//!
//! `|--- payload (32 bits) ---|W|--- read count (31 bits) ---|`
//!
//! That is, the higher 32 bits host the actual `u32` value, the 32nd bit is
//! the write-lock bit, and the lower 31 bits are the read count. Locking
//! never blocks: each acquisition either succeeds or fails immediately.

use vstd::prelude::*;

verus! {

pub const WRITE_BIT_MASK: u64 = 0x8000_0000u64;

pub const READ_SEM_MASK: u64 = 0x7fff_ffffu64;

/// A read/write lockable `u32`. Only supports try-locking.
pub struct Rwu32 {
    word: u64,
}

impl Rwu32 {
    /// The `u32` value packed into the high half of the word.
    pub closed spec fn payload(self) -> u32 {
        (self.word >> 32) as u32
    }

    /// Whether the write-lock bit is set.
    pub closed spec fn wlocked(self) -> bool {
        self.word & WRITE_BIT_MASK != 0
    }

    /// The number of outstanding read locks.
    pub closed spec fn nreaders(self) -> u64 {
        self.word & READ_SEM_MASK
    }

    /// No writer holds the cell and no readers are counted.
    pub open spec fn unlocked(self) -> bool {
        !self.wlocked() && self.nreaders() == 0
    }

    /// Initialize an `Rwu32` with an initial `u32` value.
    pub fn new(init: u32) -> (r: Rwu32)
        ensures
            r.payload() == init,
            r.unlocked(),
    {
        let inner = to_payload(init);
        let r = Rwu32 { word: inner };
        proof {
            lemma_payload_word(init);
        }
        r
    }

    /// Attempt to acquire the write lock.
    ///
    /// Succeeds exactly when no writer and no reader holds the cell; on
    /// failure the cell is left as it was. The returned guard buffers the
    /// value observed at acquisition time.
    pub fn try_write_lock(&mut self) -> (r: Option<WriteGuard>)
        ensures
            r is Some <==> old(self).unlocked(),
            r is None ==> *final(self) == *old(self),
            r is Some ==> {
                &&& final(self).wlocked()
                &&& final(self).nreaders() == 0
                &&& final(self).payload() == old(self).payload()
                &&& r->Some_0.previous() == old(self).payload()
                &&& r->Some_0.current() == old(self).payload()
            },
    {
        // fetch_or of the write bit: record the prior word, then set the bit.
        let prev = self.word;
        self.word = self.word | WRITE_BIT_MASK;
        proof {
            lemma_or_write_bit(prev);
        }
        match State::from(prev) {
            State::RunlockedWlocked | State::RlockedWlocked => {
                // A writer already owns this, so setting the bit was a no-op.
                // The other writer will unlock the write bit later.
                None
            },
            State::RlockedWunlocked => {
                // We just locked this but have no right to modify due to the
                // read locks. Remove the write bit again.
                self.word = self.word & !WRITE_BIT_MASK;
                proof {
                    lemma_undo_write_bit(prev);
                }
                None
            },
            State::RunlockedWunlocked => {
                // Was unlocked, now locked by us.
                Some(WriteGuard::from(from_payload(prev)))
            },
        }
    }

    /// Attempt to acquire a read lock and simultaneously read the current
    /// value. As long as the read lock is held the value cannot change,
    /// because no writer is admitted while the read count is nonzero.
    ///
    /// Succeeds exactly when no writer holds the cell; on failure the cell
    /// is left as it was.
    pub fn try_read_lock(&mut self) -> (r: Option<(u32, ReadGuard)>)
        requires
            old(self).nreaders() < READ_SEM_MASK,
        ensures
            r is Some <==> !old(self).wlocked(),
            r is None ==> *final(self) == *old(self),
            r is Some ==> {
                &&& !final(self).wlocked()
                &&& final(self).nreaders() == old(self).nreaders() + 1
                &&& final(self).payload() == old(self).payload()
                &&& r->Some_0.0 == old(self).payload()
            },
    {
        // fetch_add of one reader: record the prior word, then count up.
        let prev = self.word;
        proof {
            lemma_add_reader(prev);
        }
        self.word = self.word + 1;
        match State::from(prev) {
            State::RunlockedWlocked | State::RlockedWlocked => {
                // A writer already owns this, so we should undo our count-up
                // and not look at the value.
                self.word = self.word - 1;
                None
            },
            State::RlockedWunlocked | State::RunlockedWunlocked => {
                // We successfully bumped up the count and have thus acquired
                // a read lock.
                Some((from_payload(prev), ReadGuard {}))
            },
        }
    }

    /// Release a write guard, publishing the value buffered in it.
    ///
    /// The payload delta and the write bit are folded into a single update
    /// of the word, exploiting the flag's position directly below the
    /// payload bits.
    pub fn write_unlock(&mut self, guard: WriteGuard)
        requires
            old(self).wlocked(),
            old(self).payload() == guard.previous(),
        ensures
            !final(self).wlocked(),
            final(self).nreaders() == old(self).nreaders(),
            final(self).payload() == guard.current(),
    {
        proof {
            lemma_write_unlock(self.word, guard.previous(), guard.current());
        }
        if guard.cur > guard.prev {
            // A single add which is 1 << 31 below updating the value
            // correctly, to be cancelled out by the write bit.
            let mut diff = to_payload(guard.cur - guard.prev);
            diff = diff - WRITE_BIT_MASK;
            self.word = self.word + diff;
        } else {
            // Similarly, delete the extra write lock bit.
            let mut diff = to_payload(guard.prev - guard.cur);
            diff = diff + WRITE_BIT_MASK;
            self.word = self.word - diff;
        }
    }

    /// Release a read guard, counting one reader down.
    pub fn read_unlock(&mut self, guard: ReadGuard)
        requires
            old(self).nreaders() > 0,
        ensures
            final(self).wlocked() == old(self).wlocked(),
            final(self).nreaders() == old(self).nreaders() - 1,
            final(self).payload() == old(self).payload(),
    {
        proof {
            lemma_sub_reader(self.word);
        }
        let _ = guard;
        self.word = self.word - 1;
    }

    /// Extracts the value; the cell must be unlocked for both read and write.
    pub fn into_inner(self) -> (r: u32)
        requires
            self.unlocked(),
        ensures
            r == self.payload(),
    {
        let prev = self.word;
        match State::from(prev) {
            State::RunlockedWlocked | State::RlockedWlocked | State::RlockedWunlocked => {
                // Unreachable: the cell is unlocked by precondition.
                proof {
                    assert(false);
                }
                from_payload(prev)
            },
            State::RunlockedWunlocked => from_payload(prev),
        }
    }
}

fn to_payload(v: u32) -> (r: u64)
    ensures
        r == (v as u64) << 32,
{
    let r: u64 = (v as u64) << 32;
    r
}

fn from_payload(v: u64) -> (r: u32)
    ensures
        r == (v >> 32) as u32,
{
    (v >> 32) as u32
}

enum State {
    RlockedWlocked,
    RunlockedWlocked,
    RlockedWunlocked,
    RunlockedWunlocked,
}

impl State {
    fn from(inner: u64) -> (r: State)
        ensures
            r is RlockedWlocked <==> (inner & READ_SEM_MASK > 0 && inner & WRITE_BIT_MASK > 0),
            r is RunlockedWlocked <==> (inner & READ_SEM_MASK == 0 && inner & WRITE_BIT_MASK > 0),
            r is RlockedWunlocked <==> (inner & READ_SEM_MASK > 0 && inner & WRITE_BIT_MASK == 0),
            r is RunlockedWunlocked <==> (inner & READ_SEM_MASK == 0 && inner & WRITE_BIT_MASK == 0),
    {
        match (inner & READ_SEM_MASK > 0, inner & WRITE_BIT_MASK > 0) {
            (true, true) => State::RlockedWlocked,
            (false, true) => State::RunlockedWlocked,
            (true, false) => State::RlockedWunlocked,
            (false, false) => State::RunlockedWunlocked,
        }
    }
}

/// Exclusive access to an [`Rwu32`], buffering a new value until release.
pub struct WriteGuard {
    prev: u32,
    cur: u32,
}

impl WriteGuard {
    /// The payload observed when the guard was acquired.
    pub closed spec fn previous(self) -> u32 {
        self.prev
    }

    /// The value the guard will publish on release.
    pub closed spec fn current(self) -> u32 {
        self.cur
    }

    fn from(value: u32) -> (r: WriteGuard)
        ensures
            r.previous() == value,
            r.current() == value,
    {
        WriteGuard { prev: value, cur: value }
    }

    /// Buffer `v` to be published when the guard is released.
    pub fn write(&mut self, v: u32)
        ensures
            final(self).current() == v,
            final(self).previous() == old(self).previous(),
    {
        self.cur = v
    }
}

/// Shared access to an [`Rwu32`]; while outstanding, the value is stable.
pub struct ReadGuard {}

proof fn lemma_payload_word(v: u32)
    by (bit_vector)
    ensures
        (((v as u64) << 32) >> 32) as u32 == v,
        ((v as u64) << 32) & WRITE_BIT_MASK == 0,
        ((v as u64) << 32) & READ_SEM_MASK == 0,
{
}

proof fn lemma_or_write_bit(prev: u64)
    by (bit_vector)
    ensures
        prev & WRITE_BIT_MASK != 0 ==> prev | WRITE_BIT_MASK == prev,
        ((prev | WRITE_BIT_MASK) >> 32) as u32 == (prev >> 32) as u32,
        (prev | WRITE_BIT_MASK) & READ_SEM_MASK == prev & READ_SEM_MASK,
        (prev | WRITE_BIT_MASK) & WRITE_BIT_MASK != 0,
{
}

proof fn lemma_undo_write_bit(prev: u64)
    by (bit_vector)
    ensures
        prev & WRITE_BIT_MASK == 0 ==> (prev | WRITE_BIT_MASK) & !WRITE_BIT_MASK == prev,
{
}

proof fn lemma_add_reader(prev: u64)
    by (bit_vector)
    ensures
        prev & READ_SEM_MASK < READ_SEM_MASK ==> {
            &&& prev + 1 <= u64::MAX
            &&& ((prev + 1) as u64 >> 32) as u32 == (prev >> 32) as u32
            &&& ((prev + 1) as u64) & WRITE_BIT_MASK == prev & WRITE_BIT_MASK
            &&& ((prev + 1) as u64) & READ_SEM_MASK == (prev & READ_SEM_MASK) + 1
        },
{
}

proof fn lemma_sub_reader(word: u64)
    by (bit_vector)
    ensures
        word & READ_SEM_MASK > 0 ==> {
            &&& word >= 1
            &&& ((word - 1) as u64 >> 32) as u32 == (word >> 32) as u32
            &&& ((word - 1) as u64) & WRITE_BIT_MASK == word & WRITE_BIT_MASK
            &&& ((word - 1) as u64) & READ_SEM_MASK == (word & READ_SEM_MASK) - 1
        },
{
}

proof fn lemma_write_unlock(word: u64, prev: u32, cur: u32)
    by (bit_vector)
    ensures
        (word & WRITE_BIT_MASK != 0 && (word >> 32) as u32 == prev && cur > prev) ==> {
            &&& ((cur - prev) as u64) << 32 >= WRITE_BIT_MASK
            &&& word + (((((cur - prev) as u64) << 32) - WRITE_BIT_MASK) as u64) <= u64::MAX
            &&& ((word + (((((cur - prev) as u64) << 32) - WRITE_BIT_MASK) as u64)) as u64
                >> 32) as u32 == cur
            &&& ((word + (((((cur - prev) as u64) << 32) - WRITE_BIT_MASK) as u64)) as u64)
                & WRITE_BIT_MASK == 0
            &&& ((word + (((((cur - prev) as u64) << 32) - WRITE_BIT_MASK) as u64)) as u64)
                & READ_SEM_MASK == word & READ_SEM_MASK
        },
        ((prev - cur) as u64) << 32 <= 0xffff_ffff_0000_0000u64,
        (word & WRITE_BIT_MASK != 0 && (word >> 32) as u32 == prev && cur <= prev) ==> {
            &&& word >= (((((prev - cur) as u64) << 32) + WRITE_BIT_MASK) as u64)
            &&& ((word - (((((prev - cur) as u64) << 32) + WRITE_BIT_MASK) as u64)) as u64
                >> 32) as u32 == cur
            &&& ((word - (((((prev - cur) as u64) << 32) + WRITE_BIT_MASK) as u64)) as u64)
                & WRITE_BIT_MASK == 0
            &&& ((word - (((((prev - cur) as u64) << 32) + WRITE_BIT_MASK) as u64)) as u64)
                & READ_SEM_MASK == word & READ_SEM_MASK
        },
{
}

} // verus!
