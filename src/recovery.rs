use vstd::prelude::*;
use crate::record::{Extent, ZombieFile};

verus! {

pub open spec fn min(a: int, b: int) -> int {
    if a <= b {
        a
    } else {
        b
    }
}

/// The byte ranges that hold an object's first `remaining` bytes: the
/// extents in order, each cut to what is still missing, stopping once
/// nothing is; empty ranges are left out.
pub open spec fn plan(ext: Seq<Extent>, remaining: nat) -> Seq<Extent>
    decreases ext.len(),
{
    if ext.len() == 0 || remaining == 0 {
        Seq::empty()
    } else {
        let take = min(remaining as int, ext[0].len as int);
        let rest = plan(ext.drop_first(), (remaining - take) as nat);
        if take == 0 {
            rest
        } else {
            seq![Extent { start: ext[0].start, len: take as u64 }] + rest
        }
    }
}

/// Number of bytes the ranges cover.
pub open spec fn total(s: Seq<Extent>) -> nat
    decreases s.len(),
{
    if s.len() == 0 {
        0
    } else {
        (s[0].len + total(s.drop_first())) as nat
    }
}

/// The plan covers the logical length, or all the extents when they are
/// shorter.
pub proof fn lemma_plan_total(ext: Seq<Extent>, remaining: nat)
    ensures
        total(plan(ext, remaining)) == min(remaining as int, total(ext) as int),
    decreases ext.len(),
{
    if ext.len() > 0 && remaining > 0 {
        let take = min(remaining as int, ext[0].len as int);
        lemma_plan_total(ext.drop_first(), (remaining - take) as nat);
        let rest = plan(ext.drop_first(), (remaining - take) as nat);
        if take != 0 {
            let head = seq![Extent { start: ext[0].start, len: take as u64 }];
            assert((head + rest).drop_first() =~= rest);
        }
    }
}

/// Each planned range is non-empty, starts where an extent starts and is no
/// longer than that extent, so reads inside it stay inside the extent.
pub proof fn lemma_plan_nonempty(ext: Seq<Extent>, remaining: nat, i: int)
    requires
        0 <= i < plan(ext, remaining).len(),
    ensures
        plan(ext, remaining)[i].len > 0,
        exists|j: int| 0 <= j < ext.len() && #[trigger] ext[j].start == plan(ext, remaining)[i].start
            && plan(ext, remaining)[i].len <= ext[j].len,
    decreases ext.len(),
{
    let take = min(remaining as int, ext[0].len as int);
    let rest = plan(ext.drop_first(), (remaining - take) as nat);
    if take != 0 && i == 0 {
        assert(ext[0].start == plan(ext, remaining)[0].start);
    } else {
        let k = if take != 0 {
            i - 1
        } else {
            i
        };
        assert(plan(ext, remaining)[i] == rest[k]);
        lemma_plan_nonempty(ext.drop_first(), (remaining - take) as nat, k);
        let j = choose|j: int| 0 <= j < ext.drop_first().len() && #[trigger] ext.drop_first()[j].start == rest[k].start
            && rest[k].len <= ext.drop_first()[j].len;
        assert(ext[j + 1] == ext.drop_first()[j]);
    }
}

/// The device ranges to copy, in order, to rebuild the object `f`: its
/// extents cut down to its logical length (extents past the end, which only
/// pad the last block, are skipped).
pub fn recovery_plan(f: &ZombieFile) -> (r: Vec<Extent>)
    ensures
        r@ == plan(f.extents@, f.len as nat),
{
    let mut out: Vec<Extent> = Vec::new();
    let mut remaining: u64 = f.len as u64;
    let n = f.extents.len();
    let mut k: usize = 0;
    assert(f.extents@.subrange(0, n as int) =~= f.extents@);
    while k < n && remaining > 0
        invariant
            n == f.extents.len(),
            k <= n,
            remaining <= f.len,
            out@ + plan(f.extents@.subrange(k as int, n as int), remaining as nat) == plan(
                f.extents@,
                f.len as nat,
            ),
        decreases n - k,
    {
        let e = f.extents[k];
        let take = if remaining < e.len {
            remaining
        } else {
            e.len
        };
        let ghost rest = f.extents@.subrange(k as int, n as int);
        proof {
            assert(rest.drop_first() =~= f.extents@.subrange(k + 1, n as int));
            assert(rest[0] == e);
        }
        if take > 0 {
            let ghost before = out@;
            out.push(Extent { start: e.start, len: take });
            proof {
                let head = seq![Extent { start: e.start, len: take }];
                assert(out@ =~= before + head);
                assert(out@ + plan(f.extents@.subrange(k + 1, n as int), (remaining - take) as nat)
                    =~= before + plan(rest, remaining as nat));
            }
        }
        remaining = remaining - take;
        k = k + 1;
    }
    proof {
        let rest = f.extents@.subrange(k as int, n as int);
        assert(plan(rest, remaining as nat) =~= Seq::<Extent>::empty());
        assert(out@ =~= out@ + plan(rest, remaining as nat));
    }
    out
}

/// What the copy loop does next.
#[derive(Clone, Copy, Debug, PartialEq, Eq, Structural)]
pub enum CopyStep {
    /// Read at most `max` bytes from the device at `offset` and write what
    /// was read to the output.
    Read { offset: u64, max: usize },
    /// Everything has been copied.
    Finished,
}

#[derive(Clone, Copy, Debug, PartialEq, Eq, Structural)]
pub enum RecoverError {
    /// An extent reaches past the largest device offset.
    ExtentOutOfRange,
    /// The chunk size is zero.
    NoChunk,
}

/// The copy of one object from the device, in bounded chunks: which ranges
/// are planned, which one is being copied and how much of it is done.
pub struct Copier {
    pub plan: Vec<Extent>,
    pub index: usize,
    pub done: u64,
    pub chunk: usize,
}

impl Copier {
    pub open spec fn wf(&self) -> bool {
        &&& self.chunk > 0
        &&& self.index <= self.plan.len()
        &&& self.index < self.plan.len() ==> self.done < self.plan@[self.index as int].len
        &&& self.index == self.plan.len() ==> self.done == 0
        &&& forall|i: int|
            0 <= i < self.plan.len() ==> (#[trigger] self.plan@[i]).len > 0
                && self.plan@[i].start + self.plan@[i].len <= u64::MAX
    }

    /// The device ranges still to copy, in order.
    pub open spec fn pending(&self) -> Seq<Extent> {
        if self.index >= self.plan.len() {
            Seq::empty()
        } else {
            let cur = self.plan@[self.index as int];
            seq![Extent { start: (cur.start + self.done) as u64, len: (cur.len - self.done) as u64 }]
                + self.plan@.subrange(self.index + 1, self.plan.len() as int)
        }
    }

    /// Starts the copy of `f` in chunks of at most `chunk` bytes. Fails when
    /// the chunk size is zero or a range to copy ends past the largest device
    /// offset.
    pub fn new(f: &ZombieFile, chunk: usize) -> (r: Result<Copier, RecoverError>)
        ensures
            chunk == 0 ==> r == Err::<Copier, RecoverError>(RecoverError::NoChunk),
            chunk > 0 ==> (r is Err <==> exists|i: int|
                0 <= i < plan(f.extents@, f.len as nat).len() && #[trigger] plan(
                    f.extents@,
                    f.len as nat,
                )[i].start + plan(f.extents@, f.len as nat)[i].len > u64::MAX),
            r is Err && chunk > 0 ==> r == Err::<Copier, RecoverError>(
                RecoverError::ExtentOutOfRange,
            ),
            r matches Ok(c) ==> c.wf() && c.chunk == chunk && c.pending() == plan(
                f.extents@,
                f.len as nat,
            ) && c.plan@ == plan(f.extents@, f.len as nat),
    {
        if chunk == 0 {
            return Err(RecoverError::NoChunk);
        }
        let p = recovery_plan(f);
        let mut i: usize = 0;
        while i < p.len()
            invariant
                chunk > 0,
                i <= p.len(),
                p@ == plan(f.extents@, f.len as nat),
                forall|j: int|
                    0 <= j < i ==> (#[trigger] p@[j]).start + p@[j].len <= u64::MAX,
            decreases p.len() - i,
        {
            if p[i].len > u64::MAX - p[i].start {
                return Err(RecoverError::ExtentOutOfRange);
            }
            i = i + 1;
        }
        proof {
            assert forall|j: int| 0 <= j < p.len() implies (#[trigger] p@[j]).len > 0 by {
                lemma_plan_nonempty(f.extents@, f.len as nat, j);
            }
        }
        let c = Copier { plan: p, index: 0, done: 0, chunk };
        proof {
            if c.plan.len() > 0 {
                assert(c.pending() =~= c.plan@);
            } else {
                assert(c.pending() =~= c.plan@);
            }
        }
        Ok(c)
    }

    /// The next read, or `Finished` when nothing is pending. A read covers
    /// the start of the first pending range, at most one chunk, and never
    /// goes past the range's end.
    pub fn step(&self) -> (r: CopyStep)
        requires
            self.wf(),
        ensures
            r == CopyStep::Finished <==> self.pending().len() == 0,
            r matches CopyStep::Read { offset, max } ==> {
                &&& offset == self.pending()[0].start
                &&& max as int == min(self.pending()[0].len as int, self.chunk as int)
                &&& max > 0
                &&& self.index < self.plan.len()
                &&& self.plan@[self.index as int].start <= offset
                &&& offset + max <= self.plan@[self.index as int].start + self.plan@[
                    self.index as int].len
            },
    {
        if self.index >= self.plan.len() {
            return CopyStep::Finished;
        }
        let cur = self.plan[self.index];
        let left = cur.len - self.done;
        let max = if left < self.chunk as u64 {
            left as usize
        } else {
            self.chunk
        };
        proof {
            assert(self.plan@[self.index as int] == cur);
        }
        CopyStep::Read { offset: cur.start + self.done, max }
    }

    /// Records that `n` bytes of the current read were copied.
    pub fn advance(&mut self, n: usize)
        requires
            old(self).wf(),
            old(self).pending().len() > 0,
            0 < n <= old(self).pending()[0].len,
            n <= old(self).chunk,
        ensures
            final(self).wf(),
            final(self).chunk == old(self).chunk,
            final(self).plan@ == old(self).plan@,
            n == old(self).pending()[0].len ==> final(self).pending() == old(
                self,
            ).pending().drop_first(),
            n < old(self).pending()[0].len ==> final(self).pending() == old(self).pending().update(
                0,
                Extent {
                    start: (old(self).pending()[0].start + n) as u64,
                    len: (old(self).pending()[0].len - n) as u64,
                },
            ),
    {
        let cur = self.plan[self.index];
        proof {
            assert(self.plan@[self.index as int] == cur);
        }
        if (n as u64) == cur.len - self.done {
            self.index = self.index + 1;
            self.done = 0;
            proof {
                let o = old(self).pending();
                if self.index < self.plan.len() {
                    assert(self.pending() =~= o.drop_first());
                } else {
                    assert(self.pending() =~= o.drop_first());
                }
            }
        } else {
            self.done = self.done + n as u64;
            proof {
                let o = old(self).pending();
                assert(self.pending() =~= o.update(
                    0,
                    Extent { start: (o[0].start + n) as u64, len: (o[0].len - n) as u64 },
                ));
            }
        }
    }
}

} // verus!
