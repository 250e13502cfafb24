//! Physical frames: a stack allocator that hands out frames from a range and reuses
//! released frames last-in first-out.
use vstd::prelude::*;

use super::address::{ppn_of, PhysPageNum};

verus! {

/// Frames `[current, end)` were never handed out; `recycled` holds released frames,
/// the most recently released last.
pub struct StackFrameAllocator {
    current: usize,
    end: usize,
    recycled: Vec<usize>,
}

impl StackFrameAllocator {
    pub closed spec fn current(&self) -> usize {
        self.current
    }

    pub closed spec fn end(&self) -> usize {
        self.end
    }

    pub closed spec fn recycled(&self) -> Seq<usize> {
        self.recycled@
    }

    /// Released frames are distinct and lie below the frames never handed out.
    pub closed spec fn wf(&self) -> bool {
        &&& self.recycled@.no_duplicates()
        &&& forall|i: int| 0 <= i < self.recycled@.len() ==> #[trigger] self.recycled@[i] < self.current
    }

    /// Frame `p` is handed out: below `current` and not released.
    pub open spec fn is_allocated(&self, p: usize) -> bool {
        p < self.current() && !self.recycled().contains(p)
    }

    /// An allocator with nothing to hand out.
    pub fn new() -> (r: Self)
        ensures
            r.wf(),
            r.current() == 0,
            r.end() == 0,
            r.recycled() == Seq::<usize>::empty(),
    {
        Self { current: 0, end: 0, recycled: Vec::new() }
    }

    /// Hands out the frames `[l, r)`.
    pub fn init(&mut self, l: PhysPageNum, r: PhysPageNum)
        ensures
            old(self).wf() && (forall|i: int|
                0 <= i < old(self).recycled().len() ==> #[trigger] old(self).recycled()[i] < l.0) ==> final(self).wf(),
            final(self).current() == l.0,
            final(self).end() == r.0,
            final(self).recycled() == old(self).recycled(),
    {
        self.current = l.0;
        self.end = r.0;
        proof {
            if old(self).wf() && (forall|i: int|
                0 <= i < old(self).recycled().len() ==> #[trigger] old(self).recycled()[i] < l.0) {
                assert forall|i: int| 0 <= i < self.recycled@.len() implies #[trigger] self.recycled@[i] < self.current by {
                    assert(old(self).recycled()[i] < l.0);
                }
            }
        }
    }

    /// Hands out the most recently released frame, else the next frame never handed
    /// out, else nothing.
    pub fn allocate(&mut self) -> (r: Option<PhysPageNum>)
        requires
            old(self).wf(),
        ensures
            final(self).wf(),
            final(self).end() == old(self).end(),
            old(self).recycled().len() > 0 ==> {
                &&& r == Some(ppn_of(old(self).recycled().last()))
                &&& final(self).recycled() == old(self).recycled().drop_last()
                &&& final(self).current() == old(self).current()
            },
            old(self).recycled().len() == 0 && old(self).current() < old(self).end() ==> {
                &&& r == Some(ppn_of(old(self).current()))
                &&& final(self).recycled() == old(self).recycled()
                &&& final(self).current() == old(self).current() + 1
            },
            old(self).recycled().len() == 0 && old(self).current() >= old(self).end() ==> {
                &&& r is None
                &&& final(self).recycled() == old(self).recycled()
                &&& final(self).current() == old(self).current()
            },
    {
        if let Some(ppn) = self.recycled.pop() {
            proof {
                assert(self.recycled@ =~= old(self).recycled@.drop_last());
                assert forall|a: int, b: int| 0 <= a < b < self.recycled@.len() implies self.recycled@[a] != self.recycled@[b] by {
                    assert(self.recycled@[a] == old(self).recycled@[a]);
                    assert(self.recycled@[b] == old(self).recycled@[b]);
                }
                assert forall|i: int| 0 <= i < self.recycled@.len() implies #[trigger] self.recycled@[i] < self.current by {
                    assert(self.recycled@[i] == old(self).recycled@[i]);
                }
            }
            Some(PhysPageNum::from(ppn))
        } else if self.current < self.end {
            self.current += 1;
            proof {
                assert forall|i: int| 0 <= i < self.recycled@.len() implies #[trigger] self.recycled@[i] < self.current by {
                    assert(self.recycled@[i] == old(self).recycled@[i]);
                }
            }
            Some(PhysPageNum::from(self.current - 1))
        } else {
            None
        }
    }

    /// Takes back a frame that is handed out.
    pub fn deallocate(&mut self, ppn: PhysPageNum)
        requires
            old(self).wf(),
            old(self).is_allocated(ppn.0),
        ensures
            final(self).wf(),
            final(self).recycled() == old(self).recycled().push(ppn.0),
            final(self).current() == old(self).current(),
            final(self).end() == old(self).end(),
    {
        let ppn = ppn.0;
        self.recycled.push(ppn);
        proof {
            assert forall|a: int, b: int| 0 <= a < b < self.recycled@.len() implies self.recycled@[a] != self.recycled@[b] by {
                if b == self.recycled@.len() - 1 {
                    assert(self.recycled@[a] == old(self).recycled@[a]);
                } else {
                    assert(self.recycled@[a] == old(self).recycled@[a]);
                    assert(self.recycled@[b] == old(self).recycled@[b]);
                }
            }
            assert forall|i: int| 0 <= i < self.recycled@.len() implies #[trigger] self.recycled@[i] < self.current by {
                if i < old(self).recycled@.len() {
                    assert(self.recycled@[i] == old(self).recycled@[i]);
                }
            }
        }
    }
}

/// Owns one frame, named by its number.
#[derive(Debug)]
pub struct FrameTracker {
    pub ppn: PhysPageNum,
}

impl FrameTracker {
    /// Takes ownership of frame `ppn` (whose bytes the caller has cleared).
    pub fn new(ppn: PhysPageNum) -> (r: Self)
        ensures
            r.ppn == ppn,
    {
        Self { ppn }
    }
}

/// A frame from the allocator, owned by a tracker.
pub fn frame_alloc(allocator: &mut StackFrameAllocator) -> (r: Option<FrameTracker>)
    requires
        old(allocator).wf(),
    ensures
        final(allocator).wf(),
        final(allocator).end() == old(allocator).end(),
        (old(allocator).recycled().len() > 0 || old(allocator).current() < old(allocator).end()) <==> r is Some,
        r is None ==> final(allocator).recycled().len() == 0 && final(allocator).current() >= final(allocator).end(),
        r matches Some(f) ==> exists|p: usize|
            !old(allocator).is_allocated(p) && #[trigger] final(allocator).is_allocated(p) && f.ppn == ppn_of(p),
        r matches Some(f) ==> f.ppn == (if old(allocator).recycled().len() > 0 {
            ppn_of(old(allocator).recycled().last())
        } else {
            ppn_of(old(allocator).current())
        }),
{
    match allocator.allocate() {
        Some(ppn) => {
            proof {
                let a = *old(allocator);
                if a.recycled().len() > 0 {
                    let p = a.recycled().last();
                    assert(a.recycled()[a.recycled().len() - 1] == p);
                    assert(a.recycled().contains(p));
                    assert(p < a.current());
                    assert(!allocator.recycled().contains(p)) by {
                        if allocator.recycled().contains(p) {
                            let j = choose|j: int| 0 <= j < allocator.recycled().len() && allocator.recycled()[j] == p;
                            assert(a.recycled()[j] == p);
                        }
                    }
                    assert(allocator.is_allocated(p));
                } else {
                    let p = a.current();
                    assert(!a.recycled().contains(p));
                    assert(allocator.is_allocated(p));
                }
            }
            Some(FrameTracker::new(ppn))
        },
        None => None,
    }
}

/// Gives a frame back to the allocator.
pub fn frame_dealloc(allocator: &mut StackFrameAllocator, ppn: PhysPageNum)
    requires
        old(allocator).wf(),
        old(allocator).is_allocated(ppn.0),
    ensures
        final(allocator).wf(),
        final(allocator).recycled() == old(allocator).recycled().push(ppn.0),
        final(allocator).current() == old(allocator).current(),
        final(allocator).end() == old(allocator).end(),
        !final(allocator).is_allocated(ppn.0),
{
    allocator.deallocate(ppn);
    assert(allocator.recycled()[allocator.recycled().len() - 1] == ppn.0);
}

/// Frames are reused last-in first-out: after a frame is released, the next frame
/// handed out is that frame.
pub proof fn law_released_frame_reused_first(before: StackFrameAllocator, after: StackFrameAllocator, p: usize)
    requires
        after.recycled() == before.recycled().push(p),
    ensures
        after.recycled().len() > 0,
        ppn_of(after.recycled().last()) == ppn_of(p),
{
}

/// The frame that the allocator hands out next (the last released one, else the next
/// one never handed out) is not in use.
pub proof fn law_next_frame_not_in_use(a: StackFrameAllocator, p: usize)
    requires
        a.wf(),
        a.recycled().len() > 0 ==> p == a.recycled().last(),
        a.recycled().len() == 0 ==> p == a.current(),
    ensures
        !a.is_allocated(p),
{
    if a.recycled().len() > 0 {
        assert(a.recycled()[a.recycled().len() - 1] == p);
    }
}

} // verus!
