//! Handing out and taking back physical frames.
use vstd::prelude::*;
use crate::address::{Frame, MAX_FRAMES};

verus! {

/// A source of free physical frames. The paging code assumes no policy:
/// it relies only on what the contracts below state.
pub trait FrameAllocator {
    /// The numbers of the frames that are free.
    spec fn free(&self) -> Set<u64>;

    spec fn wf(&self) -> bool;

    /// Every free frame is a frame of the machine.
    proof fn lemma_free_frames_valid(&self)
        requires
            self.wf(),
        ensures
            self.free().finite(),
            forall|n: u64| #[trigger] self.free().contains(n) ==> n < MAX_FRAMES,
    ;

    /// A free frame, which is then no longer free, or `None` when none is
    /// left.
    fn allocate_frame(&mut self) -> (r: Option<Frame>)
        requires
            old(self).wf(),
        ensures
            final(self).wf(),
            match r {
                Some(f) => old(self).free().contains(f.number) && final(self).free()
                    == old(self).free().remove(f.number),
                None => final(self).free() == old(self).free() && old(self).free().is_empty(),
            },
    ;

    /// Gives `frame` back; it must not be free already.
    fn deallocate_frame(&mut self, frame: Frame)
        requires
            old(self).wf(),
            frame.wf(),
            !old(self).free().contains(frame.number),
        ensures
            final(self).wf(),
            final(self).free() == old(self).free().insert(frame.number),
    ;
}

/// A frame allocator that keeps its free frames in a stack.
pub struct FramePool {
    frames: Vec<u64>,
}

impl FramePool {
    /// A pool that holds no frame.
    pub fn new() -> (r: FramePool)
        ensures
            r.wf(),
            r.free() == Set::<u64>::empty(),
    {
        FramePool { frames: Vec::new() }
    }

    /// A pool that holds the frames `first` to `last`, both included.
    pub fn from_range(first: Frame, last: Frame) -> (r: FramePool)
        requires
            first.wf(),
            last.wf(),
        ensures
            r.wf(),
            forall|n: u64| #[trigger] r.free().contains(n) <==> first.number <= n <= last.number,
            r.free().finite(),
            first.number <= last.number ==> r.free().len() == last.number - first.number + 1,
            first.number > last.number ==> r.free().len() == 0,
    {
        let mut frames: Vec<u64> = Vec::new();
        let mut n: u64 = first.number;
        while n <= last.number
            invariant
                first.number <= n <= last.number + 1 || (n == first.number && first.number > last.number),
                last.number < MAX_FRAMES,
                first.number <= last.number ==> frames@.len() == n - first.number,
                first.number > last.number ==> frames@.len() == 0,
                forall|i: int| 0 <= i < frames@.len() ==> #[trigger] frames@[i] == first.number + i,
            decreases last.number + 1 - n,
        {
            frames.push(n);
            n = n + 1;
        }
        let r = FramePool { frames };
        proof {
            assert(r.frames@.no_duplicates());
            r.frames@.unique_seq_to_set();
            vstd::seq_lib::seq_to_set_is_finite(r.frames@);
            assert forall|n: u64| #[trigger] r.free().contains(n) <==> first.number <= n
                <= last.number by {
                if first.number <= n <= last.number {
                    assert(r.frames@[n - first.number] == n);
                }
            }
        }
        r
    }
}

impl FrameAllocator for FramePool {
    closed spec fn free(&self) -> Set<u64> {
        self.frames@.to_set()
    }

    closed spec fn wf(&self) -> bool {
        &&& self.frames@.no_duplicates()
        &&& forall|i: int| 0 <= i < self.frames@.len() ==> #[trigger] self.frames@[i] < MAX_FRAMES
    }

    proof fn lemma_free_frames_valid(&self) {
        vstd::seq_lib::seq_to_set_is_finite(self.frames@);
    }

    fn allocate_frame(&mut self) -> (r: Option<Frame>) {
        let r = self.frames.pop();
        match r {
            Some(n) => {
                proof {
                    let s = old(self).frames@;
                    assert(s == final(self).frames@.push(n));
                    assert(s.last() == n);
                    assert(final(self).frames@.to_set() =~= s.to_set().remove(n)) by {
                        assert forall|x: u64|
                            #[trigger] final(self).frames@.to_set().contains(x) <==> s.to_set().remove(
                                n,
                            ).contains(x) by {
                            if s.to_set().contains(x) && x != n {
                                let i = choose|i: int| 0 <= i < s.len() && s[i] == x;
                                assert(final(self).frames@[i] == x);
                            }
                            if final(self).frames@.to_set().contains(x) {
                                let i = choose|i: int|
                                    0 <= i < final(self).frames@.len() && final(self).frames@[i]
                                        == x;
                                assert(s[i] == x);
                            }
                        }
                    }
                }
                Some(Frame { number: n })
            },
            None => {
                proof {
                    assert(old(self).frames@.to_set() =~= Set::<u64>::empty());
                }
                None
            },
        }
    }

    fn deallocate_frame(&mut self, frame: Frame) {
        self.frames.push(frame.number);
        proof {
            let s = old(self).frames@;
            assert(final(self).frames@ == s.push(frame.number));
            assert(final(self).frames@.to_set() =~= s.to_set().insert(frame.number)) by {
                assert forall|x: u64|
                    #[trigger] final(self).frames@.to_set().contains(x) <==> s.to_set().insert(
                        frame.number,
                    ).contains(x) by {
                    if s.to_set().contains(x) {
                        let i = choose|i: int| 0 <= i < s.len() && s[i] == x;
                        assert(final(self).frames@[i] == x);
                    }
                    if x == frame.number {
                        assert(final(self).frames@[s.len() as int] == x);
                    }
                    if final(self).frames@.to_set().contains(x) && x != frame.number {
                        let i = choose|i: int|
                            0 <= i < final(self).frames@.len() && final(self).frames@[i] == x;
                        assert(s[i] == x);
                    }
                }
            }
            assert forall|i: int, j: int|
                0 <= i < final(self).frames@.len() && 0 <= j < final(self).frames@.len() && i != j
                    implies final(self).frames@[i] != final(self).frames@[j] by {
                if i == s.len() as int && j < s.len() {
                    assert(s.to_set().contains(s[j]));
                }
                if j == s.len() as int && i < s.len() {
                    assert(s.to_set().contains(s[i]));
                }
            }
        }
    }
}

} // verus!
