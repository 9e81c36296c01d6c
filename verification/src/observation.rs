//! History of observation frames.
//!
//! The policy reads the last ten observations at once. [`Observation`] keeps
//! them in a ring and lays them out oldest first. Numbers are bit patterns (see
//! [`crate::binary32`]); they are moved here, never computed with.
use crate::config::{FRAME_STACK, OBS_DIM};
use vstd::prelude::*;

verus! {

/// Numbers in the input of the policy.
pub const STACKED_DIM: usize = 780;

/// A history with one more frame: the oldest makes room once ten are held.
pub open spec fn extended(history: Seq<Seq<u32>>, frame: Seq<u32>) -> Seq<Seq<u32>> {
    if history.len() < FRAME_STACK {
        history.push(frame)
    } else {
        history.drop_first().push(frame)
    }
}

/// A history laid out as input of the policy: oldest frame first, newest last,
/// zeros in front where fewer than ten frames are held.
pub open spec fn stacked(history: Seq<Seq<u32>>) -> Seq<u32> {
    Seq::new(
        STACKED_DIM as nat,
        |i: int|
            {
                let age = i / OBS_DIM as int - (FRAME_STACK - history.len());
                if age < 0 {
                    0u32
                } else {
                    history[age][i % OBS_DIM as int]
                }
            },
    )
}

/// The history after frames one after the other, from an empty one.
pub open spec fn recorded(frames: Seq<Seq<u32>>) -> Seq<Seq<u32>>
    decreases frames.len(),
{
    if frames.len() == 0 {
        Seq::empty()
    } else {
        extended(recorded(frames.drop_last()), frames.last())
    }
}

/// Ring of the last ten observation frames.
pub struct Observation {
    buf: [u32; 780],
    write_idx: usize,
    frame_count: usize,
}

impl Observation {
    /// Frame in slot `k` of the ring.
    spec fn slot(&self, k: int) -> Seq<u32> {
        self.buf@.subrange(k * OBS_DIM, (k + 1) * OBS_DIM)
    }

    /// The frames held, oldest first.
    pub closed spec fn history(&self) -> Seq<Seq<u32>> {
        Seq::new(
            self.frame_count as nat,
            |i: int|
                self.slot(
                    (self.write_idx + i + FRAME_STACK - self.frame_count) % FRAME_STACK as int,
                ),
        )
    }

    /// The ring fills from its first slot before it wraps around.
    pub closed spec fn wf(&self) -> bool {
        &&& self.write_idx < FRAME_STACK
        &&& self.frame_count <= FRAME_STACK
        &&& self.frame_count < FRAME_STACK ==> self.write_idx == self.frame_count
    }

    /// An empty history.
    pub fn new() -> (r: Self)
        ensures
            r.wf(),
            r.history() == Seq::<Seq<u32>>::empty(),
    {
        let r = Observation { buf: [0; 780], write_idx: 0, frame_count: 0 };
        assert(r.history() =~= Seq::<Seq<u32>>::empty());
        r
    }

    /// Adds the newest frame.
    pub fn push(&mut self, obs: &[u32; 78])
        requires
            old(self).wf(),
        ensures
            final(self).wf(),
            final(self).history() == extended(old(self).history(), obs@),
    {
        let at: usize = self.write_idx;
        let offset: usize = at * OBS_DIM;
        let mut j: usize = 0;
        while j < OBS_DIM
            invariant
                j <= OBS_DIM,
                old(self).wf(),
                at == old(self).write_idx,
                offset == at * OBS_DIM,
                self.write_idx == old(self).write_idx,
                self.frame_count == old(self).frame_count,
                forall|k: int|
                    0 <= k < STACKED_DIM ==> #[trigger] self.buf@[k] == if offset <= k < offset
                        + j {
                        obs@[k - offset]
                    } else {
                        old(self).buf@[k]
                    },
            decreases OBS_DIM - j,
        {
            self.buf[offset + j] = obs[j];
            j += 1;
        }
        self.write_idx = (at + 1) % FRAME_STACK;
        if self.frame_count < FRAME_STACK {
            self.frame_count = self.frame_count + 1;
        }
        proof {
            assert(self.slot(at as int) =~= obs@);
            assert forall|k: int| 0 <= k < FRAME_STACK && k != at implies #[trigger] self.slot(k)
                == old(self).slot(k) by {
                assert(self.slot(k) =~= old(self).slot(k));
            }
            assert(self.history() =~= extended(old(self).history(), obs@));
        }
    }

    /// Lays the history out as input of the policy.
    pub fn flatten_into(&self, dst: &mut [u32; 780])
        requires
            self.wf(),
        ensures
            final(dst)@ == stacked(self.history()),
    {
        let pad: usize = FRAME_STACK - self.frame_count;
        let mut f: usize = 0;
        while f < FRAME_STACK
            invariant
                self.wf(),
                pad == FRAME_STACK - self.frame_count,
                f <= FRAME_STACK,
                forall|i: int|
                    0 <= i < f * OBS_DIM ==> #[trigger] dst@[i] == stacked(self.history())[i],
            decreases FRAME_STACK - f,
        {
            let to: usize = f * OBS_DIM;
            let from: usize = (self.write_idx + f) % FRAME_STACK * OBS_DIM;
            let mut j: usize = 0;
            while j < OBS_DIM
                invariant
                    self.wf(),
                    pad == FRAME_STACK - self.frame_count,
                    f < FRAME_STACK,
                    j <= OBS_DIM,
                    to == f * OBS_DIM,
                    from == (self.write_idx + f) % FRAME_STACK as int * OBS_DIM,
                    forall|i: int|
                        0 <= i < to + j ==> #[trigger] dst@[i] == stacked(self.history())[i],
                decreases OBS_DIM - j,
            {
                dst[to + j] = if f < pad {
                    0
                } else {
                    self.buf[from + j]
                };
                proof {
                    let i = to + j;
                    assert(i / OBS_DIM as int == f);
                    assert(i % OBS_DIM as int == j);
                    if f >= pad {
                        let k = (self.write_idx + f) % FRAME_STACK as int;
                        assert(self.history()[f - pad] == self.slot(k));
                        assert(self.slot(k)[j as int] == self.buf@[from + j]);
                    }
                }
                j += 1;
            }
            f += 1;
        }
        assert(dst@ =~= stacked(self.history()));
    }

    /// Number of frames held, at most ten.
    pub fn frame_count(&self) -> (r: usize)
        requires
            self.wf(),
        ensures
            r == self.history().len(),
            r <= FRAME_STACK,
    {
        self.frame_count
    }
}

impl Default for Observation {
    /// An empty history.
    fn default() -> (r: Self)
        ensures
            r.wf(),
            r.history() == Seq::<Seq<u32>>::empty(),
    {
        Self::new()
    }
}

/// The history is always the last ten frames that were pushed, in the order in
/// which they came; all of them, as long as there are no more than ten.
pub proof fn history_is_the_latest(frames: Seq<Seq<u32>>)
    ensures
        recorded(frames) == if frames.len() <= FRAME_STACK {
            frames
        } else {
            frames.skip(frames.len() - FRAME_STACK)
        },
    decreases frames.len(),
{
    if frames.len() > 0 {
        let before = frames.drop_last();
        history_is_the_latest(before);
        if frames.len() <= FRAME_STACK {
            assert(before.push(frames.last()) =~= frames);
        } else if before.len() == FRAME_STACK {
            assert(before.drop_first().push(frames.last()) =~= frames.skip(
                frames.len() - FRAME_STACK,
            ));
        } else {
            assert(before.skip(before.len() - FRAME_STACK).drop_first().push(frames.last())
                =~= frames.skip(frames.len() - FRAME_STACK));
        }
    } else {
        assert(recorded(frames) =~= frames);
    }
}

/// The input of the policy holds each frame of the history as one block, oldest
/// first, the newest at the end.
pub proof fn stack_is_chronological(history: Seq<Seq<u32>>, age: int)
    requires
        history.len() <= FRAME_STACK,
        0 <= age < history.len(),
        history[age].len() == OBS_DIM,
    ensures
        ({
            let start = (FRAME_STACK - history.len() + age) * OBS_DIM;
            stacked(history).subrange(start, start + OBS_DIM) == history[age]
        }),
{
    let start = (FRAME_STACK - history.len() + age) * OBS_DIM;
    let block = stacked(history).subrange(start, start + OBS_DIM);
    assert forall|j: int| 0 <= j < OBS_DIM implies #[trigger] block[j] == history[age][j] by {
        assert((start + j) / OBS_DIM as int == FRAME_STACK - history.len() + age);
        assert((start + j) % OBS_DIM as int == j);
    }
    assert(block =~= history[age]);
}

/// As long as fewer than ten frames are held, the input of the policy starts with
/// zeros in place of those that are missing.
pub proof fn missing_frames_are_zero(history: Seq<Seq<u32>>, i: int)
    requires
        history.len() <= FRAME_STACK,
        0 <= i < (FRAME_STACK - history.len()) * OBS_DIM,
    ensures
        stacked(history)[i] == 0,
{
}

} // verus!
