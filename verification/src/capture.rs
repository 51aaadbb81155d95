//! The block-capture sequence: trigger, sizing, ordered block fetches, and
//! reassembly of the accumulated bytes into 32-bit sample words.
//!
//! The transport is an outside collaborator: a runner performs the call each
//! action names and feeds the outcome back in as the next event. All the
//! decisions live here and are verified against `spec_step`.

use vstd::prelude::*;
use crate::sizing::{block_count, spec_block_count};
use crate::wire::{le_decode_at, le_val, lemma_pow256_values};

verus! {

/// Where the sequence stands.
#[derive(Clone, Copy, PartialEq, Eq, Structural, Debug)]
pub enum CapturePhase {
    Idle,
    Triggered,
    WaitSize,
    WaitBlockSize,
    Fetching,
    Done,
    Failed,
}

/// What the runner must do next.
#[derive(Clone, Copy, PartialEq, Eq, Structural, Debug)]
pub enum CaptureAction {
    /// Invoke the trigger endpoint, argument-less; failure is non-fatal.
    CallTrigger,
    /// Invoke the size endpoint.
    CallSize,
    /// Invoke the block-size endpoint.
    CallBlockSize,
    /// Invoke the block endpoint with this index as its argument.
    CallBlock(i32),
    /// The sequence is complete: the accumulated bytes are the result.
    Deliver,
    /// The sequence failed mid-fetch: nothing is emitted.
    Discard,
    /// The event did not belong to the current phase; nothing changed.
    Ignore,
}

/// What the runner observed: the replies, `None` for a transport failure.
pub enum CaptureEvent {
    Begin,
    TriggerDone(bool),
    SizeReply(Option<String>),
    BlockSizeReply(Option<String>),
    BlockReply(Option<Vec<u8>>),
}

/// One capture sequence: ephemeral, one per trigger.
pub struct CaptureSession {
    pub phase: CapturePhase,
    pub size_text: Option<String>,
    pub block_count: i32,
    pub next_index: i32,
    pub accumulated: Vec<u8>,
}

/// The transition relation of the capture sequence: from `pre` on event
/// `ev` the session becomes `post` and the runner owes `act`.
///
/// Failure of the trigger call is tolerated; a failed or rejected sizing
/// reply ends the sequence with zero blocks and an empty result; blocks are
/// fetched in order for every index from 0 through the block count
/// inclusive; a failed block fetch discards everything.
pub open spec fn spec_step(
    pre: CaptureSession,
    ev: CaptureEvent,
    post: CaptureSession,
    act: CaptureAction,
) -> bool {
    match ev {
        CaptureEvent::Begin => if pre.phase == CapturePhase::Idle {
            post == CaptureSession { phase: CapturePhase::Triggered, ..pre } && act
                == CaptureAction::CallTrigger
        } else {
            post == pre && act == CaptureAction::Ignore
        },
        CaptureEvent::TriggerDone(_) => if pre.phase == CapturePhase::Triggered {
            post == CaptureSession { phase: CapturePhase::WaitSize, ..pre } && act
                == CaptureAction::CallSize
        } else {
            post == pre && act == CaptureAction::Ignore
        },
        CaptureEvent::SizeReply(reply) => if pre.phase == CapturePhase::WaitSize {
            match reply {
                Some(text) => post == CaptureSession {
                    phase: CapturePhase::WaitBlockSize,
                    size_text: Some(text),
                    ..pre
                } && act == CaptureAction::CallBlockSize,
                None => empty_done(post) && act == CaptureAction::Deliver,
            }
        } else {
            post == pre && act == CaptureAction::Ignore
        },
        CaptureEvent::BlockSizeReply(reply) => if pre.phase == CapturePhase::WaitBlockSize {
            match (reply, pre.size_text) {
                (Some(bt), Some(st)) => match spec_block_count(st@, bt@) {
                    Some(q) => post == CaptureSession {
                        phase: CapturePhase::Fetching,
                        block_count: q as i32,
                        next_index: 0,
                        ..pre
                    } && act == CaptureAction::CallBlock(0),
                    None => empty_done(post) && act == CaptureAction::Deliver,
                },
                _ => empty_done(post) && act == CaptureAction::Deliver,
            }
        } else {
            post == pre && act == CaptureAction::Ignore
        },
        CaptureEvent::BlockReply(reply) => if pre.phase == CapturePhase::Fetching {
            match reply {
                Some(bytes) => {
                    &&& post.accumulated@ == pre.accumulated@ + bytes@
                    &&& post.block_count == pre.block_count
                    &&& if pre.next_index < pre.block_count {
                        &&& post.phase == CapturePhase::Fetching
                        &&& post.next_index == pre.next_index + 1
                        &&& act == CaptureAction::CallBlock((pre.next_index + 1) as i32)
                    } else {
                        &&& post.phase == CapturePhase::Done
                        &&& act == CaptureAction::Deliver
                    }
                },
                None => {
                    &&& post.phase == CapturePhase::Failed
                    &&& post.accumulated@ == Seq::<u8>::empty()
                    &&& act == CaptureAction::Discard
                },
            }
        } else {
            post == pre && act == CaptureAction::Ignore
        },
    }
}

/// A sequence that ended early: done, zero blocks, nothing accumulated.
pub open spec fn empty_done(post: CaptureSession) -> bool {
    &&& post.phase == CapturePhase::Done
    &&& post.block_count == 0
    &&& post.accumulated@ == Seq::<u8>::empty()
}

impl CaptureSession {
    /// Facts every reachable session satisfies.
    pub open spec fn wf(self) -> bool {
        &&& self.phase == CapturePhase::Fetching ==> 0 <= self.next_index <= self.block_count
        &&& self.phase == CapturePhase::WaitBlockSize ==> self.size_text.is_some()
    }

    /// A fresh, idle sequence.
    pub fn new() -> (s: CaptureSession)
        ensures
            s.wf(),
            s.phase == CapturePhase::Idle,
            s.accumulated@ == Seq::<u8>::empty(),
            s.block_count == 0,
            s.next_index == 0,
    {
        CaptureSession {
            phase: CapturePhase::Idle,
            size_text: None,
            block_count: 0,
            next_index: 0,
            accumulated: Vec::new(),
        }
    }

    /// Advances the sequence on one event and says what the runner must do
    /// next. Total: an event that does not belong to the current phase
    /// changes nothing.
    pub fn step(&mut self, ev: CaptureEvent) -> (act: CaptureAction)
        requires
            old(self).wf(),
        ensures
            final(self).wf(),
            spec_step(*old(self), ev, *final(self), act),
    {
        match ev {
            CaptureEvent::Begin => {
                if self.phase == CapturePhase::Idle {
                    self.phase = CapturePhase::Triggered;
                    CaptureAction::CallTrigger
                } else {
                    CaptureAction::Ignore
                }
            },
            CaptureEvent::TriggerDone(_) => {
                if self.phase == CapturePhase::Triggered {
                    self.phase = CapturePhase::WaitSize;
                    CaptureAction::CallSize
                } else {
                    CaptureAction::Ignore
                }
            },
            CaptureEvent::SizeReply(reply) => {
                if self.phase == CapturePhase::WaitSize {
                    match reply {
                        Some(text) => {
                            self.phase = CapturePhase::WaitBlockSize;
                            self.size_text = Some(text);
                            CaptureAction::CallBlockSize
                        },
                        None => self.end_empty(),
                    }
                } else {
                    CaptureAction::Ignore
                }
            },
            CaptureEvent::BlockSizeReply(reply) => {
                if self.phase == CapturePhase::WaitBlockSize {
                    match reply {
                        Some(bt) => {
                            let count = match &self.size_text {
                                Some(st) => block_count(st.as_str(), bt.as_str()),
                                None => None,
                            };
                            match count {
                                Some(q) => {
                                    self.phase = CapturePhase::Fetching;
                                    self.block_count = q;
                                    self.next_index = 0;
                                    CaptureAction::CallBlock(0)
                                },
                                None => self.end_empty(),
                            }
                        },
                        None => self.end_empty(),
                    }
                } else {
                    CaptureAction::Ignore
                }
            },
            CaptureEvent::BlockReply(reply) => {
                if self.phase == CapturePhase::Fetching {
                    match reply {
                        Some(bytes) => {
                            let ghost pre_acc = self.accumulated@;
                            let mut j: usize = 0;
                            let m = bytes.len();
                            while j < m
                                invariant
                                    j <= m == bytes@.len(),
                                    self.accumulated@ == pre_acc + bytes@.subrange(0, j as int),
                                    self.phase == old(self).phase,
                                    self.block_count == old(self).block_count,
                                    self.next_index == old(self).next_index,
                                    self.size_text == old(self).size_text,
                                    old(self).wf(),
                                    old(self).phase == CapturePhase::Fetching,
                                decreases m - j,
                            {
                                self.accumulated.push(bytes[j]);
                                proof {
                                    assert(pre_acc + bytes@.subrange(0, j as int + 1) =~= (pre_acc
                                        + bytes@.subrange(0, j as int)).push(bytes@[j as int]));
                                }
                                j = j + 1;
                            }
                            proof {
                                assert(bytes@.subrange(0, m as int) =~= bytes@);
                            }
                            if self.next_index < self.block_count {
                                self.next_index = self.next_index + 1;
                                CaptureAction::CallBlock(self.next_index)
                            } else {
                                self.phase = CapturePhase::Done;
                                CaptureAction::Deliver
                            }
                        },
                        None => {
                            self.phase = CapturePhase::Failed;
                            self.accumulated = Vec::new();
                            CaptureAction::Discard
                        },
                    }
                } else {
                    CaptureAction::Ignore
                }
            },
        }
    }

    /// Ends the sequence early with zero blocks and an empty result.
    fn end_empty(&mut self) -> (act: CaptureAction)
        ensures
            empty_done(*final(self)),
            final(self).wf(),
            act == CaptureAction::Deliver,
    {
        self.phase = CapturePhase::Done;
        self.block_count = 0;
        self.next_index = 0;
        self.accumulated = Vec::new();
        CaptureAction::Deliver
    }
}

/// The 4-byte little-endian groups of an assembled buffer: the IEEE bit
/// patterns of the captured 32-bit samples, in order. A trailing group of
/// fewer than 4 bytes is dropped.
pub fn sample_bits(bytes: &[u8]) -> (r: Vec<u32>)
    ensures
        r@.len() == bytes@.len() / 4,
        forall|i: int|
            0 <= i < r@.len() ==> #[trigger] r@[i] as nat == le_val(
                bytes@.subrange(4 * i, 4 * i + 4),
            ),
{
    proof {
        lemma_pow256_values();
    }
    let n = bytes.len() / 4;
    let mut out: Vec<u32> = Vec::new();
    let mut i: usize = 0;
    while i < n
        invariant
            i <= n,
            n == bytes@.len() / 4,
            bytes@.len() <= usize::MAX,
            out@.len() == i,
            forall|j: int|
                0 <= j < i ==> #[trigger] out@[j] as nat == le_val(
                    bytes@.subrange(4 * j, 4 * j + 4),
                ),
        decreases n - i,
    {
        proof {
            lemma_pow256_values();
            assert(4 * (bytes@.len() / 4) <= bytes@.len());
            assert(4 * i + 4 <= bytes@.len());
        }
        let w = le_decode_at(bytes, 4 * i, 4);
        out.push(w as u32);
        i = i + 1;
    }
    out
}

} // verus!
