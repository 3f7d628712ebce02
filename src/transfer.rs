//! The clipboard transfer protocol as a state machine.
//!
//! The machine names the next clipboard step to perform; the caller performs
//! it and reports how it went. The steps come in a fixed order: register the
//! "HTML Format" name, open the clipboard, empty it, allocate a shared block
//! of the document's size, copy the document into it, hand the block over to
//! the clipboard, close the clipboard. The first step that fails decides the
//! error. Once the clipboard is open, every way out passes through exactly one
//! close, and a block that was allocated but not handed over is released first.
use vstd::prelude::*;
use crate::error::Error;

verus! {

/// The name under which the document is published.
pub const HTML_FORMAT_NAME: &'static str = "HTML Format";

/// The step the machine waits on.
#[derive(Debug, Clone, Copy, PartialEq, Eq, Structural)]
pub enum Stage {
    RegisterFormat,
    Open,
    Empty,
    Allocate,
    Copy,
    Commit,
    Release,
    Close,
    Finished,
}

/// How the last requested step went.
#[derive(Debug, Clone, Copy, PartialEq, Eq, Structural)]
pub enum Event {
    /// The format name was registered under this identifier (zero: it was not).
    Registered(u32),
    Succeeded,
    Failed,
}

/// What the caller is asked to do next.
#[derive(Debug, Clone, Copy, PartialEq, Eq)]
pub enum Action {
    /// Register `HTML_FORMAT_NAME` as a clipboard format.
    RegisterFormat,
    OpenClipboard,
    EmptyClipboard,
    /// Allocate a movable shared block of this many bytes.
    AllocateBlock(usize),
    /// Copy the whole document, terminator included, into the block.
    CopyDocument,
    /// Hand the block over to the clipboard under this format identifier.
    SetClipboardData(u32),
    /// Free the block, which the clipboard did not take.
    ReleaseBlock,
    CloseClipboard,
    /// Nothing is left to do; this is the result.
    Finish(Result<(), Error>),
}

/// One transfer of a document of `size` bytes.
#[derive(Debug, Clone, Copy, PartialEq, Eq)]
pub struct Transfer {
    pub stage: Stage,
    /// The identifier the format was registered under, once known.
    pub format: u32,
    /// The byte length of the document, terminator included.
    pub size: usize,
    /// The first failure, reported once the machine has finished.
    pub error: Option<Error>,
}

/// The number of close requests among `actions`.
pub open spec fn close_count(actions: Seq<Action>) -> nat
    decreases actions.len(),
{
    if actions.len() == 0 {
        0
    } else {
        (if actions[0] == Action::CloseClipboard { 1nat } else { 0nat }) + close_count(actions.drop_first())
    }
}

/// The stages at which the clipboard is open, so that a close is owed.
pub open spec fn holds_clipboard(stage: Stage) -> bool {
    match stage {
        Stage::Empty | Stage::Allocate | Stage::Copy | Stage::Commit | Stage::Release
        | Stage::Close => true,
        _ => false,
    }
}

impl Transfer {
    /// The machine before its first step.
    pub open spec fn initial(size: usize) -> Transfer {
        Transfer { stage: Stage::RegisterFormat, format: 0, size, error: None }
    }

    /// No failure is recorded before the hand-over, and one is recorded when a
    /// block is to be released.
    pub open spec fn wf(self) -> bool {
        &&& (match self.stage {
            Stage::RegisterFormat | Stage::Open | Stage::Empty | Stage::Allocate | Stage::Copy
            | Stage::Commit => self.error is None,
            Stage::Release => self.error is Some,
            _ => true,
        })
    }

    /// The result of a finished transfer.
    pub open spec fn result(self) -> Result<(), Error> {
        match self.error {
            Some(e) => Err(e),
            None => Ok(()),
        }
    }

    /// What the caller is to do at this stage.
    pub open spec fn next_action(self) -> Action {
        match self.stage {
            Stage::RegisterFormat => Action::RegisterFormat,
            Stage::Open => Action::OpenClipboard,
            Stage::Empty => Action::EmptyClipboard,
            Stage::Allocate => Action::AllocateBlock(self.size),
            Stage::Copy => Action::CopyDocument,
            Stage::Commit => Action::SetClipboardData(self.format),
            Stage::Release => Action::ReleaseBlock,
            Stage::Close => Action::CloseClipboard,
            Stage::Finished => Action::Finish(self.result()),
        }
    }

    /// The machine after the current step went as `event` says. A
    /// registration succeeds only with a nonzero identifier; any other step
    /// fails only on `Failed`. Failing to open ends the transfer; a later
    /// failure goes on to the close, through the release of a block that was
    /// allocated but not handed over. A failed close is reported only where
    /// nothing failed before it. A finished machine stays as it is.
    pub open spec fn after(self, event: Event) -> Transfer {
        let failed = match (self.stage, event) {
            (Stage::RegisterFormat, Event::Registered(f)) => f == 0,
            (Stage::RegisterFormat, _) => true,
            (_, Event::Failed) => true,
            _ => false,
        };
        match self.stage {
            Stage::RegisterFormat => if failed {
                Transfer {
                    stage: Stage::Finished,
                    error: Some(Error::FormatRegistrationError),
                    ..self
                }
            } else {
                Transfer {
                    stage: Stage::Open,
                    format: match event {
                        Event::Registered(f) => f,
                        _ => 0,
                    },
                    ..self
                }
            },
            Stage::Open => if failed {
                Transfer { stage: Stage::Finished, error: Some(Error::OpenClipboardError), ..self }
            } else {
                Transfer { stage: Stage::Empty, ..self }
            },
            Stage::Empty => if failed {
                Transfer { stage: Stage::Close, error: Some(Error::EmptyClipboardError), ..self }
            } else {
                Transfer { stage: Stage::Allocate, ..self }
            },
            Stage::Allocate => if failed {
                Transfer { stage: Stage::Close, error: Some(Error::MemoryAllocationError), ..self }
            } else {
                Transfer { stage: Stage::Copy, ..self }
            },
            Stage::Copy => if failed {
                Transfer { stage: Stage::Release, error: Some(Error::MemoryAllocationError), ..self }
            } else {
                Transfer { stage: Stage::Commit, ..self }
            },
            Stage::Commit => if failed {
                Transfer { stage: Stage::Release, error: Some(Error::SetClipboardError), ..self }
            } else {
                Transfer { stage: Stage::Close, ..self }
            },
            Stage::Release => Transfer { stage: Stage::Close, ..self },
            Stage::Close => if failed && self.error is None {
                Transfer { stage: Stage::Finished, error: Some(Error::CloseClipboardError), ..self }
            } else {
                Transfer { stage: Stage::Finished, ..self }
            },
            Stage::Finished => self,
        }
    }
}

impl Transfer {
    /// A transfer of a document of `size` bytes, about to register the format.
    pub fn new(size: usize) -> (r: Transfer)
        ensures
            r == Transfer::initial(size),
            r.wf(),
    {
        Transfer { stage: Stage::RegisterFormat, format: 0, size, error: None }
    }

    /// Whether the transfer is over.
    pub fn is_finished(&self) -> (r: bool)
        ensures
            r == (self.stage == Stage::Finished),
    {
        self.stage == Stage::Finished
    }

    /// What the caller is to do now.
    pub fn action(&self) -> (r: Action)
        ensures
            r == self.next_action(),
    {
        match self.stage {
            Stage::RegisterFormat => Action::RegisterFormat,
            Stage::Open => Action::OpenClipboard,
            Stage::Empty => Action::EmptyClipboard,
            Stage::Allocate => Action::AllocateBlock(self.size),
            Stage::Copy => Action::CopyDocument,
            Stage::Commit => Action::SetClipboardData(self.format),
            Stage::Release => Action::ReleaseBlock,
            Stage::Close => Action::CloseClipboard,
            Stage::Finished => Action::Finish(
                match self.error {
                    Some(e) => Err(e),
                    None => Ok(()),
                },
            ),
        }
    }

    /// Takes in how the current step went.
    pub fn advance(self, event: Event) -> (r: Transfer)
        requires
            self.wf(),
        ensures
            r == self.after(event),
            r.wf(),
    {
        let failed = match (self.stage, event) {
            (Stage::RegisterFormat, Event::Registered(f)) => f == 0,
            (Stage::RegisterFormat, _) => true,
            (_, Event::Failed) => true,
            _ => false,
        };
        match self.stage {
            Stage::RegisterFormat => if failed {
                Transfer {
                    stage: Stage::Finished,
                    error: Some(Error::FormatRegistrationError),
                    ..self
                }
            } else {
                Transfer {
                    stage: Stage::Open,
                    format: match event {
                        Event::Registered(f) => f,
                        _ => 0,
                    },
                    ..self
                }
            },
            Stage::Open => if failed {
                Transfer { stage: Stage::Finished, error: Some(Error::OpenClipboardError), ..self }
            } else {
                Transfer { stage: Stage::Empty, ..self }
            },
            Stage::Empty => if failed {
                Transfer { stage: Stage::Close, error: Some(Error::EmptyClipboardError), ..self }
            } else {
                Transfer { stage: Stage::Allocate, ..self }
            },
            Stage::Allocate => if failed {
                Transfer { stage: Stage::Close, error: Some(Error::MemoryAllocationError), ..self }
            } else {
                Transfer { stage: Stage::Copy, ..self }
            },
            Stage::Copy => if failed {
                Transfer { stage: Stage::Release, error: Some(Error::MemoryAllocationError), ..self }
            } else {
                Transfer { stage: Stage::Commit, ..self }
            },
            Stage::Commit => if failed {
                Transfer { stage: Stage::Release, error: Some(Error::SetClipboardError), ..self }
            } else {
                Transfer { stage: Stage::Close, ..self }
            },
            Stage::Release => Transfer { stage: Stage::Close, ..self },
            Stage::Close => if failed && self.error.is_none() {
                Transfer { stage: Stage::Finished, error: Some(Error::CloseClipboardError), ..self }
            } else {
                Transfer { stage: Stage::Finished, ..self }
            },
            Stage::Finished => self,
        }
    }
}

/// Runs the machine from `t` on `events`, one event per step, until it
/// finishes or the events run out: the machine reached and the actions it
/// asked for, in order.
pub open spec fn run(t: Transfer, events: Seq<Event>) -> (Transfer, Seq<Action>)
    decreases events.len(),
{
    if events.len() == 0 || t.stage == Stage::Finished {
        (t, Seq::empty())
    } else {
        let (f, rest) = run(t.after(events[0]), events.drop_first());
        (f, seq![t.next_action()] + rest)
    }
}


/// From a well-formed machine, a run that finishes asks for exactly one close
/// when the clipboard was open at its start or is opened during it (shown by
/// a request to empty it), and for none otherwise.
proof fn lemma_close_count_from(t: Transfer, events: Seq<Event>)
    requires
        t.wf(),
    ensures
        run(t, events).0.stage == Stage::Finished ==> close_count(run(t, events).1) == (if holds_clipboard(
            t.stage,
        ) || run(t, events).1.contains(Action::EmptyClipboard) {
            1nat
        } else {
            0nat
        }),
    decreases events.len(),
{
    if events.len() > 0 && t.stage != Stage::Finished {
        let t2 = t.after(events[0]);
        let rest = events.drop_first();
        lemma_close_count_from(t2, rest);
        let (f, acts) = run(t, events);
        let tail = run(t2, rest).1;
        assert(acts == seq![t.next_action()] + tail);
        assert(acts.drop_first() =~= tail);
        if f.stage == Stage::Finished {
            if t2.stage != Stage::Finished {
                assert(rest.len() > 0);
                assert(tail[0] == t2.next_action());
            }
            if acts.contains(Action::EmptyClipboard) && t.stage != Stage::Empty {
                let i = choose|i: int| 0 <= i < acts.len() && acts[i] == Action::EmptyClipboard;
                assert(tail[i - 1] == Action::EmptyClipboard);
            }
            if tail.contains(Action::EmptyClipboard) {
                let i = choose|i: int| 0 <= i < tail.len() && tail[i] == Action::EmptyClipboard;
                assert(acts[i + 1] == Action::EmptyClipboard);
            }
        }
    }
}

/// Close is requested exactly once in a transfer that opened the clipboard
/// (the clipboard is emptied only after a successful open), and never in one
/// that did not, whatever each step reports, provided the transfer runs to
/// its end.
pub proof fn lemma_close_once(size: usize, events: Seq<Event>)
    ensures
        run(Transfer::initial(size), events).0.stage == Stage::Finished ==> close_count(
            run(Transfer::initial(size), events).1,
        ) == (if run(Transfer::initial(size), events).1.contains(Action::EmptyClipboard) {
            1nat
        } else {
            0nat
        }),
{
    lemma_close_count_from(Transfer::initial(size), events);
}


/// Running on `events` is running on a prefix of them, then on the rest.
proof fn lemma_run_split(t: Transfer, events: Seq<Event>, k: int)
    requires
        0 <= k <= events.len(),
    ensures
        ({
            let (m, first) = run(t, events.take(k));
            let (f, second) = run(m, events.skip(k));
            run(t, events) == (f, first + second)
        }),
    decreases events.len(),
{
    if k == 0 {
        assert(events.take(0) =~= Seq::<Event>::empty());
        assert(events.skip(0) =~= events);
        assert(Seq::<Action>::empty() + run(t, events).1 =~= run(t, events).1);
    } else if t.stage == Stage::Finished {
        assert(Seq::<Action>::empty() + Seq::<Action>::empty() =~= Seq::<Action>::empty());
    } else {
        let t2 = t.after(events[0]);
        let rest = events.drop_first();
        lemma_run_split(t2, rest, k - 1);
        assert(events.take(k).drop_first() =~= rest.take(k - 1));
        assert(events.take(k)[0] == events[0]);
        assert(events.skip(k) =~= rest.skip(k - 1));
        let (m, first) = run(t2, rest.take(k - 1));
        let (f, second) = run(m, rest.skip(k - 1));
        assert(seq![t.next_action()] + (first + second) =~= (seq![t.next_action()] + first)
            + second);
    }
}

/// Close counts add up over concatenation.
proof fn lemma_close_count_concat(a: Seq<Action>, b: Seq<Action>)
    ensures
        close_count(a + b) == close_count(a) + close_count(b),
    decreases a.len(),
{
    if a.len() == 0 {
        assert(a + b =~= b);
    } else {
        lemma_close_count_concat(a.drop_first(), b);
        assert((a + b).drop_first() =~= a.drop_first() + b);
    }
}

/// A run that has not finished has not asked for a close: a close is always
/// the last step.
proof fn lemma_no_close_before_end(t: Transfer, events: Seq<Event>)
    ensures
        run(t, events).0.stage != Stage::Finished ==> close_count(run(t, events).1) == 0,
    decreases events.len(),
{
    if events.len() > 0 && t.stage != Stage::Finished {
        let t2 = t.after(events[0]);
        lemma_no_close_before_end(t2, events.drop_first());
        let acts = run(t, events).1;
        assert(acts.drop_first() =~= run(t2, events.drop_first()).1);
        if t.stage == Stage::Close {
            assert(t2.stage == Stage::Finished);
        }
    }
}

/// The failure recorded once the document was not handed over stays the
/// reported one.
proof fn lemma_failure_kept(t: Transfer, events: Seq<Event>)
    requires
        t.stage == Stage::Release || t.stage == Stage::Close || t.stage == Stage::Finished,
        t.error is Some,
    ensures
        run(t, events).0.error == t.error,
    decreases events.len(),
{
    if events.len() > 0 && t.stage != Stage::Finished {
        lemma_failure_kept(t.after(events[0]), events.drop_first());
    }
}

/// A well-formed machine stays well formed over a run.
proof fn lemma_run_wf(t: Transfer, events: Seq<Event>)
    requires
        t.wf(),
    ensures
        run(t, events).0.wf(),
    decreases events.len(),
{
    if events.len() > 0 && t.stage != Stage::Finished {
        lemma_run_wf(t.after(events[0]), events.drop_first());
    }
}

/// When the hand-over of the block fails, the transfer reports
/// `SetClipboardError`, releases the block and asks for exactly one close,
/// whatever the steps after it report, provided it runs to its end.
pub proof fn lemma_commit_failure(size: usize, events: Seq<Event>, k: int)
    requires
        0 <= k < events.len(),
        run(Transfer::initial(size), events.take(k)).0.stage == Stage::Commit,
        events[k] == Event::Failed,
    ensures
        run(Transfer::initial(size), events).0.stage == Stage::Finished ==> {
            &&& run(Transfer::initial(size), events).0.result() == Err::<(), Error>(
                Error::SetClipboardError,
            )
            &&& close_count(run(Transfer::initial(size), events).1) == 1
            &&& run(Transfer::initial(size), events).1.contains(Action::ReleaseBlock)
        },
{
    let t0 = Transfer::initial(size);
    lemma_run_split(t0, events, k);
    let (m, first) = run(t0, events.take(k));
    let later = events.skip(k);
    let (f, second) = run(m, later);
    lemma_run_wf(t0, events.take(k));
    lemma_no_close_before_end(t0, events.take(k));
    lemma_close_count_from(m, later);
    lemma_close_count_concat(first, second);
    let r = m.after(Event::Failed);
    assert(later[0] == Event::Failed);
    assert(later.drop_first() =~= events.skip(k + 1));
    lemma_failure_kept(r, later.drop_first());
    if f.stage == Stage::Finished {
        assert(later.drop_first().len() > 0);
        let after_failure = run(r, later.drop_first()).1;
        assert(after_failure[0] == Action::ReleaseBlock);
        assert(second == seq![m.next_action()] + after_failure);
        assert((first + second)[first.len() + 1int] == Action::ReleaseBlock);
    }
}

/// When every step succeeds, the transfer registers the format, opens and
/// empties the clipboard, allocates a block of the document's size, fills it,
/// hands it over under the registered identifier and closes the clipboard,
/// and reports success. Nothing depends on earlier transfers: each one starts
/// afresh, and the clipboard is emptied before the new document is set.
pub proof fn lemma_cooperative_run(size: usize, format: u32)
    requires
        format != 0,
    ensures
        run(
            Transfer::initial(size),
            seq![
                Event::Registered(format),
                Event::Succeeded,
                Event::Succeeded,
                Event::Succeeded,
                Event::Succeeded,
                Event::Succeeded,
                Event::Succeeded,
            ],
        ) == (
            Transfer { stage: Stage::Finished, format, size, error: None },
            seq![
                Action::RegisterFormat,
                Action::OpenClipboard,
                Action::EmptyClipboard,
                Action::AllocateBlock(size),
                Action::CopyDocument,
                Action::SetClipboardData(format),
                Action::CloseClipboard,
            ],
        ),
{
    let e = seq![
        Event::Registered(format),
        Event::Succeeded,
        Event::Succeeded,
        Event::Succeeded,
        Event::Succeeded,
        Event::Succeeded,
        Event::Succeeded,
    ];
    let t0 = Transfer::initial(size);
    let t1 = t0.after(e[0]);
    let t2 = t1.after(e[1]);
    let t3 = t2.after(e[2]);
    let t4 = t3.after(e[3]);
    let t5 = t4.after(e[4]);
    let t6 = t5.after(e[5]);
    let t7 = t6.after(e[6]);
    let e1 = e.drop_first();
    let e2 = e1.drop_first();
    let e3 = e2.drop_first();
    let e4 = e3.drop_first();
    let e5 = e4.drop_first();
    let e6 = e5.drop_first();
    let e7 = e6.drop_first();
    assert(e7.len() == 0);
    assert(e1[0] == e[1] && e2[0] == e[2] && e3[0] == e[3] && e4[0] == e[4] && e5[0] == e[5]
        && e6[0] == e[6]);
    assert(run(t7, e7) == (t7, Seq::<Action>::empty()));
    assert(run(t6, e6).1 =~= seq![Action::CloseClipboard]);
    assert(run(t5, e5).1 =~= seq![Action::SetClipboardData(format), Action::CloseClipboard]);
    assert(run(t4, e4).1 =~= seq![
        Action::CopyDocument,
        Action::SetClipboardData(format),
        Action::CloseClipboard,
    ]);
    assert(run(t3, e3).1 =~= seq![
        Action::AllocateBlock(size),
        Action::CopyDocument,
        Action::SetClipboardData(format),
        Action::CloseClipboard,
    ]);
    assert(run(t2, e2).1 =~= seq![
        Action::EmptyClipboard,
        Action::AllocateBlock(size),
        Action::CopyDocument,
        Action::SetClipboardData(format),
        Action::CloseClipboard,
    ]);
    assert(run(t1, e1).1 =~= seq![
        Action::OpenClipboard,
        Action::EmptyClipboard,
        Action::AllocateBlock(size),
        Action::CopyDocument,
        Action::SetClipboardData(format),
        Action::CloseClipboard,
    ]);
    assert(run(t0, e).1 =~= seq![
        Action::RegisterFormat,
        Action::OpenClipboard,
        Action::EmptyClipboard,
        Action::AllocateBlock(size),
        Action::CopyDocument,
        Action::SetClipboardData(format),
        Action::CloseClipboard,
    ]);
}

} // verus!
