use clipboard_win_html::{encode_html_document, Action, Error, Event, Stage, Transfer};

/// A stand-in for the system clipboard, with a step that can be made to fail.
struct FakeClipboard {
    format: u32,
    open: bool,
    contents: Vec<(u32, Vec<u8>)>,
    block: Option<Vec<u8>>,
    fail_at: Option<&'static str>,
    calls: Vec<&'static str>,
}

impl FakeClipboard {
    fn new(fail_at: Option<&'static str>) -> FakeClipboard {
        FakeClipboard { format: 0xC0DE, open: false, contents: Vec::new(), block: None, fail_at, calls: Vec::new() }
    }

    fn outcome(&mut self, step: &'static str) -> bool {
        self.calls.push(step);
        self.fail_at != Some(step)
    }

    /// Drives one transfer of `document` to its end.
    fn publish(&mut self, document: &[u8]) -> Result<(), Error> {
        let mut t = Transfer::new(document.len());
        loop {
            let event = match t.action() {
                Action::RegisterFormat => {
                    if self.outcome("register") {
                        Event::Registered(self.format)
                    } else {
                        Event::Registered(0)
                    }
                }
                Action::OpenClipboard => {
                    assert!(!self.open, "clipboard left open by an earlier transfer");
                    let ok = self.outcome("open");
                    self.open = ok;
                    if ok { Event::Succeeded } else { Event::Failed }
                }
                Action::EmptyClipboard => {
                    let ok = self.outcome("empty");
                    if ok {
                        self.contents.clear();
                        Event::Succeeded
                    } else {
                        Event::Failed
                    }
                }
                Action::AllocateBlock(n) => {
                    let ok = self.outcome("allocate");
                    if ok {
                        self.block = Some(vec![0xAA; n]);
                        Event::Succeeded
                    } else {
                        Event::Failed
                    }
                }
                Action::CopyDocument => {
                    let ok = self.outcome("copy");
                    if ok {
                        self.block.as_mut().unwrap().copy_from_slice(document);
                        Event::Succeeded
                    } else {
                        Event::Failed
                    }
                }
                Action::SetClipboardData(f) => {
                    let ok = self.outcome("commit");
                    if ok {
                        let block = self.block.take().unwrap();
                        self.contents.push((f, block));
                        Event::Succeeded
                    } else {
                        Event::Failed
                    }
                }
                Action::ReleaseBlock => {
                    self.calls.push("release");
                    self.block = None;
                    Event::Succeeded
                }
                Action::CloseClipboard => {
                    let ok = self.outcome("close");
                    self.open = false;
                    if ok { Event::Succeeded } else { Event::Failed }
                }
                Action::Finish(r) => return r,
            };
            t = t.advance(event);
        }
    }

    fn count(&self, step: &str) -> usize {
        self.calls.iter().filter(|c| **c == step).count()
    }
}

#[test]
fn four_transfers_in_succession() {
    let mut clip = FakeClipboard::new(None);
    let fragments = [
        "<h1>Pure, valid, HTML.</h1>",
        "<h1>2nd Pure, valid, HTML.</h1>",
        "<h1>3nd Pure, valid, HTML.</h1>",
        "<h1>4th Pure, valid, HTML.</h1>",
    ];
    for f in fragments {
        let d = encode_html_document(f.as_bytes()).unwrap();
        assert_eq!(clip.publish(&d.bytes), Ok(()));
        assert!(!clip.open);
        assert_eq!(clip.contents.len(), 1);
        assert_eq!(clip.contents[0].0, 0xC0DE);
        assert_eq!(clip.contents[0].1, d.bytes);
    }
    let last = encode_html_document(fragments[3].as_bytes()).unwrap();
    assert_eq!(clip.contents, vec![(0xC0DE, last.bytes)]);
    assert_eq!(clip.count("open"), 4);
    assert_eq!(clip.count("close"), 4);
}

#[test]
fn cooperative_run_asks_in_order() {
    let mut t = Transfer::new(100);
    let mut actions = Vec::new();
    let events = [
        Event::Registered(7),
        Event::Succeeded,
        Event::Succeeded,
        Event::Succeeded,
        Event::Succeeded,
        Event::Succeeded,
        Event::Succeeded,
    ];
    for e in events {
        actions.push(t.action());
        t = t.advance(e);
    }
    assert_eq!(
        actions,
        vec![
            Action::RegisterFormat,
            Action::OpenClipboard,
            Action::EmptyClipboard,
            Action::AllocateBlock(100),
            Action::CopyDocument,
            Action::SetClipboardData(7),
            Action::CloseClipboard,
        ]
    );
    assert!(t.is_finished());
    assert_eq!(t.stage, Stage::Finished);
    assert_eq!(t.action(), Action::Finish(Ok(())));
}

#[test]
fn commit_failure_still_closes_once() {
    let mut clip = FakeClipboard::new(Some("commit"));
    let d = encode_html_document(b"<p>x</p>").unwrap();
    assert_eq!(clip.publish(&d.bytes), Err(Error::SetClipboardError));
    assert_eq!(clip.count("close"), 1);
    assert_eq!(clip.count("release"), 1);
    assert!(clip.contents.is_empty());
    assert!(!clip.open);
}

#[test]
fn open_failure_does_not_close() {
    let mut clip = FakeClipboard::new(Some("open"));
    assert_eq!(clip.publish(b"abc\0"), Err(Error::OpenClipboardError));
    assert_eq!(clip.count("close"), 0);
    assert_eq!(clip.count("empty"), 0);
}

#[test]
fn registration_failure_stops_at_once() {
    let mut clip = FakeClipboard::new(Some("register"));
    assert_eq!(clip.publish(b"abc\0"), Err(Error::FormatRegistrationError));
    assert_eq!(clip.calls, vec!["register"]);
    let t = Transfer::new(4).advance(Event::Succeeded);
    assert_eq!(t.action(), Action::Finish(Err(Error::FormatRegistrationError)));
}

#[test]
fn empty_failure_closes() {
    let mut clip = FakeClipboard::new(Some("empty"));
    assert_eq!(clip.publish(b"abc\0"), Err(Error::EmptyClipboardError));
    assert_eq!(clip.calls, vec!["register", "open", "empty", "close"]);
}

#[test]
fn allocation_failure_closes_without_release() {
    let mut clip = FakeClipboard::new(Some("allocate"));
    assert_eq!(clip.publish(b"abc\0"), Err(Error::MemoryAllocationError));
    assert_eq!(clip.calls, vec!["register", "open", "empty", "allocate", "close"]);
}

#[test]
fn copy_failure_releases_and_closes() {
    let mut clip = FakeClipboard::new(Some("copy"));
    assert_eq!(clip.publish(b"abc\0"), Err(Error::MemoryAllocationError));
    assert_eq!(clip.calls, vec!["register", "open", "empty", "allocate", "copy", "release", "close"]);
}

#[test]
fn close_failure_is_reported_alone() {
    let mut clip = FakeClipboard::new(Some("close"));
    assert_eq!(clip.publish(b"abc\0"), Err(Error::CloseClipboardError));
    assert_eq!(clip.contents.len(), 1);
}

#[test]
fn earlier_failure_wins_over_close_failure() {
    let mut t = Transfer::new(4);
    t = t.advance(Event::Registered(3));
    t = t.advance(Event::Succeeded);
    t = t.advance(Event::Failed);
    assert_eq!(t.action(), Action::CloseClipboard);
    t = t.advance(Event::Failed);
    assert_eq!(t.action(), Action::Finish(Err(Error::EmptyClipboardError)));
    let again = t.advance(Event::Succeeded);
    assert_eq!(again, t);
}
