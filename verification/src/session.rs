//! The UI synchronization layer as an explicit state machine.
//!
//! The editor screen owns the directory being browsed, its listing, the
//! selected file, the in-memory buffer and a save indicator.  Every user
//! interaction and every bridge response is an `Event`; the machine
//! consumes one event at a time and answers with the `Action` the shell
//! must perform.  Listing requests carry identifiers, so of two
//! overlapping listings only the one answering the most recent
//! navigation is applied (last-path-wins).

use vstd::prelude::*;

use crate::fs::{DirEntry, EntryV, FsError};

verus! {

/// The save indicator: the state of the most recent write request.
#[derive(Clone, Copy, Debug, PartialEq, Eq, Structural)]
pub enum SaveState {
    /// No write has been requested since the buffer last changed.
    Idle,
    /// A write was handed to the shell and has not come back.
    Pending,
    /// The most recent write succeeded.
    Saved,
    /// The most recent write failed; the shell must surface this, since
    /// a silent save failure loses data.
    Failed,
}

/// One event the editor screen reacts to.
#[derive(Debug)]
pub enum Event {
    /// The screen was entered or navigated with a directory path; an
    /// empty path means no directory is loaded.
    Navigate { path: String },
    /// A listing requested earlier came back from the bridge.
    ListingArrived { request: u64, listing: Result<Vec<DirEntry>, FsError> },
    /// The user clicked a listing entry.
    EntryClicked { entry: DirEntry },
    /// A file read requested earlier came back from the bridge.
    ReadArrived { path: String, content: Result<String, FsError> },
    /// The user edited the text area; the new text replaces the buffer
    /// wholesale.
    Edited { text: String },
    /// The user pressed a key, with or without control/command, while
    /// the text area had focus.
    KeyPressed { key: char, ctrl_or_cmd: bool },
    /// A write requested earlier came back from the bridge.
    WriteArrived { result: Result<(), FsError> },
}

/// What the shell must do after a step.
#[derive(Debug)]
pub enum Action {
    /// No outside work.
    Nothing,
    /// Suppress the default browser/OS action of the save combination;
    /// no filesystem call is made.
    SuppressKey,
    /// List `path` and answer with `ListingArrived` carrying `request`.
    RequestListing { request: u64, path: String },
    /// Read `path` and answer with `ReadArrived`.
    RequestRead { path: String },
    /// Write `content` to `path`, suppressing the default action of the
    /// save combination, and answer with `WriteArrived`.
    RequestWrite { path: String, content: String },
}

/// The mathematical value of a sequence of listing entries.
pub open spec fn entries_view(es: Seq<DirEntry>) -> Seq<EntryV> {
    es.map_values(|e: DirEntry| e@)
}

/// The mathematical value of one event.
pub ghost enum EventV {
    Navigate { path: Seq<char> },
    ListingArrived { request: nat, listing: Result<Seq<EntryV>, FsError> },
    EntryClicked { entry: EntryV },
    ReadArrived { path: Seq<char>, content: Result<Seq<char>, FsError> },
    Edited { text: Seq<char> },
    KeyPressed { key: char, ctrl_or_cmd: bool },
    WriteArrived { result: Result<(), FsError> },
}

impl View for Event {
    type V = EventV;

    open spec fn view(&self) -> EventV {
        match self {
            Event::Navigate { path } => EventV::Navigate { path: path@ },
            Event::ListingArrived { request, listing } => EventV::ListingArrived {
                request: *request as nat,
                listing: match listing {
                    Ok(es) => Ok(entries_view(es@)),
                    Err(e) => Err(*e),
                },
            },
            Event::EntryClicked { entry } => EventV::EntryClicked { entry: entry@ },
            Event::ReadArrived { path, content } => EventV::ReadArrived {
                path: path@,
                content: match content {
                    Ok(text) => Ok(text@),
                    Err(e) => Err(*e),
                },
            },
            Event::Edited { text } => EventV::Edited { text: text@ },
            Event::KeyPressed { key, ctrl_or_cmd } => EventV::KeyPressed {
                key: *key,
                ctrl_or_cmd: *ctrl_or_cmd,
            },
            Event::WriteArrived { result } => EventV::WriteArrived { result: *result },
        }
    }
}

/// The mathematical value of one action.
pub ghost enum ActionV {
    Nothing,
    SuppressKey,
    RequestListing { request: nat, path: Seq<char> },
    RequestRead { path: Seq<char> },
    RequestWrite { path: Seq<char>, content: Seq<char> },
}

impl View for Action {
    type V = ActionV;

    open spec fn view(&self) -> ActionV {
        match self {
            Action::Nothing => ActionV::Nothing,
            Action::SuppressKey => ActionV::SuppressKey,
            Action::RequestListing { request, path } => ActionV::RequestListing {
                request: *request as nat,
                path: path@,
            },
            Action::RequestRead { path } => ActionV::RequestRead { path: path@ },
            Action::RequestWrite { path, content } => ActionV::RequestWrite {
                path: path@,
                content: content@,
            },
        }
    }
}

/// The mathematical value of the screen's state.
#[verifier::ext_equal]
pub ghost struct SessionV {
    /// The directory being browsed; empty when none is loaded.
    pub current_path: Seq<char>,
    /// The most recently applied listing of `current_path`.
    pub entries: Seq<EntryV>,
    /// The selected file, once a read of it has succeeded.
    pub selected_file: Option<Seq<char>>,
    /// The in-memory text; authoritative once loaded.
    pub buffer: Seq<char>,
    /// The save indicator.
    pub save_state: SaveState,
    /// The identifier the next listing request will carry.
    pub next_request: nat,
    /// The identifier of the listing request answering the most recent
    /// navigation; stale answers are recognized by it.
    pub latest_request: Option<nat>,
}

/// The state a freshly opened editor screen starts in.
pub open spec fn initial_session() -> SessionV {
    SessionV {
        current_path: Seq::empty(),
        entries: Seq::empty(),
        selected_file: None,
        buffer: Seq::empty(),
        save_state: SaveState::Idle,
        next_request: 0,
        latest_request: None,
    }
}

/// One step of the synchronization state machine: the state after the
/// event and the action the shell must perform.
pub open spec fn step_spec(s: SessionV, e: EventV) -> (SessionV, ActionV) {
    match e {
        EventV::Navigate { path } => {
            if path.len() == 0 {
                (
                    SessionV { current_path: path, entries: Seq::empty(), latest_request: None, ..s },
                    ActionV::Nothing,
                )
            } else {
                (
                    SessionV {
                        current_path: path,
                        latest_request: Some(s.next_request),
                        next_request: s.next_request + 1,
                        ..s
                    },
                    ActionV::RequestListing { request: s.next_request, path },
                )
            }
        },
        EventV::ListingArrived { request, listing } => {
            if s.latest_request == Some(request) {
                match listing {
                    Ok(es) => (SessionV { entries: es, ..s }, ActionV::Nothing),
                    Err(_) => (s, ActionV::Nothing),
                }
            } else {
                (s, ActionV::Nothing)
            }
        },
        EventV::EntryClicked { entry } => {
            if entry.is_dir {
                (s, ActionV::Nothing)
            } else {
                (s, ActionV::RequestRead { path: entry.path })
            }
        },
        EventV::ReadArrived { path, content } => match content {
            Ok(text) => (
                SessionV {
                    selected_file: Some(path),
                    buffer: text,
                    save_state: SaveState::Idle,
                    ..s
                },
                ActionV::Nothing,
            ),
            Err(_) => (s, ActionV::Nothing),
        },
        EventV::Edited { text } => (
            SessionV { buffer: text, save_state: SaveState::Idle, ..s },
            ActionV::Nothing,
        ),
        EventV::KeyPressed { key, ctrl_or_cmd } => {
            if key == 's' && ctrl_or_cmd {
                match s.selected_file {
                    Some(p) => (
                        SessionV { save_state: SaveState::Pending, ..s },
                        ActionV::RequestWrite { path: p, content: s.buffer },
                    ),
                    None => (s, ActionV::SuppressKey),
                }
            } else {
                (s, ActionV::Nothing)
            }
        },
        EventV::WriteArrived { result } => match result {
            Ok(_) => (SessionV { save_state: SaveState::Saved, ..s }, ActionV::Nothing),
            Err(_) => (SessionV { save_state: SaveState::Failed, ..s }, ActionV::Nothing),
        },
    }
}

/// The editor screen's state, driven by `step`.
pub struct EditorSession {
    current_path: String,
    entries: Vec<DirEntry>,
    selected_file: Option<String>,
    buffer: String,
    save_state: SaveState,
    next_request: u64,
    latest_request: Option<u64>,
}

impl View for EditorSession {
    type V = SessionV;

    closed spec fn view(&self) -> SessionV {
        SessionV {
            current_path: self.current_path@,
            entries: entries_view(self.entries@),
            selected_file: match self.selected_file {
                Some(p) => Some(p@),
                None => None,
            },
            buffer: self.buffer@,
            save_state: self.save_state,
            next_request: self.next_request as nat,
            latest_request: match self.latest_request {
                Some(r) => Some(r as nat),
                None => None,
            },
        }
    }
}

impl EditorSession {
    /// A freshly opened editor screen.
    pub fn new() -> (s: EditorSession)
        ensures
            s@ == initial_session(),
    {
        let s = EditorSession {
            current_path: String::new(),
            entries: Vec::new(),
            selected_file: None,
            buffer: String::new(),
            save_state: SaveState::Idle,
            next_request: 0,
            latest_request: None,
        };
        proof {
            assert(entries_view(s.entries@) =~= Seq::<EntryV>::empty());
            assert(s@ =~= initial_session());
        }
        s
    }

    /// Whether another navigation can be accepted: the request counter
    /// has room.  The shell checks this before handing in a navigation.
    pub fn can_navigate(&self) -> (r: bool)
        ensures
            r == (self@.next_request < u64::MAX as nat),
    {
        self.next_request < u64::MAX
    }

    /// Consumes one event and returns the action the shell must perform.
    pub fn step(&mut self, e: Event) -> (a: Action)
        requires
            e is Navigate ==> old(self)@.next_request < u64::MAX as nat,
        ensures
            final(self)@ == step_spec(old(self)@, e@).0,
            a@ == step_spec(old(self)@, e@).1,
    {
        match e {
            Event::Navigate { path } => {
                if path.as_str().unicode_len() == 0 {
                    self.current_path = path;
                    self.entries = Vec::new();
                    self.latest_request = None;
                    proof {
                        assert(entries_view(self.entries@) =~= Seq::<EntryV>::empty());
                        assert(self@ =~= step_spec(old(self)@, e@).0);
                    }
                    Action::Nothing
                } else {
                    let req = self.next_request;
                    self.next_request = req + 1;
                    self.latest_request = Some(req);
                    self.current_path = path.clone();
                    proof {
                        assert(self@ =~= step_spec(old(self)@, e@).0);
                    }
                    Action::RequestListing { request: req, path }
                }
            },
            Event::ListingArrived { request, listing } => {
                let fresh = match self.latest_request {
                    Some(r) => r == request,
                    None => false,
                };
                if fresh {
                    match listing {
                        Ok(es) => {
                            self.entries = es;
                            proof {
                                assert(self@ =~= step_spec(old(self)@, e@).0);
                            }
                            Action::Nothing
                        },
                        Err(_) => Action::Nothing,
                    }
                } else {
                    Action::Nothing
                }
            },
            Event::EntryClicked { entry } => {
                if entry.is_dir {
                    Action::Nothing
                } else {
                    Action::RequestRead { path: entry.path }
                }
            },
            Event::ReadArrived { path, content } => {
                match content {
                    Ok(text) => {
                        self.selected_file = Some(path);
                        self.buffer = text;
                        self.save_state = SaveState::Idle;
                        proof {
                            assert(self@ =~= step_spec(old(self)@, e@).0);
                        }
                        Action::Nothing
                    },
                    Err(_) => Action::Nothing,
                }
            },
            Event::Edited { text } => {
                self.buffer = text;
                self.save_state = SaveState::Idle;
                proof {
                    assert(self@ =~= step_spec(old(self)@, e@).0);
                }
                Action::Nothing
            },
            Event::KeyPressed { key, ctrl_or_cmd } => {
                if key == 's' && ctrl_or_cmd {
                    match &self.selected_file {
                        Some(p) => {
                            let path = p.clone();
                            let content = self.buffer.clone();
                            self.save_state = SaveState::Pending;
                            proof {
                                assert(self@ =~= step_spec(old(self)@, e@).0);
                            }
                            Action::RequestWrite { path, content }
                        },
                        None => Action::SuppressKey,
                    }
                } else {
                    Action::Nothing
                }
            },
            Event::WriteArrived { result } => {
                match result {
                    Ok(_) => {
                        self.save_state = SaveState::Saved;
                    },
                    Err(_) => {
                        self.save_state = SaveState::Failed;
                    },
                }
                proof {
                    assert(self@ =~= step_spec(old(self)@, e@).0);
                }
                Action::Nothing
            },
        }
    }

    /// The directory being browsed.
    pub fn current_path(&self) -> (r: &str)
        ensures
            r@ == self@.current_path,
    {
        self.current_path.as_str()
    }

    /// How many entries the displayed listing holds.
    pub fn entry_count(&self) -> (n: usize)
        ensures
            n == self@.entries.len(),
    {
        self.entries.len()
    }

    /// The listing entry at `i`.
    pub fn entry_at(&self, i: usize) -> (e: &DirEntry)
        requires
            i < self@.entries.len(),
        ensures
            e@ == self@.entries[i as int],
    {
        &self.entries[i]
    }

    /// The selected file, if a read of one has succeeded.
    pub fn selected_file(&self) -> (r: &Option<String>)
        ensures
            match r {
                Some(p) => self@.selected_file == Some(p@),
                None => self@.selected_file is None,
            },
    {
        &self.selected_file
    }

    /// The in-memory text.
    pub fn buffer(&self) -> (r: &str)
        ensures
            r@ == self@.buffer,
    {
        self.buffer.as_str()
    }

    /// The save indicator.
    pub fn save_state(&self) -> (r: SaveState)
        ensures
            r == self@.save_state,
    {
        self.save_state
    }
}

/// Selecting a directory entry is a no-op: no read is requested and
/// no state changes.
pub proof fn lemma_directory_click_is_no_op(s: SessionV, entry: EntryV)
    requires
        entry.is_dir,
    ensures
        step_spec(s, EventV::EntryClicked { entry }) == (s, ActionV::Nothing),
{
}

/// The save combination with no file selected performs no filesystem
/// write and changes no state; it only suppresses the key's default.
pub proof fn lemma_save_without_selection(s: SessionV, key: char, ctrl_or_cmd: bool)
    requires
        s.selected_file is None,
    ensures
        step_spec(s, EventV::KeyPressed { key, ctrl_or_cmd }).0 == s,
        !(step_spec(s, EventV::KeyPressed { key, ctrl_or_cmd }).1 is RequestWrite),
{
}

/// The state after a sequence of events, consumed front to back.
pub open spec fn run_events(s: SessionV, es: Seq<EventV>) -> SessionV
    decreases es.len(),
{
    if es.len() == 0 {
        s
    } else {
        run_events(step_spec(s, es[0]).0, es.skip(1))
    }
}

/// Last navigation wins: after navigating to `a` and then to `b`, the
/// listings answering the two requests may arrive in either order, and
/// the listing finally displayed is `b`'s; a stale answer for `a` never
/// overwrites it.
pub proof fn lemma_last_navigation_wins(
    s0: SessionV,
    a: Seq<char>,
    b: Seq<char>,
    la: Seq<EntryV>,
    lb: Seq<EntryV>,
)
    requires
        a.len() > 0,
        b.len() > 0,
    ensures
        ({
            let ra = s0.next_request;
            let rb = s0.next_request + 1;
            let stale_last = seq![
                EventV::Navigate { path: a },
                EventV::Navigate { path: b },
                EventV::ListingArrived { request: rb, listing: Ok(lb) },
                EventV::ListingArrived { request: ra, listing: Ok(la) },
            ];
            let fresh_last = seq![
                EventV::Navigate { path: a },
                EventV::Navigate { path: b },
                EventV::ListingArrived { request: ra, listing: Ok(la) },
                EventV::ListingArrived { request: rb, listing: Ok(lb) },
            ];
            run_events(s0, stale_last).entries == lb && run_events(s0, fresh_last).entries == lb
        }),
{
    let ra = s0.next_request;
    let rb = s0.next_request + 1;
    let e_na = EventV::Navigate { path: a };
    let e_nb = EventV::Navigate { path: b };
    let e_la = EventV::ListingArrived { request: ra, listing: Ok(la) };
    let e_lb = EventV::ListingArrived { request: rb, listing: Ok(lb) };
    let s1 = step_spec(s0, e_na).0;
    let s2 = step_spec(s1, e_nb).0;
    assert(s1.next_request == rb && s1.latest_request == Some(ra));
    assert(s2.latest_request == Some(rb));

    let stale_last = seq![e_na, e_nb, e_lb, e_la];
    let sx = step_spec(s2, e_lb).0;
    let sy = step_spec(sx, e_la).0;
    assert(sx.entries == lb && sx.latest_request == Some(rb));
    assert(sy.entries == lb);
    assert(stale_last.skip(1) =~= seq![e_nb, e_lb, e_la]);
    assert(seq![e_nb, e_lb, e_la].skip(1) =~= seq![e_lb, e_la]);
    assert(seq![e_lb, e_la].skip(1) =~= seq![e_la]);
    assert(seq![e_la].skip(1) =~= Seq::<EventV>::empty());
    assert(run_events(s0, stale_last) == run_events(s1, seq![e_nb, e_lb, e_la]));
    assert(run_events(s1, seq![e_nb, e_lb, e_la]) == run_events(s2, seq![e_lb, e_la]));
    assert(run_events(s2, seq![e_lb, e_la]) == run_events(sx, seq![e_la]));
    assert(run_events(sx, seq![e_la]) == run_events(sy, Seq::<EventV>::empty()));
    assert(run_events(s0, stale_last) == sy);

    let fresh_last = seq![e_na, e_nb, e_la, e_lb];
    let su = step_spec(s2, e_la).0;
    let sv = step_spec(su, e_lb).0;
    assert(su == s2);
    assert(sv.entries == lb);
    assert(fresh_last.skip(1) =~= seq![e_nb, e_la, e_lb]);
    assert(seq![e_nb, e_la, e_lb].skip(1) =~= seq![e_la, e_lb]);
    assert(seq![e_la, e_lb].skip(1) =~= seq![e_lb]);
    assert(seq![e_lb].skip(1) =~= Seq::<EventV>::empty());
    assert(run_events(s0, fresh_last) == run_events(s1, seq![e_nb, e_la, e_lb]));
    assert(run_events(s1, seq![e_nb, e_la, e_lb]) == run_events(s2, seq![e_la, e_lb]));
    assert(run_events(s2, seq![e_la, e_lb]) == run_events(su, seq![e_lb]));
    assert(run_events(su, seq![e_lb]) == run_events(sv, Seq::<EventV>::empty()));
    assert(run_events(s0, fresh_last) == sv);
}

} // verus!
