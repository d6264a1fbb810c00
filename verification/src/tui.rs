//! The download manager: a queue of links, the items on the screen, and what
//! keys and events do to them.

use std::collections::VecDeque;
use vstd::prelude::*;
use vstd::string::*;

use crate::download::FileJob;
use crate::picker::{add_sizes, wrapped_sum};
use crate::plan::{entry_models, Entry, EntryModel};
use crate::size::{human_size, size_text};
use crate::term::Key;
use crate::text::{
    all_white, chars_of, decimal, is_white, law_trimming, push_decimal, string_of, string_range,
    trim, trimmed,
};

verus! {

// ---------------------------------------------------------------------------
// The queue
// ---------------------------------------------------------------------------

/// A link to download.
#[derive(Debug)]
pub struct Job {
    pub id: u64,
    pub url: String,
    pub dest: String,
    pub selected: Vec<String>,
}

/// The links that wait, the oldest first.
pub struct Queue {
    pub pending: VecDeque<Job>,
}

/// The first `n` jobs without those that are called `id`.
pub open spec fn without(jobs: Seq<Job>, id: u64, n: int) -> Seq<Job>
    decreases n,
{
    if n <= 0 {
        Seq::empty()
    } else {
        let before = without(jobs, id, n - 1);
        if jobs[n - 1].id == id {
            before
        } else {
            before.push(jobs[n - 1])
        }
    }
}

/// What the worker does next.
pub enum QueueStep {
    /// It ends.
    Quit,
    /// It works on this job.
    Work(Job),
    /// It waits until a job is queued, and asks again.
    Wait,
}

/// What the worker does next, with these jobs waiting.
pub open spec fn queue_step(pending: Seq<Job>, quit: bool) -> QueueStep {
    if quit {
        QueueStep::Quit
    } else if pending.len() > 0 {
        QueueStep::Work(pending[0])
    } else {
        QueueStep::Wait
    }
}

impl Queue {
    pub fn new() -> (q: Queue)
        ensures
            q.pending@ == Seq::<Job>::empty(),
    {
        Queue { pending: VecDeque::new() }
    }

    /// Puts a job at the end.
    pub fn push(&mut self, job: Job)
        ensures
            final(self).pending@ == old(self).pending@.push(job),
    {
        self.pending.push_back(job);
    }

    /// Takes the oldest job, if there is one. Quitting comes before all jobs
    /// and leaves them where they are.
    pub fn pop(&mut self, quit: bool) -> (step: QueueStep)
        ensures
            step == queue_step(old(self).pending@, quit),
            final(self).pending@ == (if step is Work {
                old(self).pending@.skip(1)
            } else {
                old(self).pending@
            }),
    {
        if quit {
            return QueueStep::Quit;
        }
        match self.pending.pop_front() {
            Some(job) => {
                assert(self.pending@ =~= old(self).pending@.skip(1));
                QueueStep::Work(job)
            },
            None => QueueStep::Wait,
        }
    }

    /// Takes the jobs called `id` out.
    pub fn remove(&mut self, id: u64)
        ensures
            final(self).pending@ == without(old(self).pending@, id, old(self).pending@.len() as int),
    {
        let ghost all = self.pending@;
        let mut kept: VecDeque<Job> = VecDeque::new();
        let ghost mut n: int = 0;
        assert(all.skip(0) =~= all);
        loop
            invariant
                0 <= n <= all.len(),
                self.pending@ == all.skip(n),
                kept@ == without(all, id, n),
            ensures
                kept@ == without(all, id, all.len() as int),
            decreases all.len() - n,
        {
            match self.pending.pop_front() {
                None => {
                    break;
                },
                Some(job) => {
                    assert(job == all[n]);
                    assert(self.pending@ =~= all.skip(n + 1));
                    if job.id != id {
                        kept.push_back(job);
                    }
                    proof {
                        n = n + 1;
                    }
                },
            }
        }
        self.pending = kept;
    }
}

// ---------------------------------------------------------------------------
// Items and events
// ---------------------------------------------------------------------------

/// How an item is doing. `R` is how a rate is measured.
#[derive(Debug, Clone)]
pub enum Status<R> {
    Queued,
    Active { done: i64, total: i64, rate: R, note: String },
    Verifying,
    Done,
    Error(String),
}

/// One link on the screen. `S` is a sample to measure the rate from.
#[derive(Debug)]
pub struct Item<R, S> {
    pub id: u64,
    pub dest: String,
    pub name: String,
    pub files: usize,
    pub status: Status<R>,
    pub last_sample: Option<S>,
}

/// What a worker reports of an item.
#[derive(Debug)]
pub enum Event<R, S> {
    /// Work on the item begins, at rate `rate`.
    Started { id: u64, name: String, rate: R },
    /// Bytes arrived. The rate was measured, and a new sample taken.
    Progress { id: u64, done: i64, total: i64, rate: R, sample: Option<S> },
    Verifying { id: u64 },
    Note { id: u64, note: String },
    Finished { id: u64 },
    Failed { id: u64, message: String },
}

/// The item that an event is about.
pub open spec fn event_id<R, S>(ev: Event<R, S>) -> u64 {
    match ev {
        Event::Started { id, .. } => id,
        Event::Progress { id, .. } => id,
        Event::Verifying { id } => id,
        Event::Note { id, .. } => id,
        Event::Finished { id } => id,
        Event::Failed { id, .. } => id,
    }
}

/// The first item called `id`, from the `i`th on.
pub open spec fn item_with<R, S>(items: Seq<Item<R, S>>, id: u64, i: int) -> Option<int>
    decreases items.len() - i,
{
    if i >= items.len() {
        None
    } else if items[i].id == id {
        Some(i)
    } else {
        item_with(items, id, i + 1)
    }
}

/// `after` is `before` once `ev` happened to it.
pub open spec fn is_updated<R, S>(before: Item<R, S>, ev: Event<R, S>, after: Item<R, S>) -> bool {
    &&& after.id == before.id
    &&& after.dest == before.dest
    &&& after.files == before.files
    &&& match ev {
        Event::Started { name, rate, .. } => {
            &&& after.name == name
            &&& after.last_sample is None
            &&& after.status matches Status::Active { done, total, rate: r, note }
            &&& done == 0 && total == 0 && r == rate && note@ == Seq::<char>::empty()
        },
        Event::Progress { done: d, total: t, rate, sample, .. } => {
            &&& after.name == before.name
            &&& after.last_sample == sample
            &&& after.status matches Status::Active { done, total, rate: r, note }
            &&& done == (if d < 0 {
                0
            } else {
                d
            })
            &&& total == t && r == rate
            &&& match before.status {
                Status::Active { note: n, .. } => note@ == n@,
                _ => note@ == Seq::<char>::empty(),
            }
        },
        Event::Verifying { .. } => after == (Item { status: Status::Verifying, ..before }),
        Event::Note { note, .. } => match before.status {
            Status::Active { done, total, rate, .. } => after == (Item {
                status: Status::Active { done, total, rate, note },
                ..before
            }),
            _ => after == before,
        },
        Event::Finished { .. } => after == (Item { status: Status::Done, ..before }),
        Event::Failed { message, .. } => after == (Item { status: Status::Error(message), ..before }),
    }
}

/// Finds an item.
pub fn find<R, S>(items: &Vec<Item<R, S>>, id: u64) -> (r: Option<usize>)
    ensures
        match r {
            Some(i) => item_with(items@, id, 0) == Some(i as int) && i < items@.len() && items@[i as int].id == id,
            None => item_with(items@, id, 0) is None,
        },
{
    let mut i: usize = 0;
    while i < items.len()
        invariant
            i <= items@.len(),
            item_with(items@, id, 0) == item_with(items@, id, i as int),
        decreases items@.len() - i,
    {
        if items[i].id == id {
            return Some(i);
        }
        i += 1;
    }
    None
}

fn note_of<R>(status: &Status<R>) -> (note: String)
    ensures
        match *status {
            Status::Active { note: n, .. } => note@ == n@,
            _ => note@ == Seq::<char>::empty(),
        },
{
    match status {
        Status::Active { note, .. } => note.clone(),
        _ => {
            let note = String::new();
            assert(note@ =~= Seq::<char>::empty());
            note
        },
    }
}

fn update<R: Copy, S>(item: &mut Item<R, S>, ev: Event<R, S>)
    ensures
        is_updated(*old(item), ev, *final(item)),
{
    match ev {
        Event::Started { name, rate, .. } => {
            let note = String::new();
            assert(note@ =~= Seq::<char>::empty());
            item.name = name;
            item.status = Status::Active { done: 0, total: 0, rate, note };
            item.last_sample = None;
        },
        Event::Progress { done, total, rate, sample, .. } => {
            let note = note_of(&item.status);
            let done: i64 = if done < 0 {
                0
            } else {
                done
            };
            item.status = Status::Active { done, total, rate, note };
            item.last_sample = sample;
        },
        Event::Verifying { .. } => {
            item.status = Status::Verifying;
        },
        Event::Note { note, .. } => {
            let now: Option<(i64, i64, R)> = match &item.status {
                Status::Active { done, total, rate, .. } => Some((*done, *total, *rate)),
                _ => None,
            };
            if let Some((done, total, rate)) = now {
                item.status = Status::Active { done, total, rate, note };
            }
        },
        Event::Finished { .. } => {
            item.status = Status::Done;
        },
        Event::Failed { message, .. } => {
            item.status = Status::Error(message);
        },
    }
}

fn id_of<R, S>(ev: &Event<R, S>) -> (id: u64)
    ensures
        id == event_id(*ev),
{
    match ev {
        Event::Started { id, .. } => *id,
        Event::Progress { id, .. } => *id,
        Event::Verifying { id } => *id,
        Event::Note { id, .. } => *id,
        Event::Finished { id } => *id,
        Event::Failed { id, .. } => *id,
    }
}

/// Lets an event happen to the item that it is about, if it is still there.
pub fn apply<R: Copy, S>(items: &mut Vec<Item<R, S>>, ev: Event<R, S>)
    ensures
        final(items)@.len() == old(items)@.len(),
        match item_with(old(items)@, event_id(ev), 0) {
            None => final(items)@ == old(items)@,
            Some(i) => {
                &&& is_updated(old(items)@[i], ev, final(items)@[i])
                &&& forall|j: int| 0 <= j < old(items)@.len() && j != i ==> #[trigger] final(items)@[j] == old(items)@[j]
            },
        },
{
    if let Some(i) = find(items, id_of(&ev)) {
        update(&mut items[i], ev);
    }
}

// ---------------------------------------------------------------------------
// Keys
// ---------------------------------------------------------------------------

/// What the screen is waiting for.
#[derive(Debug)]
pub enum Mode {
    List,
    AskUrl { buf: String },
    AskDest { url: String, buf: String },
    Message(String),
}

/// What a mode says.
pub enum ModeModel {
    List,
    AskUrl { buf: Seq<char> },
    AskDest { url: Seq<char>, buf: Seq<char> },
    Message(Seq<char>),
}

impl View for Mode {
    type V = ModeModel;

    open spec fn view(&self) -> ModeModel {
        match self {
            Mode::List => ModeModel::List,
            Mode::AskUrl { buf } => ModeModel::AskUrl { buf: buf@ },
            Mode::AskDest { url, buf } => ModeModel::AskDest { url: url@, buf: buf@ },
            Mode::Message(m) => ModeModel::Message(m@),
        }
    }
}

/// What is to be done after a key.
#[derive(Debug)]
pub enum Action {
    Nothing,
    Quit,
    /// Resolve this link, to download it to `dest`.
    Resolve { url: String, dest: String },
    /// Take this item out of the queue.
    Unqueue(u64),
}

/// What an action says.
pub enum ActionModel {
    Nothing,
    Quit,
    Resolve { url: Seq<char>, dest: Seq<char> },
    Unqueue(u64),
}

impl View for Action {
    type V = ActionModel;

    open spec fn view(&self) -> ActionModel {
        match self {
            Action::Nothing => ActionModel::Nothing,
            Action::Quit => ActionModel::Quit,
            Action::Resolve { url, dest } => ActionModel::Resolve { url: url@, dest: dest@ },
            Action::Unqueue(id) => ActionModel::Unqueue(*id),
        }
    }
}

/// A line of input after a key that edits it.
pub open spec fn edited(buf: Seq<char>, key: Key) -> Seq<char> {
    match key {
        Key::Char(c) => buf.push(c),
        Key::Backspace => if buf.len() > 0 {
            buf.drop_last()
        } else {
            buf
        },
        _ => buf,
    }
}

/// The mode after a key.
pub open spec fn next_mode(mode: ModeModel, key: Key) -> ModeModel {
    match mode {
        ModeModel::Message(_) => ModeModel::List,
        ModeModel::AskUrl { buf } => if key == Key::Esc || key == Key::CtrlC {
            ModeModel::List
        } else if key == Key::Enter {
            if trim(buf).len() == 0 {
                ModeModel::List
            } else {
                ModeModel::AskDest { url: trim(buf), buf: Seq::empty() }
            }
        } else {
            ModeModel::AskUrl { buf: edited(buf, key) }
        },
        ModeModel::AskDest { url, buf } => if key == Key::Esc || key == Key::CtrlC {
            ModeModel::List
        } else if key == Key::Enter {
            ModeModel::Message("resolving link\u{2026}"@)
        } else {
            ModeModel::AskDest { url, buf: edited(buf, key) }
        },
        ModeModel::List => if key == Key::Char('a') {
            ModeModel::AskUrl { buf: Seq::empty() }
        } else {
            ModeModel::List
        },
    }
}

/// An item that nobody works on can be removed.
pub open spec fn is_idle<R>(status: Status<R>) -> bool {
    !(status is Active || status is Verifying)
}

/// The key removes the item under the cursor.
pub open spec fn removes<R, S>(items: Seq<Item<R, S>>, cursor: int, mode: ModeModel, key: Key) -> bool {
    mode is List && key == Key::Char('d') && cursor < items.len() && is_idle(items[cursor].status)
}

/// What is to be done after a key.
pub open spec fn action_for<R, S>(items: Seq<Item<R, S>>, cursor: int, mode: ModeModel, key: Key) -> ActionModel {
    match mode {
        ModeModel::AskDest { url, buf } => if key == Key::Enter {
            ActionModel::Resolve {
                url,
                dest: if trim(buf).len() == 0 {
                    "."@
                } else {
                    trim(buf)
                },
            }
        } else {
            ActionModel::Nothing
        },
        ModeModel::List => if key == Key::CtrlC || key == Key::Char('q') {
            ActionModel::Quit
        } else if removes(items, cursor, mode, key) {
            ActionModel::Unqueue(items[cursor].id)
        } else {
            ActionModel::Nothing
        },
        _ => ActionModel::Nothing,
    }
}

/// The cursor after a key, in a list of `count` items.
pub open spec fn next_cursor(cursor: int, key: Key, count: int) -> int {
    if key == Key::Up || key == Key::Char('k') {
        if cursor == 0 {
            0
        } else {
            cursor - 1
        }
    } else if (key == Key::Down || key == Key::Char('j')) && cursor + 1 < count {
        cursor + 1
    } else {
        cursor
    }
}

/// The screen's state.
pub struct Ui<R, S> {
    pub items: Vec<Item<R, S>>,
    pub cursor: usize,
    pub mode: Mode,
    pub next_id: u64,
}

fn pop_last(s: &str) -> (r: String)
    ensures
        r@ == (if s@.len() > 0 {
            s@.drop_last()
        } else {
            s@
        }),
{
    let v = chars_of(s);
    if v.len() == 0 {
        return s.to_owned();
    }
    let r = string_range(&v, 0, v.len() - 1);
    assert(r@ =~= s@.drop_last());
    r
}

fn edit(buf: &str, key: Key) -> (r: String)
    ensures
        r@ == edited(buf@, key),
{
    match key {
        Key::Char(c) => {
            let mut r = buf.to_owned();
            r.push(c);
            r
        },
        Key::Backspace => pop_last(buf),
        _ => buf.to_owned(),
    }
}

fn trim_text(s: &str) -> (r: String)
    ensures
        r@ == trim(s@),
{
    string_of(&trimmed(s))
}

/// How many files are fetched of a link that has `all`: those that were
/// chosen, and all of them where none were.
pub open spec fn files_chosen(chosen: nat, all: nat) -> int {
    if chosen == 0 {
        all as int
    } else {
        chosen as int
    }
}

/// Where the cursor stands once the item under it was removed, and `left`
/// items are left.
pub open spec fn cursor_after_removal(at: int, left: int) -> int {
    if at > 0 && at >= left {
        at - 1
    } else {
        at
    }
}

impl<R, S> Ui<R, S> {
    /// The cursor stands on an item, if there is one. Items are numbered in
    /// order, and none has a number twice.
    pub open spec fn wf(&self) -> bool {
        &&& self.cursor < self.items@.len() || self.cursor == 0
        &&& forall|a: int| 0 <= a < self.items@.len() ==> (#[trigger] self.items@[a]).id < self.next_id
        &&& forall|a: int, b: int|
            0 <= a < b < self.items@.len() ==> (#[trigger] self.items@[a]).id < (#[trigger] self.items@[b]).id
    }

    pub fn new() -> (ui: Ui<R, S>)
        ensures
            ui.wf(),
            ui.items@ == Seq::<Item<R, S>>::empty(),
            ui.cursor == 0,
            ui.mode is List,
            ui.next_id == 1,
    {
        Ui { items: Vec::new(), cursor: 0, mode: Mode::List, next_id: 1 }
    }

    /// Removes the item under the cursor, if nobody works on it.
    fn remove_item(&mut self) -> (action: Action)
        requires
            old(self).wf(),
            old(self).mode is List,
        ensures
            final(self).wf(),
            final(self).mode == old(self).mode,
            final(self).next_id == old(self).next_id,
            ({
                let at = old(self).cursor as int;
                if removes(old(self).items@, at, ModeModel::List, Key::Char('d')) {
                    &&& action@ == ActionModel::Unqueue(old(self).items@[at].id)
                    &&& final(self).items@ == old(self).items@.remove(at)
                    &&& final(self).cursor == cursor_after_removal(at, final(self).items@.len() as int)
                } else {
                    &&& action@ == ActionModel::Nothing
                    &&& final(self).items@ == old(self).items@
                    &&& final(self).cursor == old(self).cursor
                }
            }),
    {
        if self.cursor >= self.items.len() {
            return Action::Nothing;
        }
        match &self.items[self.cursor].status {
            Status::Active { .. } | Status::Verifying => return Action::Nothing,
            _ => {},
        }
        let id: u64 = self.items[self.cursor].id;
        let ghost before = self.items@;
        let removed = self.items.remove(self.cursor);
        assert(self.items@ =~= before.remove(self.cursor as int));
        if self.cursor > 0 && self.cursor >= self.items.len() {
            self.cursor = self.cursor - 1;
        }
        Action::Unqueue(id)
    }

    /// Takes a key.
    pub fn on_key(&mut self, key: Key) -> (action: Action)
        requires
            old(self).wf(),
        ensures
            final(self).wf(),
            final(self).next_id == old(self).next_id,
            final(self).mode@ == next_mode(old(self).mode@, key),
            action@ == action_for(old(self).items@, old(self).cursor as int, old(self).mode@, key),
            if removes(old(self).items@, old(self).cursor as int, old(self).mode@, key) {
                let at = old(self).cursor as int;
                &&& final(self).items@ == old(self).items@.remove(at)
                &&& final(self).cursor == cursor_after_removal(at, final(self).items@.len() as int)
            } else {
                &&& final(self).items@ == old(self).items@
                &&& final(self).cursor == (if old(self).mode is List {
                    next_cursor(old(self).cursor as int, key, old(self).items@.len() as int)
                } else {
                    old(self).cursor as int
                })
            },
    {
        match &self.mode {
            Mode::Message(_) => {
                self.mode = Mode::List;
                Action::Nothing
            },
            Mode::AskUrl { buf } => {
                match key {
                    Key::Esc | Key::CtrlC => {
                        self.mode = Mode::List;
                    },
                    Key::Enter => {
                        let url = trim_text(buf.as_str());
                        if url.as_str().is_empty() {
                            self.mode = Mode::List;
                        } else {
                            let buf = String::new();
                            assert(buf@ =~= Seq::<char>::empty());
                            self.mode = Mode::AskDest { url, buf };
                        }
                    },
                    _ => {
                        let now = edit(buf.as_str(), key);
                        self.mode = Mode::AskUrl { buf: now };
                    },
                }
                Action::Nothing
            },
            Mode::AskDest { url, buf } => match key {
                Key::Esc | Key::CtrlC => {
                    self.mode = Mode::List;
                    Action::Nothing
                },
                Key::Enter => {
                    let url = url.clone();
                    let text = trim_text(buf.as_str());
                    let dest = if text.as_str().is_empty() {
                        ".".to_owned()
                    } else {
                        text
                    };
                    self.mode = Mode::Message("resolving link\u{2026}".to_owned());
                    Action::Resolve { url, dest }
                },
                _ => {
                    let url = url.clone();
                    let now = edit(buf.as_str(), key);
                    self.mode = Mode::AskDest { url, buf: now };
                    Action::Nothing
                },
            },
            Mode::List => match key {
                Key::CtrlC | Key::Char('q') => Action::Quit,
                Key::Up | Key::Char('k') => {
                    if self.cursor > 0 {
                        self.cursor = self.cursor - 1;
                    }
                    Action::Nothing
                },
                Key::Down | Key::Char('j') => {
                    if self.items.len() > 0 && self.cursor < self.items.len() - 1 {
                        self.cursor = self.cursor + 1;
                    }
                    Action::Nothing
                },
                Key::Char('a') => {
                    let buf = String::new();
                    assert(buf@ =~= Seq::<char>::empty());
                    self.mode = Mode::AskUrl { buf };
                    Action::Nothing
                },
                Key::Char('d') => self.remove_item(),
                _ => Action::Nothing,
            },
        }
    }

    /// Lets an event happen to the item that it is about, if it is still
    /// there.
    pub fn on_event(&mut self, ev: Event<R, S>) where R: Copy
        requires
            old(self).wf(),
        ensures
            final(self).wf(),
            final(self).cursor == old(self).cursor,
            final(self).mode == old(self).mode,
            final(self).next_id == old(self).next_id,
            final(self).items@.len() == old(self).items@.len(),
            match item_with(old(self).items@, event_id(ev), 0) {
                None => final(self).items@ == old(self).items@,
                Some(i) => {
                    &&& is_updated(old(self).items@[i], ev, final(self).items@[i])
                    &&& forall|j: int|
                        0 <= j < old(self).items@.len() && j != i ==> #[trigger] final(self).items@[j]
                            == old(self).items@[j]
                },
            },
    {
        apply(&mut self.items, ev);
        assert forall|a: int| 0 <= a < self.items@.len() implies (#[trigger] self.items@[a]).id == old(
            self,
        ).items@[a].id by {}
    }

    /// The link could not be resolved.
    pub fn on_resolve_error(&mut self, message: &str)
        requires
            old(self).wf(),
        ensures
            final(self).wf(),
            final(self).items == old(self).items,
            final(self).cursor == old(self).cursor,
            final(self).next_id == old(self).next_id,
            final(self).mode@ == ModeModel::Message("\x1b[31m"@ + message@ + "\x1b[0m  (any key)"@),
    {
        let mut text = String::new();
        text.append("\x1b[31m");
        text.append(message);
        text.append("\x1b[0m  (any key)");
        assert(text@ =~= "\x1b[31m"@ + message@ + "\x1b[0m  (any key)"@);
        self.mode = Mode::Message(text);
    }

    /// Files of a resolved link were chosen; none means all. The link gets
    /// an item, and a job to queue, unless the user cancelled or there is
    /// nothing to fetch.
    pub fn on_chosen(
        &mut self,
        selected: Option<Vec<String>>,
        file_count: usize,
        name: String,
        url: String,
        dest: String,
    ) -> (r: Option<Job>)
        requires
            old(self).wf(),
            old(self).next_id < u64::MAX,
        ensures
            final(self).wf(),
            ({
                let unchanged = final(self).items == old(self).items && final(self).cursor == old(self).cursor
                    && final(self).next_id == old(self).next_id && r is None;
                match selected {
                    None => unchanged && final(self).mode@ == ModeModel::List,
                    Some(sel) => {
                        let count = files_chosen(sel@.len(), file_count as nat);
                        if count == 0 {
                            unchanged && final(self).mode@ == ModeModel::Message(
                                "\x1b[33mnothing selected\x1b[0m  (any key)"@,
                            )
                        } else {
                            let id = old(self).next_id;
                            &&& final(self).mode@ == ModeModel::List
                            &&& final(self).next_id == id + 1
                            &&& final(self).cursor == old(self).items@.len()
                            &&& final(self).items@.len() == old(self).items@.len() + 1
                            &&& final(self).items@.drop_last() == old(self).items@
                            &&& is_new_item(final(self).items@.last(), id, dest@, name@, count)
                            &&& r matches Some(job)
                            &&& job.id == id && job.url == url && job.dest@ == dest@ && job.selected == sel
                        }
                    },
                }
            }),
    {
        let sel = match selected {
            None => {
                self.mode = Mode::List;
                return None;
            },
            Some(sel) => sel,
        };
        let count: usize = if sel.len() == 0 {
            file_count
        } else {
            sel.len()
        };
        if count == 0 {
            self.mode = Mode::Message("\x1b[33mnothing selected\x1b[0m  (any key)".to_owned());
            return None;
        }
        let id: u64 = self.next_id;
        self.next_id = id + 1;
        let ghost before = self.items@;
        let item = Item {
            id,
            dest: dest.clone(),
            name,
            files: count,
            status: Status::Queued,
            last_sample: None,
        };
        self.items.push(item);
        assert(self.items@.drop_last() =~= before);
        self.cursor = self.items.len() - 1;
        self.mode = Mode::List;
        Some(Job { id, url, dest, selected: sel })
    }
}

/// An item that waits.
pub open spec fn is_new_item<R, S>(
    item: Item<R, S>,
    id: u64,
    dest: Seq<char>,
    name: Seq<char>,
    files: int,
) -> bool {
    &&& item.id == id
    &&& item.dest@ == dest
    &&& item.name@ == name
    &&& item.files == files
    &&& item.status is Queued
    &&& item.last_sample is None
}

/// How many of the first `n` entries are files.
pub open spec fn count_files(entries: Seq<EntryModel>, n: int) -> nat
    decreases n,
{
    if n <= 0 {
        0
    } else if entries[n - 1].is_dir {
        count_files(entries, n - 1)
    } else {
        count_files(entries, n - 1) + 1
    }
}

/// How many files a listing holds.
pub fn file_count(entries: &[Entry]) -> (n: usize)
    ensures
        n == count_files(entry_models(entries@), entries@.len() as int),
{
    let ghost all = entry_models(entries@);
    let mut n: usize = 0;
    let mut i: usize = 0;
    while i < entries.len()
        invariant
            n <= i <= entries@.len(),
            all == entry_models(entries@),
            n == count_files(all, i as int),
        decreases entries@.len() - i,
    {
        assert(all[i as int] == entries@[i as int]@);
        if !entries[i].is_dir {
            n += 1;
        }
        i += 1;
    }
    n
}

/// There is something to choose from.
pub open spec fn is_choice(is_folder: bool, files: nat) -> bool {
    is_folder && files > 1
}

/// Whether files are to be chosen: a folder with more than one.
pub fn needs_choice(is_folder: bool, files: usize) -> (b: bool)
    ensures
        b == is_choice(is_folder, files as nat),
{
    is_folder && files > 1
}

// ---------------------------------------------------------------------------
// The worker
// ---------------------------------------------------------------------------

/// The size of the first `n` files.
pub open spec fn total_size(jobs: Seq<FileJob>, n: int) -> int
    decreases n,
{
    if n <= 0 {
        0
    } else {
        wrapped_sum(total_size(jobs, n - 1), jobs[n - 1].size as int)
    }
}

/// What the worker does next for an item.
#[derive(Debug, Clone, Copy, PartialEq, Eq, Structural)]
pub enum BatchStep {
    /// Fetch the file with this number.
    Sync(usize),
    /// Every file is there.
    Finished,
    /// A file failed, or the work was cancelled.
    Stopped,
}

/// What the worker does next for an item with `count` files, at the file
/// with the number `next`.
pub open spec fn batch_step(stopped: bool, next: usize, count: nat) -> BatchStep {
    if stopped {
        BatchStep::Stopped
    } else if next < count {
        BatchStep::Sync(next)
    } else {
        BatchStep::Finished
    }
}

/// The files of an item while they are fetched, one after the other.
/// Progress is reported over all of them, so that it shows one bar that
/// advances to the end.
pub struct Batch {
    pub id: u64,
    /// The size of all files.
    pub grand_total: i64,
    /// The size of the files that are complete.
    pub completed: i64,
    /// The number of the file at hand.
    pub next: usize,
    pub stopped: bool,
}

impl Batch {
    /// The sizes are those of the files, and of those that are complete.
    pub open spec fn is_for(&self, jobs: Seq<FileJob>) -> bool {
        &&& self.next <= jobs.len()
        &&& self.grand_total == total_size(jobs, jobs.len() as int)
        &&& self.completed == total_size(jobs, self.next as int)
    }

    pub fn new(id: u64, jobs: &[FileJob]) -> (b: Batch)
        ensures
            b.is_for(jobs@),
            b.id == id,
            b.next == 0,
            !b.stopped,
    {
        let mut total: i64 = 0;
        let mut i: usize = 0;
        while i < jobs.len()
            invariant
                i <= jobs@.len(),
                total == total_size(jobs@, i as int),
            decreases jobs@.len() - i,
        {
            total = add_sizes(total, jobs[i].size);
            i += 1;
        }
        Batch { id, grand_total: total, completed: 0, next: 0, stopped: false }
    }

    /// What to do next.
    pub fn step(&self, jobs: &[FileJob]) -> (step: BatchStep)
        requires
            self.is_for(jobs@),
        ensures
            step == batch_step(self.stopped, self.next, jobs@.len()),
    {
        if self.stopped {
            BatchStep::Stopped
        } else if self.next < jobs.len() {
            BatchStep::Sync(self.next)
        } else {
            BatchStep::Finished
        }
    }

    /// The file at hand was fetched, or not.
    pub fn on_synced(&mut self, jobs: &[FileJob], ok: bool)
        requires
            old(self).is_for(jobs@),
            old(self).next < jobs@.len(),
        ensures
            final(self).is_for(jobs@),
            final(self).id == old(self).id,
            final(self).next == old(self).next + if ok {
                1int
            } else {
                0
            },
            final(self).stopped == (old(self).stopped || !ok),
    {
        if ok {
            self.completed = add_sizes(self.completed, jobs[self.next].size);
            self.next = self.next + 1;
        } else {
            self.stopped = true;
        }
    }

    /// How much is done, with `done` bytes of the file at hand.
    pub fn at(&self, done: i64) -> (all: i64)
        ensures
            all == wrapped_sum(self.completed as int, done as int),
    {
        add_sizes(self.completed, done)
    }
}

/// The note for a partial file that is reused.
pub fn resume_note(from: i64) -> (note: String)
    ensures
        note@ == "resuming at "@ + size_text(from as int),
{
    let mut note = String::new();
    note.append("resuming at ");
    note.append(human_size(from).as_str());
    assert(note@ =~= "resuming at "@ + size_text(from as int));
    note
}

/// The note for a pause.
pub fn retry_note(reason: &str, attempt: u32, delay_secs: u64) -> (note: String)
    ensures
        note@ == reason@ + " \u{b7} retry "@ + decimal(attempt as nat) + " in "@ + decimal(delay_secs as nat) + seq!['s'],
{
    let mut note = reason.to_owned();
    note.append(" \u{b7} retry ");
    push_decimal(&mut note, attempt as u64);
    note.append(" in ");
    push_decimal(&mut note, delay_secs);
    note.push('s');
    assert(note@ =~= reason@ + " \u{b7} retry "@ + decimal(attempt as nat) + " in "@ + decimal(delay_secs as nat)
        + seq!['s']);
    note
}

// ---------------------------------------------------------------------------
// Laws
// ---------------------------------------------------------------------------

/// What was removed is gone from the queue, and the rest waits in the order
/// in which it came.
pub proof fn law_removing_keeps_the_rest(jobs: Seq<Job>, id: u64, n: int)
    requires
        0 <= n <= jobs.len(),
    ensures
        without(jobs, id, n).len() <= n,
        forall|a: int| 0 <= a < without(jobs, id, n).len() ==> (#[trigger] without(jobs, id, n)[a]).id != id,
        forall|i: int| 0 <= i < n && (#[trigger] jobs[i]).id != id ==> without(jobs, id, n).contains(jobs[i]),
        (forall|i: int| 0 <= i < n ==> (#[trigger] jobs[i]).id != id) ==> without(jobs, id, n) == jobs.take(n),
    decreases n,
{
    if n > 0 {
        law_removing_keeps_the_rest(jobs, id, n - 1);
        let before = without(jobs, id, n - 1);
        let all = without(jobs, id, n);
        assert forall|i: int| 0 <= i < n && (#[trigger] jobs[i]).id != id implies all.contains(jobs[i]) by {
            if i < n - 1 {
                let a = choose|a: int| 0 <= a < before.len() && before[a] == jobs[i];
                assert(all[a] == jobs[i]);
            } else {
                assert(all.last() == jobs[i]);
            }
        }
        if forall|i: int| 0 <= i < n ==> (#[trigger] jobs[i]).id != id {
            assert(jobs.take(n) =~= jobs.take(n - 1).push(jobs[n - 1]));
        }
    } else {
        assert(jobs.take(0) =~= Seq::<Job>::empty());
    }
}

/// Once every file is complete, so is the bar.
pub proof fn law_bar_advances_to_the_end(b: Batch, jobs: Seq<FileJob>)
    requires
        b.is_for(jobs),
        b.next == jobs.len(),
    ensures
        b.completed == b.grand_total,
{
}

/// Removing a job leaves all the others, in order and no more often than
/// before.
pub proof fn law_removing_filters(jobs: Seq<Job>, id: u64, n: int)
    requires
        0 <= n <= jobs.len(),
    ensures
        without(jobs, id, n) == jobs.take(n).filter(|j: Job| j.id != id),
    decreases n,
{
    reveal(Seq::filter);
    let head = jobs.take(n);
    if n > 0 {
        law_removing_filters(jobs, id, n - 1);
        assert(head.drop_last() =~= jobs.take(n - 1));
        assert(head.last() == jobs[n - 1]);
    } else {
        assert(head =~= Seq::<Job>::empty());
    }
}

proof fn lemma_item_from<R, S>(items: Seq<Item<R, S>>, id: u64, from: int, i: int)
    requires
        0 <= from <= i <= items.len(),
        forall|j: int| from <= j < i ==> (#[trigger] items[j]).id != id,
        i < items.len() ==> items[i].id == id,
    ensures
        item_with(items, id, from) == (if i < items.len() {
            Some(i)
        } else {
            None
        }),
    decreases i - from,
{
    if from < i {
        lemma_item_from(items, id, from + 1, i);
    }
}

/// An event reaches the item with its number, wherever that stands, and no
/// item where none has the number.
pub proof fn law_events_find_their_item<R, S>(items: Seq<Item<R, S>>, ev: Event<R, S>, id: u64, i: int)
    requires
        0 <= i <= items.len(),
        forall|j: int| 0 <= j < i ==> (#[trigger] items[j]).id != id,
        i < items.len() ==> items[i].id == id,
    ensures
        i < items.len() ==> item_with(items, id, 0) == Some(i),
        i == items.len() ==> item_with(items, id, 0) is None,
        event_id(ev) == (match ev {
            Event::Started { id, .. } => id,
            Event::Progress { id, .. } => id,
            Event::Verifying { id } => id,
            Event::Note { id, .. } => id,
            Event::Finished { id } => id,
            Event::Failed { id, .. } => id,
        }),
{
    lemma_item_from(items, id, 0, i);
}

/// What an event does not speak of stays: the number of an item, where it
/// goes and how many files it has, and but for a start its name too.
pub proof fn law_events_keep_the_rest<R, S>(before: Item<R, S>, ev: Event<R, S>, after: Item<R, S>)
    requires
        is_updated(before, ev, after),
    ensures
        after.id == before.id,
        after.dest == before.dest,
        after.files == before.files,
        !(ev is Started) ==> after.name == before.name,
        !(ev is Started || ev is Progress) ==> after.last_sample == before.last_sample,
{
}

/// A start makes an item active from nothing on, under its name. Progress
/// makes it active with what is done, never less than nothing, and keeps the
/// note of an active one. A note changes only the note of an active item.
pub proof fn law_active_items<R, S>(before: Item<R, S>, ev: Event<R, S>, after: Item<R, S>)
    requires
        is_updated(before, ev, after),
    ensures
        ev matches Event::Started { name, rate, .. } ==> after.name == name && (after.status matches Status::Active {
            done,
            total,
            rate: r,
            note,
        } && done == 0 && total == 0 && r == rate && note@.len() == 0),
        ev matches Event::Progress { done: d, total: t, rate, .. } ==> (after.status matches Status::Active {
            done,
            total,
            rate: r,
            note,
        } && total == t && r == rate && done >= 0 && (d >= 0 ==> done == d) && (d < 0 ==> done == 0) && (before.status
            matches Status::Active { note: n, .. } ==> note@ == n@) && (!(before.status is Active) ==> note@.len() == 0)),
        ev matches Event::Note { note: x, .. } ==> (before.status matches Status::Active { done: d, total: t, rate: r, .. }
            ==> (after.status matches Status::Active { done, total, rate, note } && done == d && total == t && rate == r
            && note == x)),
        ev is Note && !(before.status is Active) ==> after.status == before.status,
{
}

/// An item is verified, done or failed as soon as an event says so, whatever
/// it was before.
pub proof fn law_items_end<R, S>(before: Item<R, S>, ev: Event<R, S>, after: Item<R, S>)
    requires
        is_updated(before, ev, after),
    ensures
        ev is Verifying ==> after.status is Verifying,
        ev is Finished ==> after.status is Done,
        ev matches Event::Failed { message, .. } ==> after.status == Status::<R>::Error(message),
        after.status is Done ==> ev is Finished || (ev is Note && before.status is Done),
        after.status is Error ==> ev is Failed || (ev is Note && before.status is Error),
{
}

/// A character that is typed stands at the end, and a backspace takes it
/// away again. A backspace on nothing does nothing, and neither does any
/// other key.
pub proof fn law_editing(buf: Seq<char>, c: char, key: Key)
    ensures
        edited(buf, Key::Char(c)).len() == buf.len() + 1,
        edited(buf, Key::Char(c)).last() == c,
        edited(edited(buf, Key::Char(c)), Key::Backspace) == buf,
        edited(Seq::empty(), Key::Backspace) == Seq::<char>::empty(),
        !(key is Char) && !(key is Backspace) ==> edited(buf, key) == buf,
{
    assert(buf.push(c).drop_last() =~= buf);
}

/// A link is added in three steps: one key asks for the address, Enter takes
/// it and asks for the directory, and Enter resolves the link. White space
/// round either does not count, and without a directory it is the current
/// one. Without an address nothing is added.
pub proof fn law_adding_a_link<R, S>(
    items: Seq<Item<R, S>>,
    cursor: int,
    a: Seq<char>,
    url: Seq<char>,
    b: Seq<char>,
    dest: Seq<char>,
)
    requires
        all_white(a) && all_white(b),
        url.len() > 0 ==> !is_white(url[0]) && !is_white(url.last()),
        dest.len() > 0 ==> !is_white(dest[0]) && !is_white(dest.last()),
    ensures
        next_mode(ModeModel::List, Key::Char('a')) == (ModeModel::AskUrl { buf: Seq::empty() }),
        url.len() > 0 ==> next_mode(ModeModel::AskUrl { buf: a + url + b }, Key::Enter) == (ModeModel::AskDest {
            url,
            buf: Seq::empty(),
        }),
        url.len() == 0 ==> next_mode(ModeModel::AskUrl { buf: a + url + b }, Key::Enter) is List,
        action_for(items, cursor, ModeModel::AskDest { url, buf: a + dest + b }, Key::Enter) == (ActionModel::Resolve {
            url,
            dest: if dest.len() > 0 {
                dest
            } else {
                seq!['.']
            },
        }),
        next_mode(ModeModel::AskDest { url, buf: a + dest + b }, Key::Enter) is Message,
{
    law_trimming(a, url, b);
    law_trimming(a, dest, b);
    reveal_strlit(".");
    assert("."@ =~= seq!['.']);
}

/// While something is asked for, Esc and Ctrl-C go back to the list, and
/// typing goes into what is asked for; the address that was entered stays.
/// Nothing else comes of it.
pub proof fn law_asking<R, S>(items: Seq<Item<R, S>>, cursor: int, url: Seq<char>, buf: Seq<char>, key: Key, c: char)
    ensures
        key is Esc || key is CtrlC ==> next_mode(ModeModel::AskUrl { buf }, key) is List && next_mode(
            ModeModel::AskDest { url, buf },
            key,
        ) is List,
        next_mode(ModeModel::AskUrl { buf }, Key::Char(c)) == (ModeModel::AskUrl { buf: buf.push(c) }),
        next_mode(ModeModel::AskDest { url, buf }, Key::Char(c)) == (ModeModel::AskDest { url, buf: buf.push(c) }),
        buf.len() > 0 ==> next_mode(ModeModel::AskUrl { buf }, Key::Backspace) == (ModeModel::AskUrl {
            buf: buf.drop_last(),
        }),
        buf.len() > 0 ==> next_mode(ModeModel::AskDest { url, buf }, Key::Backspace) == (ModeModel::AskDest {
            url,
            buf: buf.drop_last(),
        }),
        action_for(items, cursor, ModeModel::AskUrl { buf }, key) is Nothing,
        key != Key::Enter ==> action_for(items, cursor, ModeModel::AskDest { url, buf }, key) is Nothing,
{
}

/// A message goes away with any key, which does nothing else. In the list,
/// only one key leads away from it.
pub proof fn law_messages_go_away<R, S>(items: Seq<Item<R, S>>, cursor: int, m: Seq<char>, key: Key)
    ensures
        next_mode(ModeModel::Message(m), key) is List,
        action_for(items, cursor, ModeModel::Message(m), key) is Nothing,
        key != Key::Char('a') ==> next_mode(ModeModel::List, key) is List,
{
}

/// Quitting takes q or Ctrl-C in the list. There, d removes the item under
/// the cursor, unless it is being worked on.
pub proof fn law_keys_in_the_list<R, S>(items: Seq<Item<R, S>>, cursor: int, mode: ModeModel, key: Key)
    requires
        0 <= cursor,
    ensures
        action_for(items, cursor, mode, key) is Quit <==> mode is List && (key is CtrlC || key == Key::Char('q')),
        mode is List && key == Key::Char('d') && cursor < items.len() ==> {
            let busy = items[cursor].status is Active || items[cursor].status is Verifying;
            &&& !busy ==> action_for(items, cursor, mode, key) == ActionModel::Unqueue(items[cursor].id)
            &&& busy ==> action_for(items, cursor, mode, key) is Nothing
            &&& removes(items, cursor, mode, key) <==> !busy
        },
        removes(items, cursor, mode, key) ==> mode is List && key == Key::Char('d') && cursor < items.len(),
        action_for(items, cursor, mode, key) is Unqueue ==> removes(items, cursor, mode, key),
{
}

/// The cursor goes up and down by one item and stops at the ends; no other
/// key moves it.
pub proof fn law_cursor_in_the_list(cursor: int, key: Key, count: int)
    requires
        0 <= cursor < count,
    ensures
        key is Up || key == Key::Char('k') ==> next_cursor(cursor, key, count) == (if cursor > 0 {
            cursor - 1
        } else {
            0
        }),
        key is Down || key == Key::Char('j') ==> next_cursor(cursor, key, count) == (if cursor < count - 1 {
            cursor + 1
        } else {
            count - 1
        }),
        !(key is Up || key is Down || key is Char) ==> next_cursor(cursor, key, count) == cursor,
        key matches Key::Char(c) ==> c == 'j' || c == 'k' || next_cursor(cursor, key, count) == cursor,
{
}

/// A new item waits, with nothing measured, under its name and number, with
/// as many files as were chosen.
pub proof fn law_new_items<R, S>(item: Item<R, S>, id: u64, dest: Seq<char>, name: Seq<char>, files: int)
    requires
        is_new_item(item, id, dest, name, files),
    ensures
        item.status is Queued && item.last_sample is None,
        item.id == id && item.files == files,
        item.name@ == name && item.dest@ == dest,
{
}

/// Every file is counted, and nothing else.
pub proof fn law_files_are_counted(entries: Seq<EntryModel>, n: int)
    requires
        0 <= n <= entries.len(),
    ensures
        count_files(entries, n) == entries.take(n).filter(|e: EntryModel| !e.is_dir).len(),
    decreases n,
{
    reveal(Seq::filter);
    let head = entries.take(n);
    if n > 0 {
        law_files_are_counted(entries, n - 1);
        assert(head.drop_last() =~= entries.take(n - 1));
        assert(head.last() == entries[n - 1]);
    } else {
        assert(head =~= Seq::<EntryModel>::empty());
    }
}

/// The size of a batch counts every file once.
pub proof fn law_batch_size(jobs: Seq<FileJob>, n: int)
    requires
        0 <= n < jobs.len(),
    ensures
        total_size(jobs, 0) == 0,
        total_size(jobs, n + 1) == wrapped_sum(total_size(jobs, n), jobs[n].size as int),
{
}

proof fn lemma_totals_grow(jobs: Seq<FileJob>, n: int, m: int)
    requires
        0 <= n <= m <= jobs.len(),
        forall|i: int| 0 <= i < jobs.len() ==> (#[trigger] jobs[i]).size >= 0,
        exact_size(jobs, m) <= i64::MAX,
    ensures
        total_size(jobs, m) == exact_size(jobs, m),
        0 <= exact_size(jobs, n) <= exact_size(jobs, m),
    decreases m,
{
    if m > 0 {
        assert(jobs[m - 1].size >= 0);
        if n < m {
            lemma_totals_grow(jobs, n, m - 1);
        } else {
            lemma_totals_grow(jobs, n - 1, m - 1);
        }
    }
}

/// The sum of the sizes of the first `n` files.
pub open spec fn exact_size(jobs: Seq<FileJob>, n: int) -> int
    decreases n,
{
    if n <= 0 {
        0
    } else {
        exact_size(jobs, n - 1) + jobs[n - 1].size
    }
}

/// Where the sizes of all files add up to a number that fits, the bar's end
/// is their sum, what is complete is the sum of those that are, and it never
/// goes beyond the end.
pub proof fn law_bar_shows_sums(b: Batch, jobs: Seq<FileJob>)
    requires
        b.is_for(jobs),
        forall|i: int| 0 <= i < jobs.len() ==> (#[trigger] jobs[i]).size >= 0,
        exact_size(jobs, jobs.len() as int) <= i64::MAX,
    ensures
        b.grand_total == exact_size(jobs, jobs.len() as int),
        b.completed == exact_size(jobs, b.next as int),
        0 <= b.completed <= b.grand_total,
{
    lemma_totals_grow(jobs, b.next as int, jobs.len() as int);
    lemma_totals_grow(jobs, 0, b.next as int);
}

/// Jobs are worked on in the order in which they were queued, until the
/// worker is to quit.
pub proof fn law_queue_is_in_order(job: Job, rest: Seq<Job>, quit: bool)
    ensures
        queue_step(seq![job] + rest, false) == QueueStep::Work(job),
        (seq![job] + rest).skip(1) == rest,
        queue_step(Seq::empty(), false) is Wait,
        queue_step(rest, true) is Quit,
{
    assert((seq![job] + rest)[0] == job);
    assert((seq![job] + rest).skip(1) =~= rest);
}

/// Files are fetched one after the other; the item is finished behind the
/// last, and stopped at the first that fails.
pub proof fn law_batch_steps(stopped: bool, next: usize, count: nat)
    requires
        next <= count,
    ensures
        batch_step(stopped, next, count) is Stopped <==> stopped,
        !stopped ==> (batch_step(stopped, next, count) is Finished <==> next == count),
        batch_step(stopped, next, count) matches BatchStep::Sync(i) ==> i == next && i < count,
{
}

/// A choice is offered for a folder with two files or more. Choosing nothing
/// means all.
pub proof fn law_what_is_chosen(chosen: nat, all: nat, is_folder: bool)
    ensures
        is_choice(is_folder, all) <==> is_folder && all >= 2,
        files_chosen(0, all) == all,
        chosen > 0 ==> files_chosen(chosen, all) == chosen,
{
}

/// Once an item was removed the cursor stands on the one behind it, or on
/// the last one that is left.
pub proof fn law_cursor_after_removal(at: int, left: int)
    requires
        0 <= at <= left,
    ensures
        at < left ==> cursor_after_removal(at, left) == at,
        at == left && left > 0 ==> cursor_after_removal(at, left) == left - 1,
        left == 0 ==> cursor_after_removal(at, left) == 0,
{
}

} // verus!
