//! File selector: a checkbox tree over a link's contents, driven by keys.
//! Keys are handed in rather than read, so that whoever owns the keyboard
//! can use it.

use vstd::prelude::*;
use vstd::string::*;
use vstd::utf8::*;

use crate::folder::{
    handles, is_name, is_pathed, is_plain, is_rooted, is_under, last_with,
    law_subtree_is_what_lies_below_path, law_subtree_paths, lemma_encode_concat,
    lemma_last_with, lemma_last_with_found, lemma_path_ends, lemma_sorted_position,
    lemma_strictly_sorted, node_sort_key, parents_are_dirs, sort_text, tree_parents,
    FolderModel,
};
use crate::order::lemma_prefix_before;
use crate::plan::{
    chosen_nodes, entry_models, folder_entries, is_planned, law_nested_choices_are_pruned,
    law_plan_is_what_was_chosen, law_selection_is_planned, lemma_above_is_directory,
    lemma_above_within, lemma_found_has_handle, planned_files, Entry, EntryModel,
};
pub use crate::size::human_size;
use crate::size::{rounded, rounded_quotient, size_text, unit_bytes, unit_of};
use crate::term::Key;
use crate::text::{
    bytes_before, chars_of, count_char, count_of, decimal, has_prefix, has_text,
    law_counting_adds_up, law_decimal_reads_back, law_found_in_larger_text,
    law_found_text_stands, law_text_is_found, push_decimal, push_repeated, repeated, stands_at,
    texts,
};
use crate::tree::{at_or_above, climbs, lemma_climbs_is_above};

verus! {

/// One line of the tree.
#[derive(Debug, Clone)]
pub struct Row {
    pub label: String,
    pub depth: usize,
    pub is_dir: bool,
    pub size: i64,
    pub handle: String,
}

/// What a line of the tree says.
pub struct RowModel {
    pub label: Seq<char>,
    pub depth: nat,
    pub is_dir: bool,
    pub size: i64,
    pub handle: Seq<char>,
}

impl View for Row {
    type V = RowModel;

    open spec fn view(&self) -> RowModel {
        RowModel {
            label: self.label@,
            depth: self.depth as nat,
            is_dir: self.is_dir,
            size: self.size,
            handle: self.handle@,
        }
    }
}

/// What the lines of a tree say.
pub open spec fn row_models(rows: Seq<Row>) -> Seq<RowModel> {
    rows.map_values(|r: Row| r@)
}

/// How much of what is below a line is chosen.
#[derive(Debug, Clone, Copy, PartialEq, Eq, Structural)]
pub enum Mark {
    Off,
    On,
    Partial,
}

// ---------------------------------------------------------------------------
// Rows
// ---------------------------------------------------------------------------

/// The line for an entry: a path with one slash has no depth.
pub open spec fn row_of(e: EntryModel) -> RowModel {
    let slashes = count_of(e.path, '/');
    RowModel {
        label: e.name,
        depth: if slashes == 0 {
            0
        } else {
            (slashes - 1) as nat
        },
        is_dir: e.is_dir,
        size: e.size,
        handle: e.handle,
    }
}

/// The lines for a listing.
pub open spec fn rows_of(entries: Seq<EntryModel>) -> Seq<RowModel> {
    entries.map_values(|e: EntryModel| row_of(e))
}

/// Builds the lines for a listing.
pub fn rows_from_listing(entries: &[Entry]) -> (rows: Vec<Row>)
    ensures
        row_models(rows@) == rows_of(entry_models(entries@)),
{
    let ghost all = rows_of(entry_models(entries@));
    let mut rows: Vec<Row> = Vec::new();
    let mut i: usize = 0;
    while i < entries.len()
        invariant
            i <= entries@.len(),
            all == rows_of(entry_models(entries@)),
            rows@.len() == i,
            forall|j: int| 0 <= j < i ==> (#[trigger] rows@[j])@ == all[j],
        decreases entries@.len() - i,
    {
        let e = &entries[i];
        let slashes = count_char(&chars_of(e.path.as_str()), '/');
        let depth: usize = if slashes == 0 {
            0
        } else {
            slashes - 1
        };
        let row = Row {
            label: e.name.clone(),
            depth,
            is_dir: e.is_dir,
            size: e.size,
            handle: e.handle.clone(),
        };
        assert(row@ == row_of(entry_models(entries@)[i as int]));
        rows.push(row);
        i += 1;
    }
    assert(row_models(rows@) =~= all);
    rows
}

// ---------------------------------------------------------------------------
// Subtrees and marks
// ---------------------------------------------------------------------------

/// Where the run of lines from `from` on ends that are deeper than `depth`.
pub open spec fn run_end(rows: Seq<RowModel>, depth: nat, from: int) -> int
    decreases rows.len() - from,
{
    if from < rows.len() && rows[from].depth > depth {
        run_end(rows, depth, from + 1)
    } else {
        from
    }
}

/// Where the subtree of line `i` ends.
pub open spec fn subtree_end(rows: Seq<RowModel>, i: int) -> int {
    run_end(rows, rows[i].depth, i + 1)
}

/// Line `d` is a file in the subtree of line `i`.
pub open spec fn is_file_below(rows: Seq<RowModel>, i: int, d: int) -> bool {
    i < d < subtree_end(rows, i) && !rows[d].is_dir
}

/// The mark of a line: of a file whether it is chosen, of a directory
/// whether all or some of the files in it are.
pub open spec fn mark(rows: Seq<RowModel>, chosen: Seq<bool>, i: int) -> Mark {
    if !rows[i].is_dir {
        if chosen[i] {
            Mark::On
        } else {
            Mark::Off
        }
    } else if !exists|d: int| #[trigger] is_file_below(rows, i, d) && chosen[d] {
        Mark::Off
    } else if forall|d: int| #[trigger] is_file_below(rows, i, d) ==> chosen[d] {
        Mark::On
    } else {
        Mark::Partial
    }
}

/// What is chosen once line `i` was toggled: a file changes; the files in a
/// directory are all chosen, or none if they all were.
pub open spec fn toggled(rows: Seq<RowModel>, chosen: Seq<bool>, i: int) -> Seq<bool> {
    Seq::new(
        chosen.len(),
        |d: int|
            if rows[i].is_dir {
                if is_file_below(rows, i, d) {
                    mark(rows, chosen, i) != Mark::On
                } else {
                    chosen[d]
                }
            } else if d == i {
                !chosen[d]
            } else {
                chosen[d]
            },
    )
}

proof fn lemma_run_end(rows: Seq<RowModel>, depth: nat, from: int)
    requires
        0 <= from <= rows.len(),
    ensures
        from <= run_end(rows, depth, from) <= rows.len(),
        forall|d: int| from <= d < run_end(rows, depth, from) ==> (#[trigger] rows[d]).depth > depth,
        run_end(rows, depth, from) < rows.len() ==> rows[run_end(rows, depth, from)].depth <= depth,
    decreases rows.len() - from,
{
    if from < rows.len() && rows[from].depth > depth {
        lemma_run_end(rows, depth, from + 1);
    }
}

/// The lines below line `i`: the run of following lines deeper than it.
/// Lines are sorted by path, so that a directory's subtree is contiguous.
pub fn descendants(rows: &[Row], i: usize) -> (r: core::ops::Range<usize>)
    requires
        i < rows@.len(),
    ensures
        r.start == i + 1,
        r.end == subtree_end(row_models(rows@), i as int),
        i < r.end <= rows@.len(),
{
    let ghost all = row_models(rows@);
    let depth: usize = rows[i].depth;
    let mut end: usize = i + 1;
    while end < rows.len() && rows[end].depth > depth
        invariant
            i < end <= rows@.len(),
            all == row_models(rows@),
            depth == all[i as int].depth,
            subtree_end(all, i as int) == run_end(all, depth as nat, end as int),
        decreases rows@.len() - end,
    {
        assert(all[end as int] == rows@[end as int]@);
        end += 1;
    }
    assert(end < rows@.len() ==> all[end as int] == rows@[end as int]@);
    i + 1..end
}

/// The mark of a line.
pub fn mark_of(rows: &[Row], chosen: &[bool], i: usize) -> (m: Mark)
    requires
        i < rows@.len(),
        chosen@.len() == rows@.len(),
    ensures
        m == mark(row_models(rows@), chosen@, i as int),
{
    let ghost all = row_models(rows@);
    assert(all[i as int] == rows@[i as int]@);
    if !rows[i].is_dir {
        return if chosen[i] {
            Mark::On
        } else {
            Mark::Off
        };
    }
    let range = descendants(rows, i);
    let end: usize = range.end;
    let mut any_on = false;
    let mut all_on = true;
    let mut d: usize = i + 1;
    while d < end
        invariant
            i < d <= end <= rows@.len(),
            chosen@.len() == rows@.len(),
            all == row_models(rows@),
            end == subtree_end(all, i as int),
            any_on == (exists|x: int| #[trigger] is_file_below(all, i as int, x) && x < d && chosen@[x]),
            all_on == (forall|x: int| #[trigger] is_file_below(all, i as int, x) && x < d ==> chosen@[x]),
        decreases end - d,
    {
        assert(all[d as int] == rows@[d as int]@);
        if !rows[d].is_dir {
            assert(is_file_below(all, i as int, d as int));
            if chosen[d] {
                any_on = true;
            } else {
                all_on = false;
            }
        } else {
            assert(!is_file_below(all, i as int, d as int));
        }
        d += 1;
    }
    if !any_on {
        Mark::Off
    } else if all_on {
        Mark::On
    } else {
        Mark::Partial
    }
}

/// Toggles a line.
pub fn toggle(rows: &[Row], chosen: &mut Vec<bool>, i: usize)
    requires
        i < rows@.len(),
        old(chosen)@.len() == rows@.len(),
    ensures
        final(chosen)@ == toggled(row_models(rows@), old(chosen)@, i as int),
{
    let ghost all = row_models(rows@);
    let ghost before = chosen@;
    assert(all[i as int] == rows@[i as int]@);
    if rows[i].is_dir {
        let range = descendants(rows, i);
        let end: usize = range.end;
        let turn_on: bool = mark_of(rows, chosen, i) != Mark::On;
        let mut d: usize = i + 1;
        while d < end
            invariant
                i < d <= end <= rows@.len(),
                all == row_models(rows@),
                end == subtree_end(all, i as int),
                chosen@.len() == rows@.len() == before.len(),
                forall|x: int|
                    0 <= x < before.len() ==> #[trigger] chosen@[x] == (if is_file_below(all, i as int, x) && x < d {
                        turn_on
                    } else {
                        before[x]
                    }),
            decreases end - d,
        {
            assert(all[d as int] == rows@[d as int]@);
            if !rows[d].is_dir {
                chosen.set(d, turn_on);
            }
            d += 1;
        }
        assert(chosen@ =~= toggled(all, before, i as int));
    } else {
        let now: bool = !chosen[i];
        chosen.set(i, now);
        assert(chosen@ =~= toggled(all, before, i as int));
    }
}

// ---------------------------------------------------------------------------
// Picking
// ---------------------------------------------------------------------------

/// Every file is chosen.
pub open spec fn all_files(rows: Seq<RowModel>) -> Seq<bool> {
    Seq::new(rows.len(), |i: int| !rows[i].is_dir)
}

/// Nothing is chosen.
pub open spec fn nothing(rows: Seq<RowModel>) -> Seq<bool> {
    Seq::new(rows.len(), |i: int| false)
}

/// The handles of the chosen files among the first `n` lines.
pub open spec fn picked(rows: Seq<RowModel>, chosen: Seq<bool>, n: int) -> Seq<Seq<char>>
    decreases n,
{
    if n <= 0 {
        Seq::empty()
    } else {
        let before = picked(rows, chosen, n - 1);
        if chosen[n - 1] && !rows[n - 1].is_dir {
            before.push(rows[n - 1].handle)
        } else {
            before
        }
    }
}

/// What the picker does next.
#[derive(Debug)]
pub enum PickStep {
    /// Wait for the next key.
    Continue,
    /// These handles were chosen.
    Done(Vec<String>),
    /// The user cancelled.
    Cancelled,
}

/// A picker at work.
pub struct Picker<'a> {
    pub rows: &'a [Row],
    pub title: &'a str,
    pub chosen: Vec<bool>,
    pub cursor: usize,
    /// The first line on the screen.
    pub top: usize,
}

/// Where the cursor goes.
pub open spec fn moved(cursor: int, key: Key, count: int) -> int {
    match key {
        Key::Up | Key::Char('k') => if cursor == 0 {
            0
        } else {
            cursor - 1
        },
        Key::Down | Key::Char('j') => if cursor + 1 < count {
            cursor + 1
        } else {
            cursor
        },
        Key::Char('g') => 0,
        Key::Char('G') => count - 1,
        _ => cursor,
    }
}

/// What is chosen after a key.
pub open spec fn rechosen(rows: Seq<RowModel>, chosen: Seq<bool>, cursor: int, key: Key) -> Seq<bool> {
    match key {
        Key::Space => toggled(rows, chosen, cursor),
        Key::Char('a') => all_files(rows),
        Key::Char('n') => nothing(rows),
        _ => chosen,
    }
}

/// The key leaves the picker without a choice.
pub open spec fn cancels(key: Key) -> bool {
    key == Key::Esc || key == Key::Char('q') || key == Key::CtrlC
}

/// The outcome of a run of keys: the handles that were chosen when the first
/// Enter came, nothing if the user cancelled before, or the keys ran out.
pub open spec fn outcome(rows: Seq<RowModel>, chosen: Seq<bool>, cursor: int, keys: Seq<Key>) -> Option<Seq<Seq<char>>>
    decreases keys.len(),
{
    if keys.len() == 0 {
        None
    } else if keys[0] == Key::Enter {
        Some(picked(rows, chosen, rows.len() as int))
    } else if cancels(keys[0]) {
        None
    } else {
        outcome(
            rows,
            rechosen(rows, chosen, cursor, keys[0]),
            moved(cursor, keys[0], rows.len() as int),
            keys.skip(1),
        )
    }
}

fn list_picked(rows: &[Row], chosen: &Vec<bool>) -> (handles: Vec<String>)
    requires
        chosen@.len() == rows@.len(),
    ensures
        texts(handles@) == picked(row_models(rows@), chosen@, rows@.len() as int),
{
    let ghost all = row_models(rows@);
    let mut handles: Vec<String> = Vec::new();
    let mut i: usize = 0;
    assert(texts(handles@) =~= Seq::empty());
    while i < rows.len()
        invariant
            i <= rows@.len() == chosen@.len(),
            all == row_models(rows@),
            texts(handles@) == picked(all, chosen@, i as int),
        decreases rows@.len() - i,
    {
        let ghost before = handles@;
        assert(all[i as int] == rows@[i as int]@);
        if chosen[i] && !rows[i].is_dir {
            handles.push(rows[i].handle.clone());
            assert(texts(handles@) =~= texts(before).push(rows@[i as int].handle@));
        }
        i += 1;
    }
    handles
}

fn choose_files(rows: &[Row]) -> (chosen: Vec<bool>)
    ensures
        chosen@ == all_files(row_models(rows@)),
{
    let ghost all = row_models(rows@);
    let mut chosen: Vec<bool> = Vec::new();
    let mut i: usize = 0;
    while i < rows.len()
        invariant
            i <= rows@.len(),
            all == row_models(rows@),
            chosen@.len() == i,
            forall|j: int| 0 <= j < i ==> #[trigger] chosen@[j] == !all[j].is_dir,
        decreases rows@.len() - i,
    {
        assert(all[i as int] == rows@[i as int]@);
        chosen.push(!rows[i].is_dir);
        i += 1;
    }
    assert(chosen@ =~= all_files(all));
    chosen
}

fn choose_none(rows: &[Row]) -> (chosen: Vec<bool>)
    ensures
        chosen@ == nothing(row_models(rows@)),
{
    let mut chosen: Vec<bool> = Vec::new();
    let mut i: usize = 0;
    while i < rows.len()
        invariant
            i <= rows@.len(),
            chosen@.len() == i,
            forall|j: int| 0 <= j < i ==> !#[trigger] chosen@[j],
        decreases rows@.len() - i,
    {
        chosen.push(false);
        i += 1;
    }
    assert(chosen@ =~= nothing(row_models(rows@)));
    chosen
}

/// How many lines of the tree fit on the screen.
pub open spec fn view_height(term_rows: u16) -> int {
    if term_rows < 9 {
        3
    } else {
        term_rows - 6
    }
}

impl<'a> Picker<'a> {
    /// The cursor stands on a line, and every line is chosen or not.
    pub open spec fn wf(&self) -> bool {
        self.cursor < self.rows@.len() && self.chosen@.len() == self.rows@.len()
    }

    /// Starts with every file chosen.
    pub fn new(rows: &'a [Row], title: &'a str) -> (p: Picker<'a>)
        requires
            rows@.len() > 0,
        ensures
            p.wf(),
            p.rows == rows,
            p.title == title,
            p.chosen@ == all_files(row_models(rows@)),
            p.cursor == 0,
            p.top == 0,
    {
        let chosen = choose_files(rows);
        Picker { rows, title, chosen, cursor: 0, top: 0 }
    }

    /// Moves the window over the tree so that the cursor is in it.
    pub fn scroll(&mut self, term_rows: u16) -> (view: usize)
        requires
            old(self).wf(),
        ensures
            final(self).wf(),
            view == view_height(term_rows),
            final(self).rows == old(self).rows,
            final(self).title == old(self).title,
            final(self).chosen == old(self).chosen,
            final(self).cursor == old(self).cursor,
            final(self).top == (if old(self).cursor < old(self).top {
                old(self).cursor as int
            } else if old(self).cursor >= old(self).top + view {
                old(self).cursor + 1 - view
            } else {
                old(self).top as int
            }),
            final(self).top <= final(self).cursor < final(self).top + view,
    {
        let view: usize = if term_rows < 9 {
            3
        } else {
            (term_rows - 6) as usize
        };
        if self.cursor < self.top {
            self.top = self.cursor;
        } else if self.cursor - self.top >= view {
            self.top = self.cursor - (view - 1);
        }
        view
    }

    /// Takes a key.
    pub fn on_key(&mut self, key: Key) -> (step: PickStep)
        requires
            old(self).wf(),
        ensures
            final(self).wf(),
            final(self).rows == old(self).rows,
            final(self).title == old(self).title,
            final(self).top == old(self).top,
            final(self).cursor == moved(old(self).cursor as int, key, old(self).rows@.len() as int),
            final(self).chosen@ == rechosen(
                row_models(old(self).rows@),
                old(self).chosen@,
                old(self).cursor as int,
                key,
            ),
            match step {
                PickStep::Done(handles) => key == Key::Enter && texts(handles@) == picked(
                    row_models(old(self).rows@),
                    old(self).chosen@,
                    old(self).rows@.len() as int,
                ),
                PickStep::Cancelled => cancels(key),
                PickStep::Continue => key != Key::Enter && !cancels(key),
            },
    {
        match key {
            Key::Up | Key::Char('k') => {
                if self.cursor > 0 {
                    self.cursor = self.cursor - 1;
                }
                PickStep::Continue
            },
            Key::Down | Key::Char('j') => {
                if self.cursor < self.rows.len() - 1 {
                    self.cursor = self.cursor + 1;
                }
                PickStep::Continue
            },
            Key::Char('g') => {
                self.cursor = 0;
                PickStep::Continue
            },
            Key::Char('G') => {
                self.cursor = self.rows.len() - 1;
                PickStep::Continue
            },
            Key::Space => {
                toggle(self.rows, &mut self.chosen, self.cursor);
                PickStep::Continue
            },
            Key::Char('a') => {
                self.chosen = choose_files(self.rows);
                PickStep::Continue
            },
            Key::Char('n') => {
                self.chosen = choose_none(self.rows);
                PickStep::Continue
            },
            Key::Enter => PickStep::Done(list_picked(self.rows, &self.chosen)),
            Key::Esc | Key::Char('q') | Key::CtrlC => PickStep::Cancelled,
            _ => PickStep::Continue,
        }
    }
}

/// Runs the picker on some keys. Gives the chosen file handles, or nothing
/// if the user cancelled. Everything is selected at first.
pub fn pick(rows: &[Row], title: &str, keys: &[Key]) -> (r: Option<Vec<String>>)
    ensures
        ({
            let all = row_models(rows@);
            let expected = if all.len() == 0 {
                Some(Seq::empty())
            } else {
                outcome(all, all_files(all), 0, keys@)
            };
            match r {
                Some(handles) => expected == Some(texts(handles@)),
                None => expected is None,
            }
        }),
{
    let ghost all = row_models(rows@);
    if rows.len() == 0 {
        let none: Vec<String> = Vec::new();
        assert(texts(none@) =~= Seq::empty());
        return Some(none);
    }
    let mut picker = Picker::new(rows, title);
    let mut k: usize = 0;
    assert(keys@.skip(0) =~= keys@);
    while k < keys.len()
        invariant
            k <= keys@.len(),
            picker.wf(),
            all == row_models(rows@),
            all.len() > 0,
            all == row_models(picker.rows@),
            outcome(all, all_files(all), 0, keys@) == outcome(
                all,
                picker.chosen@,
                picker.cursor as int,
                keys@.skip(k as int),
            ),
        decreases keys@.len() - k,
    {
        let ghost left = keys@.skip(k as int);
        assert(left.skip(1) =~= keys@.skip(k + 1));
        assert(left[0] == keys@[k as int]);
        match picker.on_key(keys[k]) {
            PickStep::Continue => {},
            PickStep::Done(handles) => return Some(handles),
            PickStep::Cancelled => return None,
        }
        k += 1;
    }
    None
}

// ---------------------------------------------------------------------------
// Drawing
// ---------------------------------------------------------------------------

/// Where in an escape sequence a text stands.
#[derive(Debug, Clone, Copy, PartialEq, Eq, Structural)]
pub enum Escape {
    /// In none: what follows is seen.
    Outside,
    /// Behind the escape character that opens one.
    Opened,
    /// In a control sequence, which a bracket begins and the first character
    /// from `@` to `~` ends.
    Control,
}

/// Where a text stands after one character more.
pub open spec fn escape_after(at: Escape, c: char) -> Escape {
    match at {
        Escape::Outside => if c == '\u{1b}' {
            Escape::Opened
        } else {
            Escape::Outside
        },
        Escape::Opened => if c == '[' {
            Escape::Control
        } else {
            Escape::Outside
        },
        Escape::Control => if '@' <= c <= '~' {
            Escape::Outside
        } else {
            Escape::Control
        },
    }
}

/// A character is seen unless it belongs to an escape sequence.
pub open spec fn is_seen(at: Escape, c: char) -> bool {
    at == Escape::Outside && c != '\u{1b}'
}

/// How many characters are seen: those of escape sequences are not.
pub open spec fn visible(s: Seq<char>, at: Escape) -> nat
    decreases s.len(),
{
    if s.len() == 0 {
        0
    } else {
        visible(s.skip(1), escape_after(at, s[0])) + if is_seen(at, s[0]) {
            1nat
        } else {
            0
        }
    }
}

fn next_escape(at: Escape, c: char) -> (next: Escape)
    ensures
        next == escape_after(at, c),
{
    match at {
        Escape::Outside => if c == '\u{1b}' {
            Escape::Opened
        } else {
            Escape::Outside
        },
        Escape::Opened => if c == '[' {
            Escape::Control
        } else {
            Escape::Outside
        },
        Escape::Control => if '@' <= c && c <= '~' {
            Escape::Outside
        } else {
            Escape::Control
        },
    }
}

/// How many characters of a text are seen.
pub fn visible_len(s: &str) -> (n: usize)
    ensures
        n == visible(s@, Escape::Outside),
{
    let v = chars_of(s);
    let mut n: usize = 0;
    let mut at = Escape::Outside;
    let mut i: usize = 0;
    assert(v@.skip(0) =~= v@);
    while i < v.len()
        invariant
            n <= i <= v@.len(),
            v@ == s@,
            visible(s@, Escape::Outside) == n + visible(v@.skip(i as int), at),
        decreases v@.len() - i,
    {
        assert(v@.skip(i as int).skip(1) =~= v@.skip(i + 1));
        if at == Escape::Outside && v[i] != '\u{1b}' {
            n += 1;
        }
        at = next_escape(at, v[i]);
        i += 1;
    }
    n
}

/// A sum of two sizes, wrapped around where it does not fit.
pub open spec fn wrapped_sum(a: int, b: int) -> int {
    if a + b > i64::MAX {
        a + b - 0x1_0000_0000_0000_0000
    } else if a + b < i64::MIN {
        a + b + 0x1_0000_0000_0000_0000
    } else {
        a + b
    }
}

/// Adds two sizes, wrapping around where the sum does not fit.
pub fn add_sizes(a: i64, b: i64) -> (c: i64)
    ensures
        c == wrapped_sum(a as int, b as int),
{
    let sum: i128 = a as i128 + b as i128;
    if sum > i64::MAX as i128 {
        (sum - 0x1_0000_0000_0000_0000) as i64
    } else if sum < i64::MIN as i128 {
        (sum + 0x1_0000_0000_0000_0000) as i64
    } else {
        sum as i64
    }
}

/// The size of the chosen files among the first `n` lines.
pub open spec fn picked_size(rows: Seq<RowModel>, chosen: Seq<bool>, n: int) -> int
    decreases n,
{
    if n <= 0 {
        0
    } else if chosen[n - 1] && !rows[n - 1].is_dir {
        wrapped_sum(picked_size(rows, chosen, n - 1), rows[n - 1].size as int)
    } else {
        picked_size(rows, chosen, n - 1)
    }
}

/// The width that is drawn on a terminal with this many columns.
pub open spec fn drawn_width(cols: u16) -> nat {
    if cols < 40 {
        40
    } else if cols > 200 {
        200
    } else {
        cols as nat
    }
}

/// A rule across the screen.
pub open spec fn rule(width: nat) -> Seq<char> {
    "\x1b[90m"@ + repeated('\u{2500}', width) + "\x1b[0m\r\n"@
}

/// A mark as it is drawn.
pub open spec fn mark_text(m: Mark) -> Seq<char> {
    match m {
        Mark::On => "\x1b[32m[x]\x1b[0m"@,
        Mark::Off => "[ ]"@,
        Mark::Partial => "\x1b[33m[~]\x1b[0m"@,
    }
}

/// Mark and name of a line.
pub open spec fn line_text(rows: Seq<RowModel>, chosen: Seq<bool>, i: int) -> Seq<char> {
    mark_text(mark(rows, chosen, i)) + seq![' '] + repeated(' ', 2 * rows[i].depth) + if rows[i].is_dir {
        "\x1b[1;34m"@ + rows[i].label + "/\x1b[0m"@
    } else {
        rows[i].label
    }
}

/// The size at the end of a line; directories have none.
pub open spec fn line_size(row: RowModel) -> Seq<char> {
    if row.is_dir {
        Seq::empty()
    } else {
        size_text(row.size as int)
    }
}

/// How many spaces stand before the size.
pub open spec fn padding(width: nat, seen: nat, size: nat) -> nat {
    if width > seen + size + 3 {
        (width - (seen + size + 3)) as nat
    } else {
        0
    }
}

/// A line as it is drawn.
pub open spec fn row_text(rows: Seq<RowModel>, chosen: Seq<bool>, cursor: int, i: int, width: nat) -> Seq<char> {
    let line = line_text(rows, chosen, i);
    let size = line_size(rows[i]);
    (if i == cursor {
        "\x1b[7m \x1b[0m"@
    } else {
        seq![' ']
    }) + line + repeated(' ', padding(width, visible(line, Escape::Outside), size.len())) + "\x1b[90m"@ + size
        + "\x1b[0m\r\n"@
}

/// `n` lines from `top` on, as they are drawn.
pub open spec fn rows_text(
    rows: Seq<RowModel>,
    chosen: Seq<bool>,
    cursor: int,
    top: int,
    n: int,
    width: nat,
) -> Seq<char>
    decreases n,
{
    if n <= 0 {
        Seq::empty()
    } else {
        rows_text(rows, chosen, cursor, top, n - 1, width) + row_text(rows, chosen, cursor, top + n - 1, width)
    }
}

/// How many lines are drawn from `top` on.
pub open spec fn drawn_rows(count: int, top: int, view: int) -> int {
    if top >= count {
        0
    } else if count - top < view {
        count - top
    } else {
        view
    }
}

/// The keys, as they are explained.
pub open spec fn help_text() -> Seq<char> {
    " \x1b[1mspace\x1b[0m toggle  \x1b[1ma\x1b[0m all  \x1b[1mn\x1b[0m none  \x1b[1m\u{2191}\u{2193}/jk\x1b[0m move  \x1b[1menter\x1b[0m download  \x1b[1mq\x1b[0m cancel\r\n"@
}

/// The screen: title, totals, the lines in view, and the keys.
pub open spec fn screen_text(
    rows: Seq<RowModel>,
    chosen: Seq<bool>,
    cursor: int,
    top: int,
    view: int,
    title: Seq<char>,
    width: nat,
) -> Seq<char> {
    let count = rows.len() as int;
    "\x1b[H\x1b[2J\x1b[1;36m"@ + title + "\x1b[0m\r\n\x1b[90m"@ + decimal(picked(rows, chosen, count).len())
        + " file(s) selected \u{b7} "@ + size_text(picked_size(rows, chosen, count)) + "\x1b[0m\r\n"@ + rule(width)
        + rows_text(rows, chosen, cursor, top, drawn_rows(count, top, view), width) + rule(width) + help_text()
}

fn push_rule(out: &mut String, width: usize)
    ensures
        final(out)@ == old(out)@ + rule(width as nat),
{
    out.append("\x1b[90m");
    push_repeated(out, '\u{2500}', width);
    out.append("\x1b[0m\r\n");
    assert(out@ =~= old(out)@ + rule(width as nat));
}

fn push_spaces_twice(out: &mut String, n: usize)
    ensures
        final(out)@ == old(out)@ + repeated(' ', 2 * n as nat),
{
    push_repeated(out, ' ', n);
    push_repeated(out, ' ', n);
    assert(repeated(' ', n as nat) + repeated(' ', n as nat) =~= repeated(' ', 2 * n as nat));
    assert(out@ =~= old(out)@ + repeated(' ', 2 * n as nat));
}

fn make_line(rows: &[Row], chosen: &[bool], i: usize) -> (line: String)
    requires
        i < rows@.len(),
        chosen@.len() == rows@.len(),
    ensures
        line@ == line_text(row_models(rows@), chosen@, i as int),
{
    let ghost all = row_models(rows@);
    assert(all[i as int] == rows@[i as int]@);
    let mut line = String::new();
    match mark_of(rows, chosen, i) {
        Mark::On => line.append("\x1b[32m[x]\x1b[0m"),
        Mark::Off => line.append("[ ]"),
        Mark::Partial => line.append("\x1b[33m[~]\x1b[0m"),
    }
    line.push(' ');
    push_spaces_twice(&mut line, rows[i].depth);
    if rows[i].is_dir {
        line.append("\x1b[1;34m");
        line.append(rows[i].label.as_str());
        line.append("/\x1b[0m");
    } else {
        line.append(rows[i].label.as_str());
    }
    assert(line@ =~= line_text(all, chosen@, i as int));
    line
}

fn push_row(out: &mut String, rows: &[Row], chosen: &[bool], cursor: usize, i: usize, width: usize)
    requires
        i < rows@.len(),
        chosen@.len() == rows@.len(),
    ensures
        final(out)@ == old(out)@ + row_text(row_models(rows@), chosen@, cursor as int, i as int, width as nat),
{
    let ghost all = row_models(rows@);
    assert(all[i as int] == rows@[i as int]@);
    let line = make_line(rows, chosen, i);
    let size = if rows[i].is_dir {
        String::new()
    } else {
        human_size(rows[i].size)
    };
    assert(size@ =~= line_size(all[i as int]));
    let seen: usize = visible_len(line.as_str());
    let size_len: usize = chars_of(size.as_str()).len();
    let mut pad: usize = 0;
    if width > seen && width - seen > size_len && width - seen - size_len > 3 {
        pad = width - seen - size_len - 3;
    }
    assert(pad == padding(width as nat, seen as nat, size@.len()));
    if i == cursor {
        out.append("\x1b[7m \x1b[0m");
    } else {
        out.push(' ');
    }
    out.append(line.as_str());
    push_repeated(out, ' ', pad);
    out.append("\x1b[90m");
    out.append(size.as_str());
    out.append("\x1b[0m\r\n");
    assert(out@ =~= old(out)@ + row_text(all, chosen@, cursor as int, i as int, width as nat));
}

fn count_picked(rows: &[Row], chosen: &[bool]) -> (r: (usize, i64))
    requires
        chosen@.len() == rows@.len(),
    ensures
        r.0 == picked(row_models(rows@), chosen@, rows@.len() as int).len(),
        r.1 == picked_size(row_models(rows@), chosen@, rows@.len() as int),
{
    let ghost all = row_models(rows@);
    let mut count: usize = 0;
    let mut size: i64 = 0;
    let mut i: usize = 0;
    while i < rows.len()
        invariant
            count <= i <= rows@.len() == chosen@.len(),
            all == row_models(rows@),
            count == picked(all, chosen@, i as int).len(),
            size == picked_size(all, chosen@, i as int),
        decreases rows@.len() - i,
    {
        assert(all[i as int] == rows@[i as int]@);
        if chosen[i] && !rows[i].is_dir {
            count += 1;
            size = add_sizes(size, rows[i].size);
        }
        i += 1;
    }
    (count, size)
}

impl<'a> Picker<'a> {
    /// The screen, with `view` lines of the tree, for a terminal with `cols`
    /// columns.
    pub fn draw(&self, cols: u16, view: usize) -> (out: String)
        requires
            self.wf(),
        ensures
            out@ == screen_text(
                row_models(self.rows@),
                self.chosen@,
                self.cursor as int,
                self.top as int,
                view as int,
                self.title@,
                drawn_width(cols),
            ),
    {
        let ghost all = row_models(self.rows@);
        let width: usize = if cols < 40 {
            40
        } else if cols > 200 {
            200
        } else {
            cols as usize
        };
        let (count, size) = count_picked(self.rows, &self.chosen);
        let mut out = String::new();
        out.append("\x1b[H\x1b[2J\x1b[1;36m");
        out.append(self.title);
        out.append("\x1b[0m\r\n\x1b[90m");
        push_decimal(&mut out, count as u64);
        out.append(" file(s) selected \u{b7} ");
        out.append(human_size(size).as_str());
        out.append("\x1b[0m\r\n");
        push_rule(&mut out, width);
        let ghost head = out@;
        let total: usize = self.rows.len();
        let n: usize = if self.top >= total {
            0
        } else if total - self.top < view {
            total - self.top
        } else {
            view
        };
        let mut k: usize = 0;
        assert(out@ =~= head + rows_text(all, self.chosen@, self.cursor as int, self.top as int, 0, width as nat));
        while k < n
            invariant
                self.wf(),
                all == row_models(self.rows@),
                total == self.rows@.len(),
                k <= n,
                n > 0 ==> self.top + n <= total,
                out@ == head + rows_text(
                    all,
                    self.chosen@,
                    self.cursor as int,
                    self.top as int,
                    k as int,
                    width as nat,
                ),
            decreases n - k,
        {
            let ghost before = out@;
            push_row(&mut out, self.rows, &self.chosen, self.cursor, self.top + k, width);
            k += 1;
            assert(out@ =~= head + rows_text(
                all,
                self.chosen@,
                self.cursor as int,
                self.top as int,
                k as int,
                width as nat,
            ));
        }
        push_rule(&mut out, width);
        out.append(
            " \x1b[1mspace\x1b[0m toggle  \x1b[1ma\x1b[0m all  \x1b[1mn\x1b[0m none  \x1b[1m\u{2191}\u{2193}/jk\x1b[0m move  \x1b[1menter\x1b[0m download  \x1b[1mq\x1b[0m cancel\r\n",
        );
        assert(out@ =~= screen_text(
            all,
            self.chosen@,
            self.cursor as int,
            self.top as int,
            view as int,
            self.title@,
            width as nat,
        ));
        out
    }
}

// ---------------------------------------------------------------------------
// Laws
// ---------------------------------------------------------------------------

/// Toggling a directory with files in it chooses all of them, or none if all
/// were chosen; its mark tells.
pub proof fn law_toggling_a_directory(rows: Seq<RowModel>, chosen: Seq<bool>, i: int, d: int)
    requires
        chosen.len() == rows.len(),
        0 <= i < rows.len(),
        rows[i].is_dir,
        is_file_below(rows, i, d),
    ensures
        mark(rows, toggled(rows, chosen, i), i) == (if mark(rows, chosen, i) == Mark::On {
            Mark::Off
        } else {
            Mark::On
        }),
        toggled(rows, chosen, i)[d] == (mark(rows, chosen, i) != Mark::On),
{
    let t = toggled(rows, chosen, i);
    let on = mark(rows, chosen, i) != Mark::On;
    lemma_run_end(rows, rows[i].depth, i + 1);
    assert forall|x: int| #[trigger] is_file_below(rows, i, x) implies t[x] == on by {}
    assert(t[d] == on);
}

/// Toggling changes files only, and of a directory only those in it.
pub proof fn law_toggling_stays_below(rows: Seq<RowModel>, chosen: Seq<bool>, i: int, d: int)
    requires
        chosen.len() == rows.len(),
        0 <= i < rows.len(),
        0 <= d < rows.len(),
        d != i,
        !is_file_below(rows, i, d),
    ensures
        toggled(rows, chosen, i)[d] == chosen[d],
{
}

/// Toggling a file twice, or a directory all of whose files are chosen,
/// leaves things as they were.
pub proof fn law_toggling_twice(rows: Seq<RowModel>, chosen: Seq<bool>, i: int)
    requires
        chosen.len() == rows.len(),
        0 <= i < rows.len(),
        !rows[i].is_dir || mark(rows, chosen, i) == Mark::On,
    ensures
        toggled(rows, toggled(rows, chosen, i), i) == chosen,
{
    let once = toggled(rows, chosen, i);
    let twice = toggled(rows, once, i);
    lemma_run_end(rows, rows[i].depth, i + 1);
    if rows[i].is_dir {
        let d = choose|d: int| #[trigger] is_file_below(rows, i, d) && chosen[d];
        law_toggling_a_directory(rows, chosen, i, d);
    }
    assert(twice =~= chosen);
}

/// What is picked are files, in order, each of them chosen; and every chosen
/// file is picked.
pub proof fn law_picked_are_chosen_files(rows: Seq<RowModel>, chosen: Seq<bool>, n: int, h: Seq<char>)
    requires
        chosen.len() == rows.len(),
        0 <= n <= rows.len(),
    ensures
        picked(rows, chosen, n).contains(h) <==> exists|i: int|
            0 <= i < n && chosen[i] && !(#[trigger] rows[i]).is_dir && rows[i].handle == h,
    decreases n,
{
    if n > 0 {
        law_picked_are_chosen_files(rows, chosen, n - 1, h);
        let before = picked(rows, chosen, n - 1);
        let all = picked(rows, chosen, n);
        if before.contains(h) {
            let a = choose|a: int| 0 <= a < before.len() && before[a] == h;
            assert(all[a] == h);
        }
        if all.contains(h) {
            let a = choose|a: int| 0 <= a < all.len() && all[a] == h;
            if a < before.len() {
                assert(before[a] == h);
            } else {
                assert(rows[n - 1].handle == h);
            }
        }
        if chosen[n - 1] && !rows[n - 1].is_dir && rows[n - 1].handle == h {
            assert(all.last() == h);
        }
    }
}

/// Bytes between others that both begin with some bytes begin with them too.
proof fn lemma_between(a: Seq<u8>, b: Seq<u8>, c: Seq<u8>)
    requires
        bytes_before(a, b),
        bytes_before(b, c),
        a.len() <= c.len(),
        c.take(a.len() as int) == a,
    ensures
        a.len() <= b.len(),
        b.take(a.len() as int) == a,
    decreases a.len(),
{
    if a.len() == 0 {
        assert(b.take(0) =~= a);
    } else {
        assert(c.take(a.len() as int)[0] == c[0]);
        assert(c.skip(1).take(a.len() - 1) =~= c.take(a.len() as int).skip(1));
        assert(a[0] == b[0] && b[0] == c[0]);
        lemma_between(a.skip(1), b.skip(1), c.skip(1));
        assert(b.take(a.len() as int) =~= seq![b[0]] + b.skip(1).take(a.len() - 1));
        assert(a =~= seq![a[0]] + a.skip(1));
    }
}

/// A text whose bytes begin with those of another begins with it.
proof fn lemma_byte_prefix(a: Seq<char>, b: Seq<char>)
    requires
        encode_utf8(a).len() <= encode_utf8(b).len(),
        encode_utf8(b).take(encode_utf8(a).len() as int) == encode_utf8(a),
    ensures
        has_prefix(b, a),
{
    let x = encode_utf8(a);
    let y = encode_utf8(b);
    let n = x.len() as int;
    encode_utf8_valid_utf8(a);
    encode_utf8_valid_utf8(b);
    assert(y.subrange(0, n) =~= x);
    let rest = y.subrange(n, y.len() as int);
    if !valid_utf8(rest) {
        partial_valid_partial_invalid_utf8(y, n);
    }
    let r = decode_utf8(rest);
    decode_utf8_encode_utf8(rest);
    lemma_encode_concat(a, r);
    assert(y =~= encode_utf8(a + r));
    encode_utf8_decode_utf8(b);
    encode_utf8_decode_utf8(a + r);
    assert(b == a + r);
    assert(b.take(a.len() as int) =~= a);
}

/// A text that begins with another has bytes that begin with its bytes.
proof fn lemma_prefix_bytes(a: Seq<char>, b: Seq<char>)
    requires
        has_prefix(b, a),
    ensures
        encode_utf8(a).len() <= encode_utf8(b).len(),
        encode_utf8(b).take(encode_utf8(a).len() as int) == encode_utf8(a),
{
    let r = b.skip(a.len() as int);
    assert(b =~= a + r);
    lemma_encode_concat(a, r);
    assert(encode_utf8(b).take(encode_utf8(a).len() as int) =~= encode_utf8(a));
}

proof fn lemma_count_concat(a: Seq<char>, b: Seq<char>, c: char)
    ensures
        count_of(a + b, c) == count_of(a, c) + count_of(b, c),
    decreases b.len(),
{
    if b.len() == 0 {
        assert(a + b =~= a);
    } else {
        assert((a + b).drop_last() =~= a + b.drop_last());
        lemma_count_concat(a, b.drop_last(), c);
    }
}

/// What lies below a directory has a sort key that goes on from its own.
proof fn lemma_below_key(f: FolderModel, i: int, d: int)
    requires
        is_pathed(f),
        0 <= i < f.nodes.len(),
        0 <= d < f.nodes.len(),
        f.nodes[i].is_dir,
        is_under(f, d, i),
        d != i,
    ensures
        node_sort_key(f, i).len() <= node_sort_key(f, d).len(),
        node_sort_key(f, d).take(node_sort_key(f, i).len() as int) == node_sort_key(f, i),
        bytes_before(node_sort_key(f, i), node_sort_key(f, d)),
{
    law_subtree_paths(f, d, i);
    let top = f.nodes[i].path.push('/');
    let path = f.nodes[d].path;
    let s = sort_text(f.nodes[d].is_dir, path);
    assert(s.take(top.len() as int) =~= path.take(top.len() as int));
    lemma_prefix_bytes(top, s);
    let rest = s.skip(top.len() as int);
    assert(s =~= top + rest);
    lemma_encode_concat(top, rest);
    assert(rest.len() > 0);
    assert(encode_utf8(rest).len() > 0);
    lemma_prefix_before(encode_utf8(top), encode_utf8(s));
}

/// What lies below a node is deeper.
proof fn lemma_below_depth(f: FolderModel, i: int, d: int)
    requires
        is_pathed(f),
        0 <= i < f.nodes.len(),
        0 <= d < f.nodes.len(),
        is_under(f, d, i),
        d != i,
    ensures
        rows_of(folder_entries(f))[d].depth > rows_of(folder_entries(f))[i].depth,
{
    law_subtree_paths(f, d, i);
    let top = f.nodes[i].path.push('/');
    let path = f.nodes[d].path;
    let tail = path.skip(top.len() as int);
    assert(path =~= top + tail);
    lemma_count_concat(top, tail, '/');
    assert(top.drop_last() =~= f.nodes[i].path);
    lemma_some_slash(f, i);
}

/// What lies below a directory comes after it.
proof fn lemma_below(f: FolderModel, i: int, d: int)
    requires
        is_plain(f),
        0 <= i < f.nodes.len(),
        0 <= d < f.nodes.len(),
        f.nodes[i].is_dir,
        is_under(f, d, i),
        d != i,
    ensures
        i < d,
        rows_of(folder_entries(f))[d].depth > rows_of(folder_entries(f))[i].depth,
        node_sort_key(f, i).len() <= node_sort_key(f, d).len(),
        node_sort_key(f, d).take(node_sort_key(f, i).len() as int) == node_sort_key(f, i),
{
    lemma_below_key(f, i, d);
    lemma_below_depth(f, i, d);
    lemma_sorted_position(f, i, d);
}

proof fn lemma_run_covers(rows: Seq<RowModel>, depth: nat, from: int, d: int)
    requires
        0 <= from <= d < rows.len(),
        forall|x: int| from <= x <= d ==> (#[trigger] rows[x]).depth > depth,
    ensures
        d < run_end(rows, depth, from),
    decreases d - from,
{
    assert(rows[from].depth > depth);
    if from < d {
        lemma_run_covers(rows, depth, from + 1, d);
    } else {
        lemma_run_end(rows, depth, from + 1);
    }
}

/// A node in the run of deeper lines behind a directory lies below it.
proof fn lemma_run_is_below(f: FolderModel, i: int, d: int)
    requires
        is_plain(f),
        0 <= i < d < f.nodes.len(),
        f.nodes[i].is_dir,
        d < subtree_end(rows_of(folder_entries(f)), i),
    ensures
        is_under(f, d, i),
    decreases d,
{
    let rows = rows_of(folder_entries(f));
    lemma_run_end(rows, rows[i].depth, i + 1);
    assert(rows[d].depth > rows[i].depth);
    let up = tree_parents(f);
    if d == f.root {
        lemma_climbs_is_above(up, f.root, i, f.nodes.len());
        lemma_below_depth(f, f.root, i);
    } else {
        let p = f.nodes[d].parent->Some_0;
        assert(up[d] == Some(p));
        assert(f.nodes[p].is_dir);
        assert(is_under(f, d, p)) by {
            assert(at_or_above(up, p, p, (f.nodes.len() - 1) as nat));
        }
        lemma_own_parent(f, d);
        lemma_below(f, p, d);
        if p == i {
        } else if p > i {
            lemma_run_is_below(f, i, p);
            lemma_under_step(f, d, p, i);
        } else {
            lemma_strictly_sorted(f, p, i);
            lemma_strictly_sorted(f, i, d);
            lemma_between(node_sort_key(f, p), node_sort_key(f, i), node_sort_key(f, d));
            let a = f.nodes[p].path.push('/');
            let b = f.nodes[i].path.push('/');
            lemma_byte_prefix(a, b);
            assert(f.nodes[p].path != f.nodes[i].path);
            if a.len() == b.len() {
                assert(b.take(a.len() as int) =~= b);
                assert(f.nodes[p].path =~= a.drop_last());
                assert(f.nodes[i].path =~= b.drop_last());
            }
            assert(f.nodes[i].path.take(a.len() as int) =~= b.take(a.len() as int));
            law_subtree_is_what_lies_below_path(f, i, p);
            lemma_below(f, p, i);
            lemma_depth_of_child(f, d);
        }
    }
}

/// A node is one line deeper than its parent.
proof fn lemma_depth_of_child(f: FolderModel, d: int)
    requires
        is_pathed(f),
        0 <= d < f.nodes.len(),
        d != f.root,
    ensures
        rows_of(folder_entries(f))[d].depth == rows_of(folder_entries(f))[f.nodes[d].parent->Some_0].depth + 1,
{
    let p = f.nodes[d].parent->Some_0;
    let up = tree_parents(f);
    assert(up[d] == Some(p));
    let above = f.nodes[p].path;
    let name = f.nodes[d].name;
    assert(f.nodes[d].path == above.push('/') + name);
    lemma_count_concat(above.push('/'), name, '/');
    assert(above.push('/').drop_last() =~= above);
    assert(is_name(name));
    lemma_no_slash(name);
    lemma_some_slash(f, p);
}

proof fn lemma_no_slash(s: Seq<char>)
    requires
        !s.contains('/'),
    ensures
        count_of(s, '/') == 0,
    decreases s.len(),
{
    if s.len() > 0 {
        assert(s.last() != '/') by {
            if s.last() == '/' {
                assert(s.contains('/'));
            }
        }
        assert(!s.drop_last().contains('/')) by {
            if s.drop_last().contains('/') {
                let j = choose|j: int| 0 <= j < s.len() - 1 && s.drop_last()[j] == '/';
                assert(s[j] == '/');
            }
        }
        lemma_no_slash(s.drop_last());
    }
}

proof fn lemma_some_slash(f: FolderModel, i: int)
    requires
        is_pathed(f),
        0 <= i < f.nodes.len(),
    ensures
        count_of(f.nodes[i].path, '/') >= 1,
{
    let name = f.nodes[i].name;
    if i == f.root {
        lemma_count_concat(seq!['/'], name, '/');
        assert(seq!['/'].drop_last() =~= Seq::<char>::empty());
        reveal_with_fuel(count_of, 2);
        assert(count_of(seq!['/'], '/') == 1);
    } else {
        assert(f.nodes[i].parent is Some);
        let above = f.nodes[f.nodes[i].parent->Some_0].path;
        lemma_count_concat(above.push('/'), name, '/');
        assert(above.push('/').drop_last() =~= above);
    }
}

/// No node is its own parent.
proof fn lemma_own_parent(f: FolderModel, d: int)
    requires
        is_pathed(f),
        0 <= d < f.nodes.len(),
        d != f.root,
    ensures
        f.nodes[d].parent != Some(d),
{
    let p = f.nodes[d].parent->Some_0;
    assert(f.nodes[d].path == f.nodes[p].path.push('/') + f.nodes[d].name);
    assert(f.nodes[d].path.len() == f.nodes[p].path.len() + 1 + f.nodes[d].name.len());
}

proof fn lemma_under_step(f: FolderModel, d: int, p: int, i: int)
    requires
        is_pathed(f),
        0 <= d < f.nodes.len(),
        d != f.root,
        f.nodes[d].parent == Some(p),
        is_under(f, p, i),
    ensures
        is_under(f, d, i),
{
    let up = tree_parents(f);
    let len = f.nodes.len();
    assert(up[d] == Some(p));
    assert(climbs(up, f.root, d, len));
    assert(up[f.root] is None);
    lemma_above_within(up, f.root, p, i, len, (len - 1) as nat);
}

/// Lines are sorted by path, so that the subtree of a directory is the run
/// of deeper lines behind it.
pub proof fn law_subtrees_are_runs(f: FolderModel, i: int, d: int)
    requires
        is_plain(f),
        0 <= i < f.nodes.len(),
        0 <= d < f.nodes.len(),
        f.nodes[i].is_dir,
    ensures
        is_under(f, d, i) && d != i <==> i < d < subtree_end(rows_of(folder_entries(f)), i),
{
    let rows = rows_of(folder_entries(f));
    if is_under(f, d, i) && d != i {
        lemma_below(f, i, d);
        assert forall|x: int| i + 1 <= x <= d implies (#[trigger] rows[x]).depth > rows[i].depth by {
            if x < d {
                lemma_strictly_sorted(f, i, x);
                lemma_strictly_sorted(f, x, d);
                lemma_between(node_sort_key(f, i), node_sort_key(f, x), node_sort_key(f, d));
                let a = f.nodes[i].path.push('/');
                let s = sort_text(f.nodes[x].is_dir, f.nodes[x].path);
                lemma_byte_prefix(a, s);
                lemma_path_ends(f, x);
                assert(f.nodes[i].path != f.nodes[x].path);
                if f.nodes[x].is_dir && a.len() == s.len() {
                    assert(s.take(a.len() as int) =~= s);
                    assert(f.nodes[i].path =~= a.drop_last());
                    assert(f.nodes[x].path =~= s.drop_last());
                }
                assert(f.nodes[x].path.take(a.len() as int) =~= s.take(a.len() as int));
                law_subtree_is_what_lies_below_path(f, x, i);
                lemma_below(f, i, x);
            }
        }
        lemma_run_covers(rows, rows[i].depth, i + 1, d);
    }
    if i < d < subtree_end(rows, i) {
        lemma_run_is_below(f, i, d);
    }
}

/// The nodes of a folder can be told apart by their handles, and only
/// directories have something below them.
pub open spec fn is_orderly(f: FolderModel) -> bool {
    &&& is_rooted(f)
    &&& forall|a: int| 0 <= a < f.nodes.len() ==> (#[trigger] f.nodes[a]).handle.len() > 0
    &&& forall|a: int, b: int|
        0 <= a < b < f.nodes.len() ==> (#[trigger] f.nodes[a]).handle != (#[trigger] f.nodes[b]).handle
    &&& parents_are_dirs(f)
}

/// What is picked from a folder is what is fetched: a file is planned if and
/// only if its line was chosen, as long as any was.
pub proof fn law_picked_files_are_planned(f: FolderModel, chosen: Seq<bool>, i: int)
    requires
        is_orderly(f),
        chosen.len() == f.nodes.len(),
        0 <= i < f.nodes.len(),
        !f.nodes[i].is_dir,
        picked(rows_of(folder_entries(f)), chosen, f.nodes.len() as int).len() > 0,
    ensures
        is_planned(f, planned_files(f, picked(rows_of(folder_entries(f)), chosen, f.nodes.len() as int)), i)
            <==> chosen[i],
{
    let rows = rows_of(folder_entries(f));
    let len = f.nodes.len() as int;
    let sel = picked(rows, chosen, len);
    let hs = handles(f.nodes);
    let files = planned_files(f, sel);
    law_plan_is_what_was_chosen(f, sel);
    if chosen[i] {
        law_picked_are_chosen_files(rows, chosen, len, hs[i]);
        assert(rows[i].handle == hs[i] && !rows[i].is_dir);
        let j = choose|j: int| 0 <= j < sel.len() && sel[j] == hs[i];
        lemma_last_with_found(hs, i);
        lemma_last_with(hs, hs[i]);
        let n = last_with(hs, hs[i])->Some_0;
        assert(f.nodes[n].handle == f.nodes[i].handle);
        law_selection_is_planned(f, sel, j, i);
    }
    if is_planned(f, files, i) {
        let a = choose|a: int| 0 <= a < files.len() && f.nodes[#[trigger] files[a]].handle == f.nodes[i].handle;
        assert(files[a] == i);
        let nodes = chosen_nodes(f, sel);
        let c = choose|c: int| 0 <= c < nodes.len() && is_under(f, i, #[trigger] nodes[c]);
        let m = nodes[c];
        assert(nodes.contains(m));
        law_nested_choices_are_pruned(f, sel, m);
        lemma_found_has_handle(sel, hs, sel.len() as int, m);
        law_picked_are_chosen_files(rows, chosen, len, hs[m]);
        let k = choose|k: int| 0 <= k < len && chosen[k] && !(#[trigger] rows[k]).is_dir && rows[k].handle == hs[m];
        assert(f.nodes[k].handle == f.nodes[m].handle);
        if i != m {
            lemma_above_is_directory(f, i, m, f.nodes.len());
        }
    }
}

proof fn lemma_control_runs(params: Seq<char>, end: char, rest: Seq<char>)
    requires
        forall|i: int| 0 <= i < params.len() ==> !('@' <= #[trigger] params[i] <= '~'),
        '@' <= end <= '~',
    ensures
        visible(params + seq![end] + rest, Escape::Control) == visible(rest, Escape::Outside),
    decreases params.len(),
{
    let s = params + seq![end] + rest;
    if params.len() == 0 {
        assert(s[0] == end);
        assert(s.skip(1) =~= rest);
    } else {
        let t = params.skip(1);
        assert(s[0] == params[0]);
        assert(s.skip(1) =~= t + seq![end] + rest);
        assert forall|i: int| 0 <= i < t.len() implies !('@' <= #[trigger] t[i] <= '~') by {
            assert(t[i] == params[i + 1]);
        }
        lemma_control_runs(t, end, rest);
    }
}

/// A control sequence is not seen, whatever letter ends it, and nothing
/// else is hidden by it.
pub proof fn law_control_sequences_are_not_seen(params: Seq<char>, end: char, rest: Seq<char>)
    requires
        forall|i: int| 0 <= i < params.len() ==> !('@' <= #[trigger] params[i] <= '~'),
        '@' <= end <= '~',
    ensures
        visible(seq!['\u{1b}', '['] + params + seq![end] + rest, Escape::Outside) == visible(rest, Escape::Outside),
{
    let s = seq!['\u{1b}', '['] + params + seq![end] + rest;
    assert(s[0] == '\u{1b}');
    let t = s.skip(1);
    assert(t[0] == '[');
    assert(t.skip(1) =~= params + seq![end] + rest);
    assert(visible(s, Escape::Outside) == visible(t, Escape::Opened));
    assert(visible(t, Escape::Opened) == visible(t.skip(1), Escape::Control));
    lemma_control_runs(params, end, rest);
}

/// In a text without escape characters every character is seen.
pub proof fn law_plain_text_is_seen(s: Seq<char>)
    requires
        !s.contains('\u{1b}'),
    ensures
        visible(s, Escape::Outside) == s.len(),
    decreases s.len(),
{
    if s.len() > 0 {
        let t = s.skip(1);
        assert(s.contains(s[0]));
        assert forall|i: int| 0 <= i < t.len() implies #[trigger] t[i] != '\u{1b}' by {
            assert(t[i] == s[i + 1]);
            assert(s.contains(s[i + 1]));
        }
        law_plain_text_is_seen(t);
    }
}

/// A row shows the entry's name, size, type and handle.
pub proof fn law_rows_show_entries(entries: Seq<EntryModel>, i: int)
    requires
        0 <= i < entries.len(),
    ensures
        rows_of(entries).len() == entries.len(),
        rows_of(entries)[i].label == entries[i].name,
        rows_of(entries)[i].size == entries[i].size,
        rows_of(entries)[i].is_dir == entries[i].is_dir,
        rows_of(entries)[i].handle == entries[i].handle,
{
}

/// A top-level entry is not indented, and one below another is indented by
/// one more than that.
pub proof fn law_rows_are_indented(above: EntryModel, below: EntryModel, name: Seq<char>)
    requires
        !name.contains('/'),
        count_of(above.path, '/') > 0,
        below.path == above.path + seq!['/'] + name,
    ensures
        row_of(below).depth == row_of(above).depth + 1,
        above.path == seq!['/'] + name ==> row_of(above).depth == 0,
{
    let p = above.path;
    law_counting_adds_up(p + seq!['/'], name, '/');
    law_counting_adds_up(p, seq!['/'], '/');
    law_counting_adds_up(name, Seq::empty(), '/');
    law_counting_adds_up(seq!['/'], name, '/');
    assert(name + Seq::<char>::empty() =~= name);
}

/// What lies below a row are the rows behind it that are indented more, up
/// to the first that is not.
pub proof fn law_what_lies_below(rows: Seq<RowModel>, i: int, d: int)
    requires
        0 <= i < rows.len(),
        i < d,
    ensures
        d < subtree_end(rows, i) <==> d < rows.len() && forall|k: int| i < k <= d ==> (#[trigger] rows[k]).depth
            > rows[i].depth,
{
    lemma_run_reaches(rows, rows[i].depth, i + 1, d);
}

proof fn lemma_run_reaches(rows: Seq<RowModel>, depth: nat, from: int, d: int)
    requires
        0 <= from <= rows.len(),
        from <= d,
    ensures
        from <= run_end(rows, depth, from) <= rows.len(),
        d < run_end(rows, depth, from) <==> d < rows.len() && forall|k: int| from <= k <= d ==> (#[trigger] rows[k]).depth
            > depth,
    decreases rows.len() - from,
{
    if from < rows.len() {
        if rows[from].depth > depth {
            if from < d {
                lemma_run_reaches(rows, depth, from + 1, d);
                if d < rows.len() && forall|k: int| from + 1 <= k <= d ==> (#[trigger] rows[k]).depth > depth {
                    assert forall|k: int| from <= k <= d implies (#[trigger] rows[k]).depth > depth by {}
                }
            } else {
                lemma_run_reaches(rows, depth, from + 1, d + 1);
            }
        }
    }
}

/// File `d` lies below row `i`: every row from there to the file is indented
/// more than row `i`.
pub open spec fn is_inside(rows: Seq<RowModel>, i: int, d: int) -> bool {
    i < d < rows.len() && !rows[d].is_dir && forall|k: int| i < k <= d ==> (#[trigger] rows[k]).depth > rows[i].depth
}

/// A file is marked if it is chosen. A directory is marked if one file in it
/// is chosen at least, and partly so if one is not.
pub proof fn law_marks(rows: Seq<RowModel>, chosen: Seq<bool>, i: int)
    requires
        0 <= i < rows.len(),
        chosen.len() == rows.len(),
    ensures
        !rows[i].is_dir ==> mark(rows, chosen, i) == (if chosen[i] {
            Mark::On
        } else {
            Mark::Off
        }),
        rows[i].is_dir ==> {
            let some = exists|d: int| #[trigger] is_inside(rows, i, d) && chosen[d];
            let all = forall|d: int| #[trigger] is_inside(rows, i, d) ==> chosen[d];
            &&& mark(rows, chosen, i) == Mark::Off <==> !some
            &&& mark(rows, chosen, i) == Mark::On <==> some && all
            &&& mark(rows, chosen, i) == Mark::Partial <==> some && !all
        },
{
    assert forall|d: int| #[trigger] is_inside(rows, i, d) == is_file_below(rows, i, d) by {
        if i < d {
            law_what_lies_below(rows, i, d);
        }
    }
    let some = exists|d: int| #[trigger] is_inside(rows, i, d) && chosen[d];
    let some_below = exists|d: int| #[trigger] is_file_below(rows, i, d) && chosen[d];
    assert(some == some_below) by {
        if some {
            let d = choose|d: int| #[trigger] is_inside(rows, i, d) && chosen[d];
            assert(is_file_below(rows, i, d) && chosen[d]);
        }
        if some_below {
            let d = choose|d: int| #[trigger] is_file_below(rows, i, d) && chosen[d];
            assert(is_inside(rows, i, d) && chosen[d]);
        }
    }
    let all = forall|d: int| #[trigger] is_inside(rows, i, d) ==> chosen[d];
    let all_below = forall|d: int| #[trigger] is_file_below(rows, i, d) ==> chosen[d];
    assert(all == all_below) by {
        if all {
            assert forall|d: int| #[trigger] is_file_below(rows, i, d) implies chosen[d] by {
                assert(is_inside(rows, i, d));
            }
        }
        if all_below {
            assert forall|d: int| #[trigger] is_inside(rows, i, d) implies chosen[d] by {
                assert(is_file_below(rows, i, d));
            }
        }
    }
}

/// Toggling a file changes that file alone. Toggling a directory chooses all
/// files in it, unless all of them are chosen already: then it chooses none
/// of them. It changes nothing else.
pub proof fn law_toggling(rows: Seq<RowModel>, chosen: Seq<bool>, i: int, d: int)
    requires
        0 <= i < rows.len(),
        0 <= d < rows.len(),
        chosen.len() == rows.len(),
    ensures
        ({
            let t = toggled(rows, chosen, i);
            &&& t.len() == chosen.len()
            &&& !rows[i].is_dir ==> t[d] == (if d == i {
                !chosen[i]
            } else {
                chosen[d]
            })
            &&& rows[i].is_dir && !is_inside(rows, i, d) ==> t[d] == chosen[d]
            &&& rows[i].is_dir && is_inside(rows, i, d) ==> t[d] == exists|x: int| #[trigger]
                is_inside(rows, i, x) && !chosen[x]
        }),
{
    law_marks(rows, chosen, i);
    if i < d {
        law_what_lies_below(rows, i, d);
    }
    assert(is_inside(rows, i, d) == is_file_below(rows, i, d));
    if rows[i].is_dir && is_inside(rows, i, d) {
        let t = toggled(rows, chosen, i);
        assert(t[d] == (mark(rows, chosen, i) != Mark::On));
        if exists|x: int| #[trigger] is_inside(rows, i, x) && !chosen[x] {
            let x = choose|x: int| #[trigger] is_inside(rows, i, x) && !chosen[x];
            assert(!(is_inside(rows, i, x) ==> chosen[x]));
            assert(mark(rows, chosen, i) != Mark::On);
        } else {
            assert(forall|x: int| #[trigger] is_inside(rows, i, x) ==> chosen[x]);
            assert(is_inside(rows, i, d) && chosen[d]);
            assert(mark(rows, chosen, i) == Mark::On);
        }
    }
}

/// The cursor goes up and down by one row and stops at the ends, or goes to
/// either end at once. What goes down comes up again. No other key moves it.
pub proof fn law_cursor_moves(cursor: int, key: Key, count: int)
    requires
        0 <= cursor < count,
    ensures
        0 <= moved(cursor, key, count) < count,
        key == Key::Up || key == Key::Char('k') ==> moved(cursor, key, count) == (if cursor > 0 {
            cursor - 1
        } else {
            0
        }),
        key == Key::Down || key == Key::Char('j') ==> moved(cursor, key, count) == (if cursor < count - 1 {
            cursor + 1
        } else {
            count - 1
        }),
        cursor < count - 1 ==> moved(moved(cursor, Key::Down, count), Key::Up, count) == cursor,
        key == Key::Char('g') ==> moved(cursor, key, count) == 0,
        key == Key::Char('G') ==> moved(cursor, key, count) == count - 1,
        !(key is Up || key is Down || key is Char) ==> moved(cursor, key, count) == cursor,
        key matches Key::Char(c) ==> c == 'j' || c == 'k' || c == 'g' || c == 'G' || moved(cursor, key, count) == cursor,
{
}

/// One key chooses every file and one chooses none; the space bar toggles the
/// row under the cursor. No other key changes what is chosen.
pub proof fn law_choosing_keys(rows: Seq<RowModel>, chosen: Seq<bool>, cursor: int, key: Key, i: int)
    requires
        0 <= i < rows.len(),
        chosen.len() == rows.len(),
    ensures
        key == Key::Space ==> rechosen(rows, chosen, cursor, key) == toggled(rows, chosen, cursor),
        key == Key::Char('a') ==> rechosen(rows, chosen, cursor, key)[i] == !rows[i].is_dir,
        key == Key::Char('n') ==> !rechosen(rows, chosen, cursor, key)[i],
        key != Key::Space && key != Key::Char('a') && key != Key::Char('n') ==> rechosen(rows, chosen, cursor, key) == chosen,
        rechosen(rows, chosen, cursor, key).len() == rows.len(),
{
}

/// With every file chosen, the handles of all files are picked; with none
/// chosen, nothing is.
pub proof fn law_all_and_none(rows: Seq<RowModel>, n: int, h: Seq<char>)
    requires
        0 <= n <= rows.len(),
    ensures
        picked(rows, all_files(rows), n).contains(h) <==> exists|i: int|
            0 <= i < n && !(#[trigger] rows[i]).is_dir && rows[i].handle == h,
        picked(rows, nothing(rows), n).len() == 0,
    decreases n,
{
    law_picked_are_chosen_files(rows, all_files(rows), n, h);
    if n > 0 {
        law_all_and_none(rows, n - 1, h);
    }
    if exists|i: int| 0 <= i < n && !(#[trigger] rows[i]).is_dir && rows[i].handle == h {
        let i = choose|i: int| 0 <= i < n && !(#[trigger] rows[i]).is_dir && rows[i].handle == h;
        assert(all_files(rows)[i] && !rows[i].is_dir);
    }
}

/// Choosing ends with one of four keys: with Enter the chosen files are
/// downloaded, with Esc, q or Ctrl-C nothing is. What is typed behind that
/// key does not count.
pub proof fn law_keys_that_end(rows: Seq<RowModel>, chosen: Seq<bool>, cursor: int, key: Key, rest: Seq<Key>)
    ensures
        cancels(key) <==> key is Esc || key is CtrlC || key == Key::Char('q'),
        outcome(rows, chosen, cursor, seq![Key::Enter] + rest) == Some(picked(rows, chosen, rows.len() as int)),
        cancels(key) ==> outcome(rows, chosen, cursor, seq![key] + rest) is None,
        outcome(rows, chosen, cursor, Seq::empty()) is None,
        key != Key::Enter && !cancels(key) ==> outcome(rows, chosen, cursor, seq![key] + rest) == outcome(
            rows,
            rechosen(rows, chosen, cursor, key),
            moved(cursor, key, rows.len() as int),
            rest,
        ),
{
    assert((seq![key] + rest)[0] == key);
    assert((seq![key] + rest).skip(1) =~= rest);
    assert((seq![Key::Enter] + rest)[0] == Key::Enter);
}

/// Sizes are added as numbers of 64 bits are: exactly where the sum fits.
pub proof fn law_sums_of_sizes(a: i64, b: i64)
    ensures
        i64::MIN <= wrapped_sum(a as int, b as int) <= i64::MAX,
        i64::MIN <= a + b <= i64::MAX ==> wrapped_sum(a as int, b as int) == a + b,
        (wrapped_sum(a as int, b as int) - (a + b)) % 0x1_0000_0000_0000_0000 == 0,
{
}

/// The size that is shown counts every chosen file once, and nothing else.
pub proof fn law_picked_size(rows: Seq<RowModel>, chosen: Seq<bool>, n: int)
    requires
        0 <= n < rows.len(),
    ensures
        picked_size(rows, chosen, 0) == 0,
        chosen[n] && !rows[n].is_dir ==> picked_size(rows, chosen, n + 1) == wrapped_sum(
            picked_size(rows, chosen, n),
            rows[n].size as int,
        ),
        !chosen[n] || rows[n].is_dir ==> picked_size(rows, chosen, n + 1) == picked_size(rows, chosen, n),
{
}

/// The screen is as wide as the terminal, within limits, and all but six
/// lines of the terminal are for the tree.
pub proof fn law_screen_size(cols: u16, term_rows: u16)
    ensures
        40 <= drawn_width(cols) <= 200,
        40 <= cols <= 200 ==> drawn_width(cols) == cols,
        cols < 40 ==> drawn_width(cols) == 40,
        cols > 200 ==> drawn_width(cols) == 200,
        term_rows >= 9 ==> view_height(term_rows) == term_rows - 6,
        term_rows < 9 ==> view_height(term_rows) == 3,
{
}

proof fn lemma_seen_then(a: Seq<char>, b: Seq<char>)
    requires
        !a.contains('\u{1b}'),
    ensures
        visible(a + b, Escape::Outside) == a.len() + visible(b, Escape::Outside),
    decreases a.len(),
{
    if a.len() == 0 {
        assert(a + b =~= b);
    } else {
        let t = a.skip(1);
        assert(a.contains(a[0]));
        assert((a + b)[0] == a[0]);
        assert((a + b).skip(1) =~= t + b);
        assert forall|i: int| 0 <= i < t.len() implies #[trigger] t[i] != '\u{1b}' by {
            assert(a.contains(a[i + 1]));
        }
        lemma_seen_then(t, b);
    }
}

proof fn lemma_mark_seen(m: Mark, rest: Seq<char>)
    ensures
        visible(mark_text(m) + rest, Escape::Outside) == 3 + visible(rest, Escape::Outside),
{
    reveal_strlit("\x1b[32m[x]\x1b[0m");
    reveal_strlit("\x1b[33m[~]\x1b[0m");
    reveal_strlit("[ ]");
    let esc = seq!['\u{1b}', '['];
    let end = esc + seq!['0'] + seq!['m'] + rest;
    law_control_sequences_are_not_seen(seq!['0'], 'm', rest);
    match m {
        Mark::On => {
            let s = seq!['[', 'x', ']'];
            assert(mark_text(m) + rest =~= esc + seq!['3', '2'] + seq!['m'] + (s + end));
            law_control_sequences_are_not_seen(seq!['3', '2'], 'm', s + end);
            lemma_seen_then(s, end);
        },
        Mark::Partial => {
            let s = seq!['[', '~', ']'];
            assert(mark_text(m) + rest =~= esc + seq!['3', '3'] + seq!['m'] + (s + end));
            law_control_sequences_are_not_seen(seq!['3', '3'], 'm', s + end);
            lemma_seen_then(s, end);
        },
        Mark::Off => {
            lemma_seen_then("[ ]"@, rest);
        },
    }
}

proof fn lemma_line_then(rows: Seq<RowModel>, chosen: Seq<bool>, i: int, rest: Seq<char>)
    requires
        0 <= i < rows.len(),
        !rows[i].label.contains('\u{1b}'),
    ensures
        visible(line_text(rows, chosen, i) + rest, Escape::Outside) == 4 + 2 * rows[i].depth + rows[i].label.len()
            + visible(rest, Escape::Outside) + if rows[i].is_dir {
            1int
        } else {
            0
        },
{
    reveal_strlit("\x1b[1;34m");
    reveal_strlit("/\x1b[0m");
    let m = mark(rows, chosen, i);
    let label = rows[i].label;
    let gap = seq![' '] + repeated(' ', 2 * rows[i].depth);
    let esc = seq!['\u{1b}', '['];
    let last = if rows[i].is_dir {
        "\x1b[1;34m"@ + label + "/\x1b[0m"@
    } else {
        label
    };
    assert(line_text(rows, chosen, i) + rest =~= mark_text(m) + (gap + (last + rest)));
    lemma_mark_seen(m, gap + (last + rest));
    lemma_seen_then(gap, last + rest);
    if rows[i].is_dir {
        let end = esc + seq!['0'] + seq!['m'] + rest;
        let params = seq!['1', ';', '3', '4'];
        let named = label.push('/');
        assert(last + rest =~= esc + params + seq!['m'] + (named + end));
        law_control_sequences_are_not_seen(params, 'm', named + end);
        assert forall|j: int| 0 <= j < named.len() implies #[trigger] named[j] != '\u{1b}' by {
            if j < label.len() {
                assert(label.contains(label[j]));
            }
        }
        lemma_seen_then(named, end);
        law_control_sequences_are_not_seen(seq!['0'], 'm', rest);
    } else {
        lemma_seen_then(label, rest);
    }
}

/// What is seen of a line is its mark, two spaces for each step of
/// indentation and its label, with a slash behind that of a directory.
pub proof fn law_line_width(rows: Seq<RowModel>, chosen: Seq<bool>, i: int)
    requires
        0 <= i < rows.len(),
        !rows[i].label.contains('\u{1b}'),
    ensures
        visible(line_text(rows, chosen, i), Escape::Outside) == 4 + 2 * rows[i].depth + rows[i].label.len()
            + if rows[i].is_dir {
            1int
        } else {
            0
        },
        has_text(line_text(rows, chosen, i), rows[i].label),
        has_prefix(line_text(rows, chosen, i), mark_text(mark(rows, chosen, i))),
{
    let line = line_text(rows, chosen, i);
    lemma_line_then(rows, chosen, i, Seq::empty());
    assert(line + Seq::<char>::empty() =~= line);
    let head = mark_text(mark(rows, chosen, i));
    let a = head + seq![' '] + repeated(' ', 2 * rows[i].depth);
    if rows[i].is_dir {
        assert(line =~= (a + "\x1b[1;34m"@) + rows[i].label + "/\x1b[0m"@);
        law_text_is_found(a + "\x1b[1;34m"@, rows[i].label, "/\x1b[0m"@);
    } else {
        assert(line =~= a + rows[i].label + Seq::<char>::empty());
        law_text_is_found(a, rows[i].label, Seq::empty());
    }
    assert(line.take(head.len() as int) =~= head);
}

/// The three marks: a cross for what is chosen, a space for what is not, and
/// a tilde for a directory of which only a part is.
pub proof fn law_mark_texts(m: Mark)
    ensures
        m is On <==> has_text(mark_text(m), seq!['[', 'x', ']']),
        m is Off <==> has_text(mark_text(m), seq!['[', ' ', ']']),
        m is Partial <==> has_text(mark_text(m), seq!['[', '~', ']']),
{
    reveal_strlit("\x1b[32m[x]\x1b[0m");
    reveal_strlit("\x1b[33m[~]\x1b[0m");
    reveal_strlit("[ ]");
    let s = mark_text(m);
    let needle = match m {
        Mark::On => seq!['[', 'x', ']'],
        Mark::Off => seq!['[', ' ', ']'],
        Mark::Partial => seq!['[', '~', ']'],
    };
    let at: int = if m is Off {
        0
    } else {
        5
    };
    assert(s.subrange(at, at + 3) =~= needle);
    assert(stands_at(s, needle, at));
    if !(m is On) {
        lemma_not_boxed(s, 'x');
    }
    if !(m is Off) {
        lemma_not_boxed(s, ' ');
    }
    if !(m is Partial) {
        lemma_not_boxed(s, '~');
    }
}

proof fn lemma_not_boxed(s: Seq<char>, c: char)
    requires
        forall|i: int| 0 <= i < s.len() ==> #[trigger] s[i] != c,
    ensures
        !has_text(s, seq!['[', c, ']']),
{
    let needle = seq!['[', c, ']'];
    if has_text(s, needle) {
        let i = choose|i: int| stands_at(s, needle, i);
        assert(s.subrange(i, i + 3)[1] == needle[1]);
        assert(s[i + 1] == c);
    }
}

proof fn lemma_size_not_hidden(n: int)
    ensures
        !size_text(n).contains('\u{1b}'),
{
    let s = size_text(n);
    reveal_strlit(" B");
    reveal_strlit(" KiB");
    reveal_strlit(" MiB");
    reveal_strlit(" GiB");
    reveal_strlit(" TiB");
    if n < 1024 {
        let k = if n < 0 {
            (-n) as nat
        } else {
            n as nat
        };
        law_decimal_reads_back(k);
        let digits = decimal(k);
        let a: int = if n < 0 {
            1
        } else {
            0
        };
        assert forall|j: int| 0 <= j < s.len() implies #[trigger] s[j] != '\u{1b}' by {
            if a <= j < a + digits.len() {
                assert(s[j] == digits[j - a]);
            }
        }
    } else {
        let m = rounded(n as nat);
        let tenths = rounded_quotient(10 * m, unit_bytes(unit_of(m)));
        let x = decimal(tenths / 10);
        let y = decimal(tenths % 10);
        law_decimal_reads_back(tenths / 10);
        law_decimal_reads_back(tenths % 10);
        assert forall|j: int| 0 <= j < s.len() implies #[trigger] s[j] != '\u{1b}' by {
            if j < x.len() {
                assert(s[j] == x[j]);
            } else if x.len() < j < x.len() + 1 + y.len() {
                assert(s[j] == y[j - x.len() - 1]);
            }
        }
    }
}

/// A row that fits is as wide as the screen, its line end counted: what it
/// shows stands on the left, and the size of a file on the right.
#[verifier::rlimit(60)]
pub proof fn law_row_width(rows: Seq<RowModel>, chosen: Seq<bool>, cursor: int, i: int, width: nat)
    requires
        0 <= i < rows.len(),
        !rows[i].label.contains('\u{1b}'),
        visible(line_text(rows, chosen, i), Escape::Outside) + line_size(rows[i]).len() + 3 <= width,
    ensures
        visible(row_text(rows, chosen, cursor, i, width), Escape::Outside) == width,
        rows[i].is_dir ==> line_size(rows[i]).len() == 0,
        !rows[i].is_dir ==> line_size(rows[i]) == size_text(rows[i].size as int),
{
    reveal_strlit("\x1b[7m \x1b[0m");
    reveal_strlit("\x1b[90m");
    reveal_strlit("\x1b[0m\r\n");
    let line = line_text(rows, chosen, i);
    let size = line_size(rows[i]);
    let pad = repeated(' ', padding(width, visible(line, Escape::Outside), size.len()));
    let esc = seq!['\u{1b}', '['];
    let end = "\x1b[0m\r\n"@;
    let nl = seq!['\r', '\n'];
    assert(end =~= esc + seq!['0'] + seq!['m'] + nl);
    law_control_sequences_are_not_seen(seq!['0'], 'm', nl);
    law_plain_text_is_seen(nl);
    if !rows[i].is_dir {
        lemma_size_not_hidden(rows[i].size as int);
    }
    lemma_seen_then(size, end);
    let tail = size + end;
    assert("\x1b[90m"@ + tail =~= esc + seq!['9', '0'] + seq!['m'] + tail);
    law_control_sequences_are_not_seen(seq!['9', '0'], 'm', tail);
    let padded = pad + ("\x1b[90m"@ + tail);
    lemma_seen_then(pad, "\x1b[90m"@ + tail);
    lemma_line_then(rows, chosen, i, padded);
    law_line_width(rows, chosen, i);
    let shown = line + padded;
    let row = row_text(rows, chosen, cursor, i, width);
    if i == cursor {
        let reset = esc + seq!['0'] + seq!['m'] + shown;
        let gap = seq![' '];
        assert(row =~= esc + seq!['7'] + seq!['m'] + (gap + reset));
        law_control_sequences_are_not_seen(seq!['7'], 'm', gap + reset);
        lemma_seen_then(gap, reset);
        law_control_sequences_are_not_seen(seq!['0'], 'm', shown);
    } else {
        let gap = seq![' '];
        assert(row =~= gap + shown);
        lemma_seen_then(gap, shown);
    }
}

proof fn lemma_rows_hold(rows: Seq<RowModel>, chosen: Seq<bool>, cursor: int, top: int, n: int, width: nat, k: int)
    requires
        0 <= k < n,
    ensures
        has_text(rows_text(rows, chosen, cursor, top, n, width), row_text(rows, chosen, cursor, top + k, width)),
    decreases n,
{
    let before = rows_text(rows, chosen, cursor, top, n - 1, width);
    let last = row_text(rows, chosen, cursor, top + n - 1, width);
    if k == n - 1 {
        law_text_is_found(before, last, Seq::empty());
        assert(before + last + Seq::<char>::empty() =~= before + last);
    } else {
        lemma_rows_hold(rows, chosen, cursor, top, n - 1, width, k);
        let needle = row_text(rows, chosen, cursor, top + k, width);
        law_found_text_stands(before, needle);
        let (a, b) = choose|a: Seq<char>, b: Seq<char>| before == #[trigger] (a + needle + b);
        assert(before + last =~= a + needle + (b + last));
        law_text_is_found(a, needle, b + last);
    }
}

/// The screen shows the title, how many files are chosen and their size, and
/// every row from the top of the window on for which there is room.
pub proof fn law_screen_shows_rows(
    rows: Seq<RowModel>,
    chosen: Seq<bool>,
    cursor: int,
    top: int,
    view: int,
    title: Seq<char>,
    width: nat,
    i: int,
)
    requires
        0 <= top <= i < rows.len(),
        i < top + view,
    ensures
        ({
            let screen = screen_text(rows, chosen, cursor, top, view, title, width);
            &&& has_text(screen, title)
            &&& has_text(
                screen,
                decimal(picked(rows, chosen, rows.len() as int).len()) + " file(s) selected \u{b7} "@ + size_text(
                    picked_size(rows, chosen, rows.len() as int),
                ),
            )
            &&& has_text(screen, row_text(rows, chosen, cursor, i, width))
        }),
{
    let screen = screen_text(rows, chosen, cursor, top, view, title, width);
    let count = rows.len() as int;
    let n = drawn_rows(count, top, view);
    let list = rows_text(rows, chosen, cursor, top, n, width);
    let summary = decimal(picked(rows, chosen, count).len()) + " file(s) selected \u{b7} "@ + size_text(
        picked_size(rows, chosen, count),
    );
    let a = "\x1b[H\x1b[2J\x1b[1;36m"@;
    let b = "\x1b[0m\r\n\x1b[90m"@;
    lemma_screen_parts(a, title, b, summary, "\x1b[0m\r\n"@, rule(width), list, rule(width), help_text());
    assert(a + title + b + decimal(picked(rows, chosen, count).len()) + " file(s) selected \u{b7} "@ + size_text(
        picked_size(rows, chosen, count),
    ) == a + title + b + summary) by {
        lemma_three_more(
            a + title + b,
            decimal(picked(rows, chosen, count).len()),
            " file(s) selected \u{b7} "@,
            size_text(picked_size(rows, chosen, count)),
        );
    }
    lemma_rows_hold(rows, chosen, cursor, top, n, width, i - top);
    let pre = a + title + b + summary + "\x1b[0m\r\n"@ + rule(width);
    let post = rule(width) + help_text();
    law_found_in_larger_text(pre, list, post, row_text(rows, chosen, cursor, i, width));
    assert(screen == pre + list + rule(width) + help_text());
    assert(pre + list + rule(width) + help_text() =~= pre + list + post);
}

proof fn lemma_three_more(s: Seq<char>, x: Seq<char>, y: Seq<char>, z: Seq<char>)
    ensures
        s + x + y + z == s + (x + y + z),
{
    assert(s + x + y + z =~= s + (x + y + z));
}

proof fn lemma_screen_parts(
    a: Seq<char>,
    title: Seq<char>,
    b: Seq<char>,
    summary: Seq<char>,
    c: Seq<char>,
    top_rule: Seq<char>,
    list: Seq<char>,
    end_rule: Seq<char>,
    help: Seq<char>,
)
    ensures
        has_text(a + title + b + summary + c + top_rule + list + end_rule + help, title),
        has_text(a + title + b + summary + c + top_rule + list + end_rule + help, summary),
{
    let tail = c + top_rule + list + end_rule + help;
    let screen = a + title + b + summary + c + top_rule + list + end_rule + help;
    assert(screen =~= a + title + b + summary + tail);
    law_text_is_found(a + title + b, summary, tail);
    assert(a + title + b + summary + tail =~= a + title + (b + summary + tail));
    law_text_is_found(a, title, b + summary + tail);
}

/// The rules above and below the tree are as wide as the screen.
pub proof fn law_rule_width(width: nat)
    ensures
        visible(rule(width), Escape::Outside) == width + 2,
{
    reveal_strlit("\x1b[90m");
    reveal_strlit("\x1b[0m\r\n");
    let esc = seq!['\u{1b}', '['];
    let nl = seq!['\r', '\n'];
    let end = esc + seq!['0'] + seq!['m'] + nl;
    let line = repeated('\u{2500}', width);
    assert(rule(width) =~= esc + seq!['9', '0'] + seq!['m'] + (line + end));
    law_control_sequences_are_not_seen(seq!['9', '0'], 'm', line + end);
    lemma_seen_then(line, end);
    law_control_sequences_are_not_seen(seq!['0'], 'm', nl);
    law_plain_text_is_seen(nl);
}

} // verus!
