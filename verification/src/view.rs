//! The download manager's screen, as text with escape sequences.

use vstd::prelude::*;
use vstd::string::*;
use vstd::utf8::*;

use crate::size::{human_size, size_text};
use crate::text::{
    chars_of, decimal, has_prefix, has_text, law_found_in_larger_text, law_text_is_found,
    push_decimal, push_repeated, repeated, string_range,
};
use crate::tui::{Item, Mode, ModeModel, Status, Ui};

verus! {

pub const ACCENT: &'static str = "\x1b[38;5;44m";

pub const DIM: &'static str = "\x1b[90m";

pub const GREEN: &'static str = "\x1b[32m";

pub const RED: &'static str = "\x1b[31m";

pub const YELLOW: &'static str = "\x1b[33m";

pub const BOLD: &'static str = "\x1b[1m";

pub const OFF: &'static str = "\x1b[0m";

/// The measured part of an active item: a bar, the percentage and the speed.
#[derive(Debug)]
pub struct Gauge {
    pub bar: String,
    pub percent: String,
    pub speed: String,
}

// ---------------------------------------------------------------------------
// Pieces
// ---------------------------------------------------------------------------

/// The width that is drawn on a terminal with this many columns.
pub open spec fn screen_width(cols: u16) -> nat {
    if cols < 48 {
        48
    } else if cols > 160 {
        160
    } else {
        cols as nat
    }
}

/// The width that is drawn on a terminal with this many columns.
pub fn width_for(cols: u16) -> (width: usize)
    ensures
        width == screen_width(cols),
        48 <= width <= 160,
{
    if cols < 48 {
        48
    } else if cols > 160 {
        160
    } else {
        cols as usize
    }
}

/// The width of a bar.
pub open spec fn bar_width(width: nat) -> nat {
    if width < 44 {
        10
    } else if width > 94 {
        60
    } else {
        (width - 34) as nat
    }
}

/// The width of a bar on a screen of this width.
pub fn bar_width_for(width: usize) -> (n: usize)
    ensures
        n == bar_width(width as nat),
{
    if width < 44 {
        10
    } else if width > 94 {
        60
    } else {
        width - 34
    }
}

/// `a - b`, or nothing where that is negative.
pub open spec fn less(a: nat, b: nat) -> nat {
    if a > b {
        (a - b) as nat
    } else {
        0
    }
}

/// `s` in a colour.
pub open spec fn painted(color: Seq<char>, s: Seq<char>) -> Seq<char> {
    color + s + OFF@
}

fn paint(color: &str, s: &str) -> (r: String)
    ensures
        r@ == painted(color@, s@),
{
    let mut r = color.to_owned();
    r.append(s);
    r.append(OFF);
    r
}

/// `s` cut to `max` characters, the last of them an ellipsis; as it is if it
/// fits, or if there is no room at all.
pub open spec fn truncated(s: Seq<char>, max: nat) -> Seq<char> {
    if s.len() <= max || max == 0 {
        s
    } else {
        s.take(max - 1).push('\u{2026}')
    }
}

/// Cuts a text to `max` characters.
pub fn truncate(s: &str, max: usize) -> (r: String)
    ensures
        r@ == truncated(s@, max as nat),
{
    let v = chars_of(s);
    if v.len() <= max || max == 0 {
        return s.to_owned();
    }
    let mut r = string_range(&v, 0, max - 1);
    r.push('\u{2026}');
    assert(r@ =~= truncated(s@, max as nat));
    r
}

/// The end of `s`, of at most `max` characters.
pub open spec fn tail(s: Seq<char>, max: nat) -> Seq<char> {
    if s.len() > max {
        s.skip(s.len() - max)
    } else {
        s
    }
}

/// A line across the screen, between two corners.
pub open spec fn edge_text(left: Seq<char>, right: Seq<char>, width: nat) -> Seq<char> {
    ACCENT@ + left + repeated('\u{2500}', less(width, 2)) + right + OFF@ + "\r\n"@
}

/// The upper edge of a box, with a label in it.
pub open spec fn label_text(label: Seq<char>, width: nat) -> Seq<char> {
    ACCENT@ + "\u{256D}\u{2500} "@ + painted(BOLD@, label) + seq![' '] + ACCENT@ + repeated(
        '\u{2500}',
        less(width, encode_utf8(label).len() + 6),
    ) + "\u{256E}"@ + OFF@ + "\r\n"@
}

/// The end of a line of input, in a box.
pub open spec fn input_text(buf: Seq<char>, width: nat) -> Seq<char> {
    let inner = less(width, 4);
    let shown = tail(buf, less(inner, 2));
    painted(ACCENT@, "\u{2502}"@) + seq![' '] + shown + painted(ACCENT@, "\u{2588}"@) + repeated(
        ' ',
        less(inner, shown.len() + 1),
    ) + painted(ACCENT@, "\u{2502}"@) + "\r\n"@
}

/// A box with a line of input in it.
pub open spec fn modal_text(label: Seq<char>, buf: Seq<char>, width: nat, hint: Seq<char>) -> Seq<char> {
    label_text(label, width) + input_text(buf, width) + edge_text("\u{2570}"@, "\u{256F}"@, width) + seq![' ']
        + painted(DIM@, hint) + "\r\n"@
}

fn minus(a: usize, b: usize) -> (c: usize)
    ensures
        c == less(a as nat, b as nat),
{
    if a > b {
        a - b
    } else {
        0
    }
}

fn write_edge(left: &str, right: &str, width: usize) -> (s: String)
    ensures
        s@ == edge_text(left@, right@, width as nat),
{
    let mut s = ACCENT.to_owned();
    s.append(left);
    push_repeated(&mut s, '\u{2500}', minus(width, 2));
    s.append(right);
    s.append(OFF);
    s.append("\r\n");
    s
}

fn write_label(label: &str, width: usize) -> (s: String)
    ensures
        s@ == label_text(label@, width as nat),
{
    let size: usize = label.as_bytes().len();
    let fill: usize = if width > 6 {
        minus(width - 6, size)
    } else {
        0
    };
    let mut s = ACCENT.to_owned();
    s.append("\u{256D}\u{2500} ");
    s.append(paint(BOLD, label).as_str());
    s.push(' ');
    s.append(ACCENT);
    push_repeated(&mut s, '\u{2500}', fill);
    s.append("\u{256E}");
    s.append(OFF);
    s.append("\r\n");
    assert(s@ =~= label_text(label@, width as nat));
    s
}

fn write_input(buf: &str, width: usize) -> (s: String)
    ensures
        s@ == input_text(buf@, width as nat),
{
    let inner: usize = minus(width, 4);
    let limit: usize = minus(inner, 2);
    let v = chars_of(buf);
    let shown = if v.len() > limit {
        let t = string_range(&v, v.len() - limit, v.len());
        assert(t@ =~= v@.skip(v@.len() - limit));
        t
    } else {
        buf.to_owned()
    };
    let shown_len: usize = chars_of(shown.as_str()).len();
    let fill: usize = if inner > 1 {
        minus(inner - 1, shown_len)
    } else {
        0
    };
    let mut s = paint(ACCENT, "\u{2502}");
    s.push(' ');
    s.append(shown.as_str());
    s.append(paint(ACCENT, "\u{2588}").as_str());
    push_repeated(&mut s, ' ', fill);
    s.append(paint(ACCENT, "\u{2502}").as_str());
    s.append("\r\n");
    assert(s@ =~= input_text(buf@, width as nat));
    s
}

/// Draws a box with a line of input in it.
pub fn modal(label: &str, buf: &str, width: usize, hint: &str) -> (s: String)
    requires
        width >= 2,
    ensures
        s@ == modal_text(label@, buf@, width as nat, hint@),
{
    let mut s = write_label(label, width);
    s.append(write_input(buf, width).as_str());
    s.append(write_edge("\u{2570}", "\u{256F}", width).as_str());
    s.push(' ');
    s.append(paint(DIM, hint).as_str());
    s.append("\r\n");
    assert(s@ =~= modal_text(label@, buf@, width as nat, hint@));
    s
}

// ---------------------------------------------------------------------------
// Header
// ---------------------------------------------------------------------------

/// How many items are being worked on, are done, and have failed.
pub struct Counts {
    pub active: usize,
    pub done: usize,
    pub failed: usize,
}

/// The counts of the first `n` items.
pub open spec fn counts_of<R, S>(items: Seq<Item<R, S>>, n: int) -> (nat, nat, nat)
    decreases n,
{
    if n <= 0 {
        (0, 0, 0)
    } else {
        let (active, done, failed) = counts_of(items, n - 1);
        match items[n - 1].status {
            Status::Active { .. } => (active + 1, done, failed),
            Status::Verifying => (active + 1, done, failed),
            Status::Done => (active, done + 1, failed),
            Status::Error(_) => (active, done, failed + 1),
            Status::Queued => (active, done, failed),
        }
    }
}

/// Counts items.
pub fn count_items<R, S>(items: &Vec<Item<R, S>>) -> (c: Counts)
    ensures
        (c.active as nat, c.done as nat, c.failed as nat) == counts_of(items@, items@.len() as int),
{
    let mut c = Counts { active: 0, done: 0, failed: 0 };
    let mut i: usize = 0;
    while i < items.len()
        invariant
            i <= items@.len(),
            c.active <= i,
            c.done <= i,
            c.failed <= i,
            (c.active as nat, c.done as nat, c.failed as nat) == counts_of(items@, i as int),
        decreases items@.len() - i,
    {
        match &items[i].status {
            Status::Active { .. } | Status::Verifying => {
                c.active = c.active + 1;
            },
            Status::Done => {
                c.done = c.done + 1;
            },
            Status::Error(_) => {
                c.failed = c.failed + 1;
            },
            Status::Queued => {},
        }
        i += 1;
    }
    c
}

/// The counts in words.
pub open spec fn counts_text(c: (nat, nat, nat)) -> Seq<char> {
    decimal(c.0) + " active \u{b7} "@ + decimal(c.1) + " done \u{b7} "@ + decimal(c.2) + " failed"@
}

/// The box at the top.
pub open spec fn header_text(summary: Seq<char>, width: nat) -> Seq<char> {
    edge_text("\u{256D}"@, "\u{256E}"@, width) + painted(ACCENT@, "\u{2502}"@) + seq![' '] + painted(
        BOLD@,
        "megadl"@,
    ) + painted(DIM@, " \u{b7} mega.nz download manager"@) + repeated(
        ' ',
        less(width, 36 + encode_utf8(summary).len()),
    ) + painted(DIM@, summary) + seq![' '] + painted(ACCENT@, "\u{2502}"@) + "\r\n"@ + edge_text(
        "\u{2570}"@,
        "\u{256F}"@,
        width,
    )
}

fn write_counts(c: &Counts) -> (s: String)
    ensures
        s@ == counts_text((c.active as nat, c.done as nat, c.failed as nat)),
{
    let mut s = String::new();
    push_decimal(&mut s, c.active as u64);
    s.append(" active \u{b7} ");
    push_decimal(&mut s, c.done as u64);
    s.append(" done \u{b7} ");
    push_decimal(&mut s, c.failed as u64);
    s.append(" failed");
    assert(s@ =~= counts_text((c.active as nat, c.done as nat, c.failed as nat)));
    s
}

fn write_header(summary: &str, width: usize) -> (s: String)
    ensures
        s@ == header_text(summary@, width as nat),
{
    let size: usize = summary.as_bytes().len();
    let pad: usize = if width > 36 {
        minus(width - 36, size)
    } else {
        0
    };
    let mut s = write_edge("\u{256D}", "\u{256E}", width);
    s.append(paint(ACCENT, "\u{2502}").as_str());
    s.push(' ');
    s.append(paint(BOLD, "megadl").as_str());
    s.append(paint(DIM, " \u{b7} mega.nz download manager").as_str());
    push_repeated(&mut s, ' ', pad);
    s.append(paint(DIM, summary).as_str());
    s.push(' ');
    s.append(paint(ACCENT, "\u{2502}").as_str());
    s.append("\r\n");
    s.append(write_edge("\u{2570}", "\u{256F}", width).as_str());
    assert(s@ =~= header_text(summary@, width as nat));
    s
}

// ---------------------------------------------------------------------------
// Items
// ---------------------------------------------------------------------------

/// The sign for a status.
pub open spec fn sign_text<R>(status: Status<R>) -> Seq<char> {
    match status {
        Status::Queued => painted(DIM@, "\u{22EF}"@),
        Status::Active { .. } => painted(ACCENT@, "\u{25BC}"@),
        Status::Verifying => painted(YELLOW@, "\u{2726}"@),
        Status::Done => painted(GREEN@, "\u{2713}"@),
        Status::Error(_) => painted(RED@, "\u{2717}"@),
    }
}

/// The colour of an item's name.
pub open spec fn name_color<R>(status: Status<R>) -> Seq<char> {
    match status {
        Status::Queued => DIM@,
        Status::Done => DIM@,
        Status::Error(_) => RED@,
        _ => Seq::empty(),
    }
}

/// The number of files, if there is more than one.
pub open spec fn files_text(files: nat) -> Seq<char> {
    if files > 1 {
        painted(DIM@, " ("@ + decimal(files) + " files)"@)
    } else {
        Seq::empty()
    }
}

/// The first line of an item: sign, name and number of files.
pub open spec fn title_text<R, S>(item: Item<R, S>, selected: bool) -> Seq<char> {
    "\r\n "@ + (if selected {
        painted(ACCENT@, "\u{25B8}"@)
    } else {
        seq![' ']
    }) + seq![' '] + sign_text(item.status) + seq![' '] + painted(name_color(item.status), item.name@) + files_text(
        item.files as nat,
    ) + "\r\n"@
}

/// A line below an item's name.
pub open spec fn detail_text(s: Seq<char>) -> Seq<char> {
    "     "@ + s + "\r\n"@
}

/// The progress of an active item.
pub open spec fn active_text(gauge: Gauge, done: int, total: int) -> Seq<char> {
    painted(ACCENT@, gauge.bar@) + seq![' '] + gauge.percent@ + "%  "@ + painted(
        DIM@,
        size_text(done) + " / "@ + size_text(total) + "  "@ + gauge.speed@,
    )
}

/// The other lines of an item, by its status.
pub open spec fn status_text<R, S>(item: Item<R, S>, gauge: Gauge, width: nat) -> Seq<char> {
    match item.status {
        Status::Queued => detail_text(painted(DIM@, "waiting \u{b7} \u{2192} "@ + item.dest@)),
        Status::Active { done, total, note, .. } => detail_text(active_text(gauge, done as int, total as int))
            + if note@.len() > 0 {
            detail_text(painted(YELLOW@, note@))
        } else {
            Seq::empty()
        },
        Status::Verifying => detail_text(painted(YELLOW@, "verifying integrity (MAC)\u{2026}"@)),
        Status::Done => detail_text(
            painted(GREEN@, repeated('\u{2588}', bar_width(width))) + seq![' '] + painted(
                DIM@,
                "complete \u{2192} "@ + item.dest@,
            ),
        ),
        Status::Error(message) => detail_text(painted(RED@, truncated(message@, less(width, 8)))),
    }
}

/// The first `n` items.
pub open spec fn items_text<R, S>(
    items: Seq<Item<R, S>>,
    gauges: Seq<Gauge>,
    cursor: int,
    width: nat,
    n: int,
) -> Seq<char>
    decreases n,
{
    if n <= 0 {
        Seq::empty()
    } else {
        items_text(items, gauges, cursor, width, n - 1) + title_text(items[n - 1], n - 1 == cursor) + status_text(
            items[n - 1],
            gauges[n - 1],
            width,
        )
    }
}

/// How many items fit on a screen with this many lines.
pub open spec fn room_for(rows: u16) -> nat {
    let room = less(rows as nat, 9) / 2;
    if room == 0 {
        1
    } else {
        room
    }
}

fn write_sign<R>(status: &Status<R>) -> (s: String)
    ensures
        s@ == sign_text(*status),
{
    match status {
        Status::Queued => paint(DIM, "\u{22EF}"),
        Status::Active { .. } => paint(ACCENT, "\u{25BC}"),
        Status::Verifying => paint(YELLOW, "\u{2726}"),
        Status::Done => paint(GREEN, "\u{2713}"),
        Status::Error(_) => paint(RED, "\u{2717}"),
    }
}

fn color_for<R>(status: &Status<R>) -> (color: &'static str)
    ensures
        color@ == name_color(*status),
{
    proof {
        reveal_strlit("");
        assert(""@ =~= Seq::<char>::empty());
    }
    match status {
        Status::Queued => DIM,
        Status::Done => DIM,
        Status::Error(_) => RED,
        _ => "",
    }
}

fn write_files(files: usize) -> (s: String)
    ensures
        s@ == files_text(files as nat),
{
    let mut s = String::new();
    if files > 1 {
        s.append(" (");
        push_decimal(&mut s, files as u64);
        s.append(" files)");
        assert(s@ =~= " ("@ + decimal(files as nat) + " files)"@);
        return paint(DIM, s.as_str());
    }
    assert(s@ =~= Seq::<char>::empty());
    s
}

fn write_title<R, S>(item: &Item<R, S>, selected: bool) -> (s: String)
    ensures
        s@ == title_text(*item, selected),
{
    let mut s = "\r\n ".to_owned();
    if selected {
        s.append(paint(ACCENT, "\u{25B8}").as_str());
    } else {
        s.push(' ');
    }
    s.push(' ');
    s.append(write_sign(&item.status).as_str());
    s.push(' ');
    s.append(paint(color_for(&item.status), item.name.as_str()).as_str());
    s.append(write_files(item.files).as_str());
    s.append("\r\n");
    assert(s@ =~= title_text(*item, selected));
    s
}

fn detail(line: &str) -> (s: String)
    ensures
        s@ == detail_text(line@),
{
    let mut s = "     ".to_owned();
    s.append(line);
    s.append("\r\n");
    s
}

fn write_active(gauge: &Gauge, done: i64, total: i64) -> (s: String)
    ensures
        s@ == active_text(*gauge, done as int, total as int),
{
    let mut sizes = human_size(done);
    sizes.append(" / ");
    sizes.append(human_size(total).as_str());
    sizes.append("  ");
    sizes.append(gauge.speed.as_str());
    let mut s = paint(ACCENT, gauge.bar.as_str());
    s.push(' ');
    s.append(gauge.percent.as_str());
    s.append("%  ");
    s.append(paint(DIM, sizes.as_str()).as_str());
    assert(s@ =~= active_text(*gauge, done as int, total as int));
    s
}

fn words_and(words: &str, text: &str) -> (s: String)
    ensures
        s@ == words@ + text@,
{
    let mut s = words.to_owned();
    s.append(text);
    s
}

fn write_status<R, S>(item: &Item<R, S>, gauge: &Gauge, width: usize) -> (s: String)
    ensures
        s@ == status_text(*item, *gauge, width as nat),
{
    match &item.status {
        Status::Queued => detail(
            paint(DIM, words_and("waiting \u{b7} \u{2192} ", item.dest.as_str()).as_str()).as_str(),
        ),
        Status::Active { done, total, note, .. } => {
            let mut s = detail(write_active(gauge, *done, *total).as_str());
            if !note.as_str().is_empty() {
                s.append(detail(paint(YELLOW, note.as_str()).as_str()).as_str());
            }
            assert(s@ =~= status_text(*item, *gauge, width as nat));
            s
        },
        Status::Verifying => detail(paint(YELLOW, "verifying integrity (MAC)\u{2026}").as_str()),
        Status::Done => {
            let mut full = String::new();
            push_repeated(&mut full, '\u{2588}', bar_width_for(width));
            assert(full@ =~= repeated('\u{2588}', bar_width(width as nat)));
            let mut line = paint(GREEN, full.as_str());
            line.push(' ');
            line.append(paint(DIM, words_and("complete \u{2192} ", item.dest.as_str()).as_str()).as_str());
            assert(line@ =~= painted(GREEN@, repeated('\u{2588}', bar_width(width as nat))) + seq![' '] + painted(
                DIM@,
                "complete \u{2192} "@ + item.dest@,
            ));
            detail(line.as_str())
        },
        Status::Error(message) => detail(
            paint(RED, truncate(message.as_str(), minus(width, 8)).as_str()).as_str(),
        ),
    }
}

// ---------------------------------------------------------------------------
// The screen
// ---------------------------------------------------------------------------

/// What stands below the items.
pub open spec fn footer_text(mode: ModeModel, width: nat) -> Seq<char> {
    match mode {
        ModeModel::AskUrl { buf } => modal_text(
            "paste a mega.nz link"@,
            buf,
            width,
            "enter next \u{b7} esc cancel"@,
        ),
        ModeModel::AskDest { buf, .. } => modal_text(
            "destination directory"@,
            buf,
            width,
            "enter start \u{b7} esc cancel (blank = .)"@,
        ),
        ModeModel::Message(m) => seq![' '] + m + "\r\n"@,
        ModeModel::List => seq![' '] + key_text("a"@, " add"@) + "   "@ + key_text("d"@, " remove"@) + "   "@ + key_text(
            "\u{2191}\u{2193}/jk"@,
            " move"@,
        ) + "   "@ + key_text("q"@, " quit"@) + "\r\n"@,
    }
}

/// What is shown of an empty queue.
pub open spec fn empty_text() -> Seq<char> {
    "\r\n  "@ + painted(DIM@, "queue is empty \u{2014} press"@) + seq![' '] + painted(BOLD@, "a"@) + seq![' '] + painted(
        DIM@,
        "to add a mega.nz link"@,
    ) + "\r\n"@
}

/// A key and what it does.
pub open spec fn key_text(key: Seq<char>, does: Seq<char>) -> Seq<char> {
    painted(BOLD@, key) + painted(DIM@, does)
}

/// The screen: header, as many items as fit, and footer.
pub open spec fn screen_text<R, S>(
    items: Seq<Item<R, S>>,
    gauges: Seq<Gauge>,
    cursor: int,
    mode: ModeModel,
    cols: u16,
    rows: u16,
) -> Seq<char> {
    let width = screen_width(cols);
    let n = if items.len() < room_for(rows) {
        items.len() as int
    } else {
        room_for(rows) as int
    };
    "\x1b[H\x1b[2J"@ + header_text(counts_text(counts_of(items, items.len() as int)), width) + (if items.len() == 0 {
        empty_text()
    } else {
        Seq::empty()
    }) + items_text(items, gauges, cursor, width, n) + "\r\n"@ + footer_text(mode, width)
}

fn write_footer(mode: &Mode, width: usize) -> (s: String)
    requires
        48 <= width <= 160,
    ensures
        s@ == footer_text(mode@, width as nat),
{
    match mode {
        Mode::AskUrl { buf } => modal(
            "paste a mega.nz link",
            buf.as_str(),
            width,
            "enter next \u{b7} esc cancel",
        ),
        Mode::AskDest { buf, .. } => modal(
            "destination directory",
            buf.as_str(),
            width,
            "enter start \u{b7} esc cancel (blank = .)",
        ),
        Mode::Message(m) => {
            let mut s = String::new();
            s.push(' ');
            s.append(m.as_str());
            s.append("\r\n");
            assert(s@ =~= seq![' '] + m@ + "\r\n"@);
            s
        },
        Mode::List => {
            let mut s = String::new();
            s.push(' ');
            s.append(write_key("a", " add").as_str());
            s.append("   ");
            s.append(write_key("d", " remove").as_str());
            s.append("   ");
            s.append(write_key("\u{2191}\u{2193}/jk", " move").as_str());
            s.append("   ");
            s.append(write_key("q", " quit").as_str());
            s.append("\r\n");
            assert(s@ =~= footer_text(ModeModel::List, width as nat));
            s
        },
    }
}

fn write_key(key: &str, does: &str) -> (s: String)
    ensures
        s@ == key_text(key@, does@),
{
    let mut s = paint(BOLD, key);
    s.append(paint(DIM, does).as_str());
    s
}

fn write_empty() -> (s: String)
    ensures
        s@ == empty_text(),
{
    let mut s = "\r\n  ".to_owned();
    s.append(paint(DIM, "queue is empty \u{2014} press").as_str());
    s.push(' ');
    s.append(paint(BOLD, "a").as_str());
    s.push(' ');
    s.append(paint(DIM, "to add a mega.nz link").as_str());
    s.append("\r\n");
    assert(s@ =~= empty_text());
    s
}

fn items_shown(count: usize, rows: u16) -> (n: usize)
    ensures
        n <= count,
        n == (if count < room_for(rows) {
            count as int
        } else {
            room_for(rows) as int
        }),
{
    let room: usize = minus(rows as usize, 9) / 2;
    let room: usize = if room == 0 {
        1
    } else {
        room
    };
    if count < room {
        count
    } else {
        room
    }
}

/// Draws the screen, with a gauge for each item.
pub fn render<R, S>(ui: &Ui<R, S>, gauges: &Vec<Gauge>, cols: u16, rows: u16) -> (out: String)
    requires
        gauges@.len() == ui.items@.len(),
    ensures
        out@ == screen_text(ui.items@, gauges@, ui.cursor as int, ui.mode@, cols, rows),
{
    let width: usize = width_for(cols);
    let counts = count_items(&ui.items);
    let mut out = String::new();
    out.append("\x1b[H\x1b[2J");
    out.append(write_header(write_counts(&counts).as_str(), width).as_str());
    if ui.items.len() == 0 {
        out.append(write_empty().as_str());
    }
    let ghost head = out@;
    assert(head =~= "\x1b[H\x1b[2J"@ + header_text(
        counts_text(counts_of(ui.items@, ui.items@.len() as int)),
        width as nat,
    ) + (if ui.items@.len() == 0 {
        empty_text()
    } else {
        Seq::empty()
    }));
    let n: usize = items_shown(ui.items.len(), rows);
    let mut i: usize = 0;
    assert(out@ =~= head + items_text(ui.items@, gauges@, ui.cursor as int, width as nat, 0));
    while i < n
        invariant
            i <= n <= ui.items@.len() == gauges@.len(),
            out@ == head + items_text(ui.items@, gauges@, ui.cursor as int, width as nat, i as int),
        decreases n - i,
    {
        out.append(write_title(&ui.items[i], i == ui.cursor).as_str());
        out.append(write_status(&ui.items[i], &gauges[i], width).as_str());
        i += 1;
        assert(out@ =~= head + items_text(ui.items@, gauges@, ui.cursor as int, width as nat, i as int));
    }
    out.append("\r\n");
    out.append(write_footer(&ui.mode, width).as_str());
    assert(out@ =~= screen_text(ui.items@, gauges@, ui.cursor as int, ui.mode@, cols, rows));
    out
}

// ---------------------------------------------------------------------------
// Laws
// ---------------------------------------------------------------------------

/// A text that was cut is never longer than there is room for, if there is
/// any, and begins as the text does.
pub proof fn law_truncated_fits(s: Seq<char>, max: nat)
    ensures
        max > 0 ==> truncated(s, max).len() <= max,
        s.len() <= max ==> truncated(s, max) == s,
        max > 0 && s.len() > max ==> truncated(s, max).drop_last() == s.take(max - 1),
{
    if max > 0 && s.len() > max {
        assert(truncated(s, max).drop_last() =~= s.take(max - 1));
    }
}

/// Every item counts once at most: as active, done or failed.
pub proof fn law_counts_add_up<R, S>(items: Seq<Item<R, S>>, n: int)
    requires
        0 <= n <= items.len(),
    ensures
        counts_of(items, n).0 + counts_of(items, n).1 + counts_of(items, n).2 <= n,
    decreases n,
{
    if n > 0 {
        law_counts_add_up(items, n - 1);
    }
}

/// The screen is as wide as the terminal, and the bar as what is left beside
/// it, both within limits.
pub proof fn law_widths(cols: u16, width: nat)
    ensures
        48 <= screen_width(cols) <= 160,
        48 <= cols <= 160 ==> screen_width(cols) == cols,
        cols < 48 ==> screen_width(cols) == 48,
        cols > 160 ==> screen_width(cols) == 160,
        10 <= bar_width(width) <= 60,
        44 <= width <= 94 ==> bar_width(width) + 34 == width,
        width < 44 ==> bar_width(width) == 10,
        width > 94 ==> bar_width(width) == 60,
{
}

/// Of what is left of nine lines for the rest, every item takes two. There
/// is room for one at least.
pub proof fn law_room(rows: u16)
    ensures
        room_for(rows) >= 1,
        rows >= 11 ==> 2 * room_for(rows) + 9 <= rows < 2 * room_for(rows) + 11,
        rows < 11 ==> room_for(rows) == 1,
{
}

/// Of a text that is too long for its line the end is shown, as much as
/// there is room for.
pub proof fn law_tail_is_the_end(s: Seq<char>, max: nat)
    ensures
        tail(s, max).len() == (if s.len() < max {
            s.len()
        } else {
            max
        }),
        s.skip(s.len() - tail(s, max).len()) == tail(s, max),
{
    assert(s.skip(s.len() - tail(s, max).len()) =~= tail(s, max));
}

/// A text that is cut ends with an ellipsis.
pub proof fn law_cut_text_ends_in_an_ellipsis(s: Seq<char>, max: nat)
    requires
        0 < max < s.len(),
    ensures
        truncated(s, max).len() == max,
        truncated(s, max).last() == '\u{2026}',
{
}

/// A coloured text is shown whole, and the colour ends with it.
pub proof fn law_painted(color: Seq<char>, s: Seq<char>)
    ensures
        has_prefix(painted(color, s), color),
        has_text(painted(color, s), s),
        painted(color, s).len() == color.len() + s.len() + 4,
        painted(color, s).skip((color.len() + s.len()) as int) == seq!['\u{1b}', '[', '0', 'm'],
{
    reveal_strlit("\x1b[0m");
    let p = painted(color, s);
    assert(p.take(color.len() as int) =~= color);
    law_text_is_found(color, s, OFF@);
    assert(p.skip((color.len() + s.len()) as int) =~= seq!['\u{1b}', '[', '0', 'm']);
}

/// Every item is counted by its status: as active while it is fetched or
/// verified, as done or as failed at its end, and not at all while it waits.
pub proof fn law_counts_by_status<R, S>(items: Seq<Item<R, S>>, n: int)
    requires
        0 <= n < items.len(),
    ensures
        ({
            let before = counts_of(items, n);
            let after = counts_of(items, n + 1);
            let status = items[n].status;
            &&& status is Active || status is Verifying ==> after == (before.0 + 1, before.1, before.2)
            &&& status is Done ==> after == (before.0, before.1 + 1, before.2)
            &&& status is Error ==> after == (before.0, before.1, before.2 + 1)
            &&& status is Queued ==> after == before
        }),
        counts_of(items, 0) == (0nat, 0nat, 0nat),
{
}

/// The summary tells all three numbers, each with what it counts.
pub proof fn law_counts_are_told(c: (nat, nat, nat))
    ensures
        has_prefix(counts_text(c), decimal(c.0) + " active"@),
        has_text(counts_text(c), " "@ + decimal(c.1) + " done"@),
        has_text(counts_text(c), " "@ + decimal(c.2) + " failed"@),
{
    reveal_strlit(" active \u{b7} ");
    reveal_strlit(" active");
    reveal_strlit(" active \u{b7}");
    reveal_strlit(" ");
    reveal_strlit(" \u{b7} ");
    reveal_strlit(" done \u{b7} ");
    reveal_strlit(" done");
    reveal_strlit(" done \u{b7}");
    let x = decimal(c.0);
    let y = decimal(c.1);
    let z = decimal(c.2);
    let text = counts_text(c);
    assert(" active \u{b7} "@ =~= " active"@ + " \u{b7} "@);
    assert(" active \u{b7} "@ =~= " active \u{b7}"@ + " "@);
    assert(" done \u{b7} "@ =~= " done"@ + " \u{b7} "@);
    assert(" done \u{b7} "@ =~= " done \u{b7}"@ + " "@);
    lemma_counts_parts(x, " active"@, " \u{b7} "@, " active \u{b7}"@, " "@, y, " done"@, " done \u{b7}"@, z, " failed"@);
}

proof fn lemma_counts_parts(
    x: Seq<char>,
    active: Seq<char>,
    dot: Seq<char>,
    active_dot: Seq<char>,
    gap: Seq<char>,
    y: Seq<char>,
    done: Seq<char>,
    done_dot: Seq<char>,
    z: Seq<char>,
    failed: Seq<char>,
)
    requires
        active + dot == active_dot + gap,
        done + dot == done_dot + gap,
    ensures
        ({
            let text = x + (active + dot) + y + (done + dot) + z + failed;
            &&& has_prefix(text, x + active)
            &&& has_text(text, gap + y + done)
            &&& has_text(text, gap + z + failed)
        }),
{
    let text = x + (active + dot) + y + (done + dot) + z + failed;
    let a = dot + y + (done + dot) + z + failed;
    assert(text =~= (x + active) + a);
    law_text_is_found(Seq::empty(), x + active, a);
    let b = dot + z + failed;
    assert(x + (active_dot + gap) + y + (done + dot) + z + failed =~= (x + active_dot) + (gap + y + done) + b);
    law_text_is_found(x + active_dot, gap + y + done, b);
    let c = x + (active + dot) + y + done_dot;
    assert(x + (active + dot) + y + (done_dot + gap) + z + failed =~= c + (gap + z + failed) + Seq::<char>::empty());
    law_text_is_found(c, gap + z + failed, Seq::empty());
}

/// The header shows its summary.
pub proof fn law_header_shows_summary(summary: Seq<char>, width: nat)
    ensures
        has_text(header_text(summary, width), summary),
        has_text(header_text(summary, width), "megadl"@),
{
    let edge = edge_text("\u{256D}"@, "\u{256E}"@, width);
    let side = painted(ACCENT@, "\u{2502}"@);
    let name = painted(BOLD@, "megadl"@);
    let about = painted(DIM@, " \u{b7} mega.nz download manager"@);
    let gap = repeated(' ', less(width, 36 + encode_utf8(summary).len()));
    let shown = painted(DIM@, summary);
    let last = edge_text("\u{2570}"@, "\u{256F}"@, width);
    law_painted(DIM@, summary);
    law_painted(BOLD@, "megadl"@);
    lemma_header_parts(edge, side, name, about, gap, shown, seq![' '], "\r\n"@, last, summary, "megadl"@);
}

proof fn lemma_header_parts(
    edge: Seq<char>,
    side: Seq<char>,
    name: Seq<char>,
    about: Seq<char>,
    gap: Seq<char>,
    shown: Seq<char>,
    space: Seq<char>,
    nl: Seq<char>,
    last: Seq<char>,
    summary: Seq<char>,
    title: Seq<char>,
)
    requires
        has_text(shown, summary),
        has_text(name, title),
    ensures
        has_text(edge + side + space + name + about + gap + shown + space + side + nl + last, summary),
        has_text(edge + side + space + name + about + gap + shown + space + side + nl + last, title),
{
    let text = edge + side + space + name + about + gap + shown + space + side + nl + last;
    let pre = edge + side + space + name + about + gap;
    let post = space + side + nl + last;
    assert(text =~= pre + shown + post);
    law_found_in_larger_text(pre, shown, post, summary);
    let first = edge + side + space;
    let rest = about + gap + shown + post;
    assert(pre + shown + post =~= first + name + rest);
    law_found_in_larger_text(first, name, rest, title);
}

/// A box shows its label, what was typed, as much of its end as fits, and
/// its hint.
#[verifier::rlimit(60)]
pub proof fn law_modal_shows_input(label: Seq<char>, buf: Seq<char>, width: nat, hint: Seq<char>)
    requires
        width >= 6,
    ensures
        has_text(modal_text(label, buf, width, hint), label),
        has_text(modal_text(label, buf, width, hint), hint),
        has_text(modal_text(label, buf, width, hint), tail(buf, (width - 6) as nat)),
{
    let top = label_text(label, width);
    let input = input_text(buf, width);
    let edge = edge_text("\u{2570}"@, "\u{256F}"@, width);
    let hinted = painted(DIM@, hint);
    let nl = "\r\n"@;
    law_painted(DIM@, hint);
    lemma_label_shown(label, width);
    lemma_input_shown(buf, width);
    let text = modal_text(label, buf, width, hint);
    let sp = seq![' '];
    assert(text == top + input + edge + sp + hinted + nl);
    let none = Seq::<char>::empty();
    assert(text =~= none + top + (input + edge + sp + hinted + nl));
    law_found_in_larger_text(none, top, input + edge + sp + hinted + nl, label);
    assert(text =~= top + input + (edge + sp + hinted + nl));
    law_found_in_larger_text(top, input, edge + sp + hinted + nl, tail(buf, (width - 6) as nat));
    assert(text =~= (top + input + edge + sp) + hinted + nl);
    law_found_in_larger_text(top + input + edge + sp, hinted, nl, hint);
}

proof fn lemma_label_shown(label: Seq<char>, width: nat)
    ensures
        has_text(label_text(label, width), label),
{
    let name = painted(BOLD@, label);
    let pre = ACCENT@ + "\u{256D}\u{2500} "@;
    let line = repeated('\u{2500}', less(width, encode_utf8(label).len() + 6));
    let corner = "\u{256E}"@;
    let nl = "\r\n"@;
    law_painted(BOLD@, label);
    let sp = seq![' '];
    let post = sp + ACCENT@ + line + corner + OFF@ + nl;
    assert(label_text(label, width) == pre + name + sp + ACCENT@ + line + corner + OFF@ + nl);
    assert(pre + name + sp + ACCENT@ + line + corner + OFF@ + nl =~= pre + name + post);
    law_found_in_larger_text(pre, name, post, label);
}

proof fn lemma_input_shown(buf: Seq<char>, width: nat)
    requires
        width >= 6,
    ensures
        has_text(input_text(buf, width), tail(buf, (width - 6) as nat)),
{
    let inner = less(width, 4);
    let shown = tail(buf, less(inner, 2));
    assert(less(inner, 2) == width - 6);
    let side = painted(ACCENT@, "\u{2502}"@);
    let caret = painted(ACCENT@, "\u{2588}"@);
    let gap = repeated(' ', less(inner, shown.len() + 1));
    let nl = "\r\n"@;
    let sp = seq![' '];
    let post = caret + gap + side + nl;
    assert(input_text(buf, width) == side + sp + shown + caret + gap + side + nl);
    assert(side + sp + shown + caret + gap + side + nl =~= (side + sp) + shown + post);
    law_text_is_found(side + sp, shown, post);
}

/// The signs tell the five states of an item apart.
pub proof fn law_signs_differ<R>(a: Status<R>, b: Status<R>)
    ensures
        sign_text(a) == sign_text(b) <==> {
            ||| a is Queued && b is Queued
            ||| a is Active && b is Active
            ||| a is Verifying && b is Verifying
            ||| a is Done && b is Done
            ||| a is Error && b is Error
        },
{
    reveal_strlit("\u{22EF}");
    reveal_strlit("\u{25BC}");
    reveal_strlit("\u{2726}");
    reveal_strlit("\u{2713}");
    reveal_strlit("\u{2717}");
    lemma_sign(a);
    lemma_sign(b);
}

proof fn lemma_sign<R>(s: Status<R>)
    ensures
        ({
            let t = sign_text(s);
            &&& t.len() > 5
            &&& t[t.len() - 5] == match s {
                Status::Queued => '\u{22EF}',
                Status::Active { .. } => '\u{25BC}',
                Status::Verifying => '\u{2726}',
                Status::Done => '\u{2713}',
                Status::Error(_) => '\u{2717}',
            }
        }),
{
    reveal_strlit("\u{22EF}");
    reveal_strlit("\u{25BC}");
    reveal_strlit("\u{2726}");
    reveal_strlit("\u{2713}");
    reveal_strlit("\u{2717}");
    reveal_strlit("\x1b[0m");
    reveal_strlit("\x1b[90m");
    reveal_strlit("\x1b[38;5;44m");
    reveal_strlit("\x1b[33m");
    reveal_strlit("\x1b[32m");
    reveal_strlit("\x1b[31m");
}

/// An item is shown with the sign of its status, its name, and the number of
/// its files where it has more than one.
pub proof fn law_titles_name_items<R, S>(item: Item<R, S>, selected: bool)
    ensures
        has_text(title_text(item, selected), sign_text(item.status)),
        has_text(title_text(item, selected), item.name@),
        item.files > 1 ==> has_text(title_text(item, selected), seq!['('] + decimal(item.files as nat) + " files)"@),
        item.files <= 1 ==> files_text(item.files as nat).len() == 0,
{
    let nl = "\r\n "@;
    let mark = if selected {
        painted(ACCENT@, "\u{25B8}"@)
    } else {
        seq![' ']
    };
    let sp = seq![' '];
    let sign = sign_text(item.status);
    let color = name_color(item.status);
    let name = painted(color, item.name@);
    let files = files_text(item.files as nat);
    law_painted(color, item.name@);
    lemma_title_parts(nl, mark, sp, sign, name, files, "\r\n"@, item.name@);
    if item.files > 1 {
        let told = " ("@ + decimal(item.files as nat) + " files)"@;
        let needle = seq!['('] + decimal(item.files as nat) + " files)"@;
        reveal_strlit(" (");
        assert(told =~= sp + needle + Seq::<char>::empty());
        law_text_is_found(sp, needle, Seq::empty());
        assert(has_text(told, needle));
        law_found_in_larger_text(DIM@, told, OFF@, needle);
        assert(has_text(files, needle));
        let pre = nl + mark + sp + sign + sp + name;
        law_found_in_larger_text(pre, files, "\r\n"@, needle);
    }
}

proof fn lemma_title_parts(
    nl: Seq<char>,
    mark: Seq<char>,
    sp: Seq<char>,
    sign: Seq<char>,
    name: Seq<char>,
    files: Seq<char>,
    end: Seq<char>,
    needle: Seq<char>,
)
    requires
        has_text(name, needle),
    ensures
        has_text(nl + mark + sp + sign + sp + name + files + end, sign),
        has_text(nl + mark + sp + sign + sp + name + files + end, needle),
{
    let text = nl + mark + sp + sign + sp + name + files + end;
    let a = nl + mark + sp;
    assert(text =~= a + sign + (sp + name + files + end));
    law_text_is_found(a, sign, sp + name + files + end);
    let b = a + sign + sp;
    assert(text =~= b + name + (files + end));
    law_found_in_larger_text(b, name, files + end, needle);
}

proof fn lemma_detail_shows(s: Seq<char>, needle: Seq<char>)
    requires
        has_text(s, needle),
    ensures
        has_text(detail_text(s), needle),
{
    law_found_in_larger_text("     "@, s, "\r\n"@, needle);
}

/// Below its name, an item that waits or is done tells where it goes, and
/// one that failed why, as far as there is room. An active one tells how much
/// of how much is done, and what there is to note.
pub proof fn law_details_tell_the_state<R, S>(item: Item<R, S>, gauge: Gauge, width: nat)
    ensures
        ({
            let text = status_text(item, gauge, width);
            match item.status {
                Status::Queued => has_text(text, item.dest@),
                Status::Active { done, total, note, .. } => has_text(
                    text,
                    size_text(done as int) + " / "@ + size_text(total as int),
                ) && has_text(text, gauge.bar@) && has_text(text, gauge.percent@ + "%"@) && has_text(text, gauge.speed@)
                    && has_text(text, note@),
                Status::Verifying => has_text(text, "verifying integrity"@),
                Status::Done => has_text(text, item.dest@),
                Status::Error(message) => has_text(text, truncated(message@, less(width, 8))),
            }
        }),
{
    let none = Seq::<char>::empty();
    match item.status {
        Status::Queued => {
            let told = "waiting \u{b7} \u{2192} "@ + item.dest@;
            law_text_is_found("waiting \u{b7} \u{2192} "@, item.dest@, none);
            assert("waiting \u{b7} \u{2192} "@ + item.dest@ + none =~= told);
            law_found_in_larger_text(DIM@, told, OFF@, item.dest@);
            lemma_detail_shows(painted(DIM@, told), item.dest@);
        },
        Status::Active { done, total, note, .. } => {
            let line = active_text(gauge, done as int, total as int);
            let first = detail_text(line);
            let rest = if note@.len() > 0 {
                detail_text(painted(YELLOW@, note@))
            } else {
                none
            };
            assert(status_text(item, gauge, width) =~= none + first + rest);
            lemma_active_shows(gauge, done as int, total as int);
            let sizes = size_text(done as int) + " / "@ + size_text(total as int);
            lemma_detail_shows(line, sizes);
            lemma_detail_shows(line, gauge.bar@);
            lemma_detail_shows(line, gauge.percent@ + "%"@);
            lemma_detail_shows(line, gauge.speed@);
            law_found_in_larger_text(none, first, rest, sizes);
            law_found_in_larger_text(none, first, rest, gauge.bar@);
            law_found_in_larger_text(none, first, rest, gauge.percent@ + "%"@);
            law_found_in_larger_text(none, first, rest, gauge.speed@);
            if note@.len() > 0 {
                law_painted(YELLOW@, note@);
                lemma_detail_shows(painted(YELLOW@, note@), note@);
                law_found_in_larger_text(first, rest, none, note@);
                assert(first + rest + none =~= none + first + rest);
            } else {
                assert(note@ =~= none);
                law_text_is_found(none, none, first + rest);
                assert(none + none + (first + rest) =~= none + first + rest);
            }
        },
        Status::Verifying => {
            let told = "verifying integrity (MAC)\u{2026}"@;
            reveal_strlit("verifying integrity (MAC)\u{2026}");
            reveal_strlit("verifying integrity");
            assert(told =~= none + "verifying integrity"@ + told.skip(19));
            law_text_is_found(none, "verifying integrity"@, told.skip(19));
            law_found_in_larger_text(YELLOW@, told, OFF@, "verifying integrity"@);
            lemma_detail_shows(painted(YELLOW@, told), "verifying integrity"@);
        },
        Status::Done => {
            let told = "complete \u{2192} "@ + item.dest@;
            law_text_is_found("complete \u{2192} "@, item.dest@, none);
            assert("complete \u{2192} "@ + item.dest@ + none =~= told);
            law_found_in_larger_text(DIM@, told, OFF@, item.dest@);
            let bar = painted(GREEN@, repeated('\u{2588}', bar_width(width))) + seq![' '];
            law_found_in_larger_text(bar, painted(DIM@, told), none, item.dest@);
            assert(bar + painted(DIM@, told) + none =~= bar + painted(DIM@, told));
            lemma_detail_shows(bar + painted(DIM@, told), item.dest@);
        },
        Status::Error(message) => {
            let cut = truncated(message@, less(width, 8));
            law_painted(RED@, cut);
            lemma_detail_shows(painted(RED@, cut), cut);
        },
    }
}

proof fn lemma_active_shows(gauge: Gauge, done: int, total: int)
    ensures
        has_text(active_text(gauge, done, total), size_text(done) + " / "@ + size_text(total)),
        has_text(active_text(gauge, done, total), gauge.bar@),
        has_text(active_text(gauge, done, total), gauge.percent@ + "%"@),
        has_text(active_text(gauge, done, total), gauge.speed@),
{
    reveal_strlit("%  ");
    reveal_strlit("%");
    reveal_strlit("  ");
    let none = Seq::<char>::empty();
    let bar = painted(ACCENT@, gauge.bar@);
    let sp = seq![' '];
    let percent = gauge.percent@ + "%"@;
    let gap = "  "@;
    let sizes = size_text(done) + " / "@ + size_text(total);
    let told = sizes + gap + gauge.speed@;
    let shown = painted(DIM@, told);
    assert("%  "@ =~= "%"@ + gap);
    let text = active_text(gauge, done, total);
    assert(text =~= bar + sp + percent + gap + shown);
    law_painted(ACCENT@, gauge.bar@);
    law_painted(DIM@, told);
    assert(bar + sp + percent + gap + shown =~= none + bar + (sp + percent + gap + shown));
    law_found_in_larger_text(none, bar, sp + percent + gap + shown, gauge.bar@);
    assert(bar + sp + percent + gap + shown =~= (bar + sp) + percent + (gap + shown));
    law_text_is_found(bar + sp, percent, gap + shown);
    law_text_is_found(none, sizes, gap + gauge.speed@);
    assert(none + sizes + (gap + gauge.speed@) =~= told);
    law_text_is_found(sizes + gap, gauge.speed@, none);
    assert(sizes + gap + gauge.speed@ + none =~= told);
    law_found_in_larger_text(DIM@, told, OFF@, sizes);
    law_found_in_larger_text(DIM@, told, OFF@, gauge.speed@);
    let pre = bar + sp + percent + gap;
    assert(pre + shown =~= pre + shown + none);
    law_found_in_larger_text(pre, shown, none, sizes);
    law_found_in_larger_text(pre, shown, none, gauge.speed@);
}

/// Items are shown one below the other, each with its title and its details.
pub proof fn law_items_are_shown<R, S>(
    items: Seq<Item<R, S>>,
    gauges: Seq<Gauge>,
    cursor: int,
    width: nat,
    n: int,
    i: int,
)
    requires
        0 <= i < n,
    ensures
        has_text(
            items_text(items, gauges, cursor, width, n),
            title_text(items[i], i == cursor) + status_text(items[i], gauges[i], width),
        ),
    decreases n,
{
    let before = items_text(items, gauges, cursor, width, n - 1);
    let title = title_text(items[n - 1], n - 1 == cursor);
    let state = status_text(items[n - 1], gauges[n - 1], width);
    let none = Seq::<char>::empty();
    assert(items_text(items, gauges, cursor, width, n) =~= before + (title + state));
    if i == n - 1 {
        law_text_is_found(before, title + state, none);
        assert(before + (title + state) + none =~= before + (title + state));
    } else {
        law_items_are_shown(items, gauges, cursor, width, n - 1, i);
        let needle = title_text(items[i], i == cursor) + status_text(items[i], gauges[i], width);
        law_found_in_larger_text(none, before, title + state, needle);
        assert(none + before + (title + state) =~= before + (title + state));
    }
}

/// The screen shows how many items there are of each kind, every item for
/// which there is room, and what is asked for or said below them.
#[verifier::rlimit(60)]
pub proof fn law_screen_shows_items<R, S>(
    items: Seq<Item<R, S>>,
    gauges: Seq<Gauge>,
    cursor: int,
    mode: ModeModel,
    cols: u16,
    rows: u16,
    i: int,
)
    ensures
        ({
            let screen = screen_text(items, gauges, cursor, mode, cols, rows);
            let width = screen_width(cols);
            &&& has_text(screen, counts_text(counts_of(items, items.len() as int)))
            &&& has_text(screen, footer_text(mode, width))
            &&& 0 <= i < items.len() && i < room_for(rows) ==> has_text(
                screen,
                title_text(items[i], i == cursor) + status_text(items[i], gauges[i], width),
            )
        }),
{
    let screen = screen_text(items, gauges, cursor, mode, cols, rows);
    let width = screen_width(cols);
    let n = if items.len() < room_for(rows) {
        items.len() as int
    } else {
        room_for(rows) as int
    };
    let none = Seq::<char>::empty();
    let clear = "\x1b[H\x1b[2J"@;
    let counts = counts_text(counts_of(items, items.len() as int));
    let header = header_text(counts, width);
    let blank = if items.len() == 0 {
        empty_text()
    } else {
        none
    };
    let list = items_text(items, gauges, cursor, width, n);
    let nl = "\r\n"@;
    let footer = footer_text(mode, width);
    assert(screen == clear + header + blank + list + nl + footer);
    law_header_shows_summary(counts, width);
    let rest = blank + list + nl + footer;
    assert(screen =~= clear + header + rest);
    law_found_in_larger_text(clear, header, rest, counts);
    let pre = clear + header + blank + list + nl;
    assert(screen =~= pre + footer + none);
    law_text_is_found(pre, footer, none);
    if 0 <= i < n {
        let needle = title_text(items[i], i == cursor) + status_text(items[i], gauges[i], width);
        law_items_are_shown(items, gauges, cursor, width, n, i);
        let head = clear + header + blank;
        assert(screen =~= head + list + (nl + footer));
        law_found_in_larger_text(head, list, nl + footer, needle);
    }
}

/// Below the items stands what is asked for, with what was typed so far; or
/// the message; or the keys.
pub proof fn law_footer_shows_mode(mode: ModeModel, width: nat)
    requires
        width >= 6,
    ensures
        ({
            let text = footer_text(mode, width);
            match mode {
                ModeModel::AskUrl { buf } => has_text(text, "paste a mega.nz link"@) && has_text(
                    text,
                    tail(buf, (width - 6) as nat),
                ),
                ModeModel::AskDest { buf, .. } => has_text(text, "destination directory"@) && has_text(
                    text,
                    tail(buf, (width - 6) as nat),
                ),
                ModeModel::Message(m) => has_text(text, m),
                ModeModel::List => true,
            }
        }),
{
    match mode {
        ModeModel::AskUrl { buf } => {
            law_modal_shows_input("paste a mega.nz link"@, buf, width, "enter next \u{b7} esc cancel"@);
        },
        ModeModel::AskDest { buf, .. } => {
            law_modal_shows_input("destination directory"@, buf, width, "enter start \u{b7} esc cancel (blank = .)"@);
        },
        ModeModel::Message(m) => {
            law_text_is_found(seq![' '], m, "\r\n"@);
        },
        ModeModel::List => {},
    }
}

/// An edge is as wide as it should be, corners included, and a line of its
/// own.
pub proof fn law_edge_width(left: Seq<char>, right: Seq<char>, width: nat)
    requires
        left.len() == 1 && right.len() == 1,
        width >= 2,
    ensures
        ({
            let text = edge_text(left, right, width);
            let line = text.subrange(ACCENT@.len() as int, text.len() - 6);
            &&& line.len() == width
            &&& line[0] == left[0] && line.last() == right[0]
            &&& forall|i: int| 0 < i < width - 1 ==> #[trigger] line[i] == '\u{2500}'
            &&& text.skip(text.len() - 2) == seq!['\r', '\n']
        }),
{
    reveal_strlit("\x1b[0m");
    reveal_strlit("\r\n");
    let dashes = repeated('\u{2500}', (width - 2) as nat);
    let text = edge_text(left, right, width);
    let line = text.subrange(ACCENT@.len() as int, text.len() - 6);
    assert(text =~= ACCENT@ + left + dashes + right + OFF@ + "\r\n"@);
    assert(line =~= left + dashes + right);
    assert(text.skip(text.len() - 2) =~= seq!['\r', '\n']);
}

/// An empty queue says so, and which key fills it.
pub proof fn law_empty_queue_says_so<R, S>(
    items: Seq<Item<R, S>>,
    gauges: Seq<Gauge>,
    cursor: int,
    mode: ModeModel,
    cols: u16,
    rows: u16,
)
    requires
        items.len() == 0,
    ensures
        has_text(screen_text(items, gauges, cursor, mode, cols, rows), empty_text()),
{
    let width = screen_width(cols);
    let clear = "\x1b[H\x1b[2J"@;
    let header = header_text(counts_text(counts_of(items, items.len() as int)), width);
    let list = items_text(items, gauges, cursor, width, 0);
    let footer = footer_text(mode, width);
    let screen = screen_text(items, gauges, cursor, mode, cols, rows);
    let rest = list + "\r\n"@ + footer;
    assert(screen == clear + header + empty_text() + list + "\r\n"@ + footer);
    assert(screen =~= (clear + header) + empty_text() + rest);
    law_text_is_found(clear + header, empty_text(), rest);
}

} // verus!
