//! The command line: its options, choosing files by number, and the command
//! that repeats a choice.

use vstd::prelude::*;
use vstd::string::*;

use crate::folder::FolderModel;
use crate::picker::{add_sizes, wrapped_sum};
use crate::plan::{entry_models, folder_entries, Entry, EntryModel};
use crate::size::{human_size, size_text};
use crate::text::{
    chars_of, decimal, has_prefix, has_text, is_white, law_decimal_reads_back,
    law_found_text_stands, law_splitting_undoes_joining, law_text_is_found, parse_unsigned,
    push_decimal, push_repeated, read_unsigned, repeated, same_text, split_chars, split_on,
    starts_with, string_range, texts, trim, trimmed, white, with_between,
};

verus! {

// ---------------------------------------------------------------------------
// Options
// ---------------------------------------------------------------------------

/// What the command line asks for.
#[derive(Debug)]
pub struct Args {
    pub urls: Vec<String>,
    pub path: Option<String>,
    pub no_progress: bool,
    pub print_names: bool,
    pub choose_files: bool,
    /// Explicit selection (node handles), bypassing the picker.
    pub files: Option<Vec<String>>,
}

/// What to do with a command line.
#[derive(Debug)]
pub enum Parsed {
    Run(Args),
    Help,
    Version,
}

/// What options say.
#[verifier::ext_equal]
pub struct ArgsModel {
    pub urls: Seq<Seq<char>>,
    pub path: Option<Seq<char>>,
    pub no_progress: bool,
    pub print_names: bool,
    pub choose_files: bool,
    pub files: Option<Seq<Seq<char>>>,
}

impl View for Args {
    type V = ArgsModel;

    open spec fn view(&self) -> ArgsModel {
        ArgsModel {
            urls: texts(self.urls@),
            path: match self.path {
                Some(p) => Some(p@),
                None => None,
            },
            no_progress: self.no_progress,
            print_names: self.print_names,
            choose_files: self.choose_files,
            files: match self.files {
                Some(f) => Some(texts(f@)),
                None => None,
            },
        }
    }
}

/// What a command line comes to.
pub enum ParsedModel {
    Run(ArgsModel),
    Help,
    Version,
    Error(Seq<char>),
}

/// Options of which none was given.
pub open spec fn no_options() -> ArgsModel {
    ArgsModel {
        urls: Seq::empty(),
        path: None,
        no_progress: false,
        print_names: false,
        choose_files: false,
        files: None,
    }
}

/// Those of the first `n` texts that are not empty.
pub open spec fn not_empty(list: Seq<Seq<char>>, n: int) -> Seq<Seq<char>>
    decreases n,
{
    if n <= 0 {
        Seq::empty()
    } else {
        let before = not_empty(list, n - 1);
        if list[n - 1].len() > 0 {
            before.push(list[n - 1])
        } else {
            before
        }
    }
}

/// The handles in a list with commas.
pub open spec fn handles_in(text: Seq<char>) -> Seq<Seq<char>> {
    let parts = split_on(text, ',');
    not_empty(parts, parts.len() as int)
}

/// The options once one argument more was read, or what it ends in.
pub open spec fn with_arg(a: ArgsModel, arg: Seq<char>) -> ParsedModel {
    if has_prefix(arg, "--path="@) {
        ParsedModel::Run(ArgsModel { path: Some(arg.skip(7)), ..a })
    } else if has_prefix(arg, "--files="@) {
        ParsedModel::Run(ArgsModel { files: Some(handles_in(arg.skip(8))), ..a })
    } else if arg == "--no-progress"@ {
        ParsedModel::Run(ArgsModel { no_progress: true, ..a })
    } else if arg == "--print-names"@ {
        ParsedModel::Run(ArgsModel { print_names: true, ..a })
    } else if arg == "--choose-files"@ {
        ParsedModel::Run(ArgsModel { choose_files: true, ..a })
    } else if arg == "-h"@ || arg == "--help"@ {
        ParsedModel::Help
    } else if arg == "--version"@ {
        ParsedModel::Version
    } else if has_prefix(arg, "-"@) {
        ParsedModel::Error("unknown option: "@ + arg)
    } else {
        ParsedModel::Run(ArgsModel { urls: a.urls.push(arg), ..a })
    }
}

/// What the arguments come to, given the options before them. The first one
/// that ends it all counts.
pub open spec fn parsed(a: ArgsModel, args: Seq<Seq<char>>) -> ParsedModel
    decreases args.len(),
{
    if args.len() == 0 {
        if a.urls.len() == 0 {
            ParsedModel::Error("no URL given"@)
        } else {
            ParsedModel::Run(a)
        }
    } else {
        match with_arg(a, args[0]) {
            ParsedModel::Run(b) => parsed(b, args.skip(1)),
            end => end,
        }
    }
}

fn drop_empty(list: Vec<String>) -> (out: Vec<String>)
    ensures
        texts(out@) == not_empty(texts(list@), list@.len() as int),
{
    let ghost all = texts(list@);
    let mut out: Vec<String> = Vec::new();
    let mut i: usize = 0;
    assert(texts(out@) =~= Seq::empty());
    while i < list.len()
        invariant
            i <= list@.len(),
            all == texts(list@),
            texts(out@) == not_empty(all, i as int),
        decreases list@.len() - i,
    {
        let ghost before = out@;
        assert(all[i as int] == list@[i as int]@);
        if !list[i].as_str().is_empty() {
            out.push(list[i].clone());
            assert(texts(out@) =~= texts(before).push(list@[i as int]@));
        }
        i += 1;
    }
    out
}

/// Whether an argument is an option that sets something, and its value.
fn value_of(arg: &str, name: &str) -> (r: Option<String>)
    ensures
        match r {
            Some(v) => has_prefix(arg@, name@) && v@ == arg@.skip(name@.len() as int),
            None => !has_prefix(arg@, name@),
        },
{
    if !starts_with(arg, name) {
        return None;
    }
    let all = chars_of(arg);
    let n: usize = chars_of(name).len();
    let value = string_range(&all, n, all.len());
    assert(value@ =~= arg@.skip(n as int));
    Some(value)
}

/// Takes one argument. Says what it ends in, if it does.
fn take_arg(a: &mut Args, arg: &str) -> (end: Option<Result<Parsed, String>>)
    ensures
        match end {
            None => with_arg(old(a)@, arg@) == ParsedModel::Run(final(a)@),
            Some(Ok(Parsed::Help)) => with_arg(old(a)@, arg@) == ParsedModel::Help,
            Some(Ok(Parsed::Version)) => with_arg(old(a)@, arg@) == ParsedModel::Version,
            Some(Err(e)) => with_arg(old(a)@, arg@) == ParsedModel::Error(e@),
            Some(Ok(Parsed::Run(_))) => false,
        },
{
    proof {
        reveal_strlit("--path=");
        reveal_strlit("--files=");
    }
    if let Some(v) = value_of(arg, "--path=") {
        a.path = Some(v);
    } else if let Some(v) = value_of(arg, "--files=") {
        let parts = split_chars(&chars_of(v.as_str()), ',');
        a.files = Some(drop_empty(parts));
    } else if same_text(arg, "--no-progress") {
        a.no_progress = true;
    } else if same_text(arg, "--print-names") {
        a.print_names = true;
    } else if same_text(arg, "--choose-files") {
        a.choose_files = true;
    } else if same_text(arg, "-h") || same_text(arg, "--help") {
        return Some(Ok(Parsed::Help));
    } else if same_text(arg, "--version") {
        return Some(Ok(Parsed::Version));
    } else if starts_with(arg, "-") {
        let mut message = String::new();
        message.append("unknown option: ");
        message.append(arg);
        assert(message@ =~= "unknown option: "@ + arg@);
        return Some(Err(message));
    } else {
        let ghost before = a.urls@;
        a.urls.push(arg.to_owned());
        assert(texts(a.urls@) =~= texts(before).push(arg@));
    }
    None
}

/// Reads the arguments, without the program's name.
pub fn parse_args(args: &[String]) -> (r: Result<Parsed, String>)
    ensures
        match r {
            Ok(Parsed::Run(a)) => parsed(no_options(), texts(args@)) == ParsedModel::Run(a@),
            Ok(Parsed::Help) => parsed(no_options(), texts(args@)) == ParsedModel::Help,
            Ok(Parsed::Version) => parsed(no_options(), texts(args@)) == ParsedModel::Version,
            Err(e) => parsed(no_options(), texts(args@)) == ParsedModel::Error(e@),
        },
{
    let ghost all = texts(args@);
    let mut a = Args {
        urls: Vec::new(),
        path: None,
        no_progress: false,
        print_names: false,
        choose_files: false,
        files: None,
    };
    assert(texts(a.urls@) =~= Seq::empty());
    let mut i: usize = 0;
    assert(all.skip(0) =~= all);
    while i < args.len()
        invariant
            i <= args@.len(),
            all == texts(args@),
            parsed(no_options(), all) == parsed(a@, all.skip(i as int)),
        decreases args@.len() - i,
    {
        let ghost rest = all.skip(i as int);
        assert(rest[0] == args@[i as int]@);
        assert(rest.skip(1) =~= all.skip(i + 1));
        if let Some(end) = take_arg(&mut a, args[i].as_str()) {
            return end;
        }
        i += 1;
    }
    if a.urls.len() == 0 {
        return Err("no URL given".to_owned());
    }
    Ok(Parsed::Run(a))
}

// ---------------------------------------------------------------------------
// Choosing
// ---------------------------------------------------------------------------

/// There is a file among the entries.
pub open spec fn has_files(entries: Seq<EntryModel>) -> bool {
    exists|i: int| 0 <= i < entries.len() && !(#[trigger] entries[i]).is_dir
}

/// Whether there is anything to choose from.
pub fn check_files(entries: &[Entry]) -> (r: Result<(), String>)
    ensures
        match r {
            Ok(()) => has_files(entry_models(entries@)),
            Err(e) => !has_files(entry_models(entries@)) && e@ == "link has no files"@,
        },
{
    let ghost all = entry_models(entries@);
    let mut i: usize = 0;
    while i < entries.len()
        invariant
            i <= entries@.len(),
            all == entry_models(entries@),
            forall|j: int| 0 <= j < i ==> (#[trigger] all[j]).is_dir,
        decreases entries@.len() - i,
    {
        assert(all[i as int] == entries@[i as int]@);
        if !entries[i].is_dir {
            return Ok(());
        }
        i += 1;
    }
    Err("link has no files".to_owned())
}

/// What is wrong with a picker's outcome, given how many were picked.
pub open spec fn pick_complaint(count: Option<nat>) -> Option<Seq<char>> {
    match count {
        None => Some("cancelled"@),
        Some(n) => if n == 0 {
            Some("nothing selected"@)
        } else {
            None
        },
    }
}

/// How many were picked.
pub open spec fn pick_count(picked: Option<Vec<String>>) -> Option<nat> {
    match picked {
        None => None,
        Some(handles) => Some(handles@.len()),
    }
}

/// What a picker's outcome means: nothing picked is as bad as nothing at
/// all.
pub fn check_picked(picked: Option<Vec<String>>) -> (r: Result<Vec<String>, String>)
    ensures
        match pick_complaint(pick_count(picked)) {
            Some(message) => r matches Err(e) && e@ == message,
            None => r == Ok::<Vec<String>, String>(picked->Some_0),
        },
{
    match picked {
        None => Err("cancelled".to_owned()),
        Some(handles) => if handles.len() == 0 {
            Err("nothing selected".to_owned())
        } else {
            Ok(handles)
        },
    }
}

/// `s` with spaces before it, to fill `width`.
pub open spec fn right_aligned(s: Seq<char>, width: nat) -> Seq<char> {
    if s.len() < width {
        repeated(' ', (width - s.len()) as nat) + s
    } else {
        s
    }
}

/// The line for a file: number, size and path.
pub open spec fn choice_line(e: EntryModel) -> Seq<char> {
    "  "@ + right_aligned(decimal(e.index as nat), 4) + "  "@ + right_aligned(size_text(e.size as int), 10) + "  "@
        + e.path + seq!['\n']
}

/// The lines for the files among the first `n` entries.
pub open spec fn choice_lines(entries: Seq<EntryModel>, n: int) -> Seq<char>
    decreases n,
{
    if n <= 0 {
        Seq::empty()
    } else if entries[n - 1].is_dir {
        choice_lines(entries, n - 1)
    } else {
        choice_lines(entries, n - 1) + choice_line(entries[n - 1])
    }
}

fn push_aligned(out: &mut String, text: &str, width: usize)
    ensures
        final(out)@ == old(out)@ + right_aligned(text@, width as nat),
{
    let n: usize = chars_of(text).len();
    if n < width {
        push_repeated(out, ' ', width - n);
    }
    out.append(text);
    assert(out@ =~= old(out)@ + right_aligned(text@, width as nat));
}

/// The prompt for choosing files by number.
pub fn choice_prompt(entries: &[Entry]) -> (text: String)
    ensures
        text@ == "Files in this link:\n"@ + choice_lines(entry_models(entries@), entries@.len() as int)
            + "Enter numbers to download (blank = all): "@,
{
    let ghost all = entry_models(entries@);
    let mut text = String::new();
    text.append("Files in this link:\n");
    let ghost head = text@;
    assert(head =~= "Files in this link:\n"@);
    let mut i: usize = 0;
    assert(text@ =~= head + choice_lines(all, 0));
    while i < entries.len()
        invariant
            i <= entries@.len(),
            all == entry_models(entries@),
            text@ == head + choice_lines(all, i as int),
        decreases entries@.len() - i,
    {
        let e = &entries[i];
        assert(all[i as int] == e@);
        if !e.is_dir {
            let mut number = String::new();
            push_decimal(&mut number, e.index as u64);
            assert(number@ =~= decimal(e.index as nat));
            text.append("  ");
            push_aligned(&mut text, number.as_str(), 4);
            text.append("  ");
            push_aligned(&mut text, human_size(e.size).as_str(), 10);
            text.append("  ");
            text.append(e.path.as_str());
            text.push('\n');
            assert(text@ =~= head + (choice_lines(all, i as int) + choice_line(e@)));
        }
        i += 1;
    }
    text.append("Enter numbers to download (blank = all): ");
    text
}

/// A comma or white space, between numbers.
pub open spec fn is_separator(c: char) -> bool {
    c == ',' || is_white(c)
}

/// The words of a text that separators split.
pub open spec fn words(s: Seq<char>) -> Seq<Seq<char>>
    decreases s.len(),
{
    if s.len() == 0 {
        Seq::empty()
    } else if is_separator(s[0]) {
        words(s.skip(1))
    } else {
        proof {
            lemma_word_len(s);
        }
        let n = word_len(s);
        seq![s.take(n)] + words(s.skip(n))
    }
}

/// The length of the word that a text begins with, if it begins with one.
pub open spec fn word_len(s: Seq<char>) -> int
    decreases s.len(),
{
    if s.len() == 0 || is_separator(s[0]) {
        0
    } else {
        1 + word_len(s.skip(1))
    }
}

/// The first file with number `n`, from the `i`th entry on.
pub open spec fn file_number(entries: Seq<EntryModel>, n: nat, i: int) -> Option<Seq<char>>
    decreases entries.len() - i,
{
    if i >= entries.len() {
        None
    } else if !entries[i].is_dir && entries[i].index == n {
        Some(entries[i].handle)
    } else {
        file_number(entries, n, i + 1)
    }
}

/// The handle that a word stands for, or what is wrong with it.
pub open spec fn word_choice(entries: Seq<EntryModel>, word: Seq<char>) -> Result<Seq<char>, Seq<char>> {
    match parse_unsigned(word, 10, usize::MAX as nat) {
        None => Err("not a number: "@ + word),
        Some(n) => match file_number(entries, n, 0) {
            None => Err("no such file: "@ + decimal(n)),
            Some(h) => Ok(h),
        },
    }
}

/// The handles that words stand for; the first bad word counts.
pub open spec fn words_choice(entries: Seq<EntryModel>, list: Seq<Seq<char>>, so_far: Seq<Seq<char>>) -> Result<
    Seq<Seq<char>>,
    Seq<char>,
>
    decreases list.len(),
{
    if list.len() == 0 {
        Ok(so_far)
    } else {
        match word_choice(entries, list[0]) {
            Err(e) => Err(e),
            Ok(h) => words_choice(entries, list.skip(1), so_far.push(h)),
        }
    }
}

/// A text that does not begin with a separator begins with a word.
pub proof fn lemma_word_len(s: Seq<char>)
    ensures
        0 <= word_len(s) <= s.len(),
        s.len() > 0 && !is_separator(s[0]) ==> word_len(s) > 0,
    decreases s.len(),
{
    if s.len() > 0 && !is_separator(s[0]) {
        lemma_word_len(s.skip(1));
    }
}

fn end_of_word(v: &Vec<char>, from: usize) -> (end: usize)
    requires
        from <= v@.len(),
    ensures
        from <= end <= v@.len(),
        end - from == word_len(v@.skip(from as int)),
{
    let mut end: usize = from;
    while end < v.len() && v[end] != ',' && !white(v[end])
        invariant
            from <= end <= v@.len(),
            word_len(v@.skip(from as int)) == end - from + word_len(v@.skip(end as int)),
        decreases v@.len() - end,
    {
        assert(v@.skip(end as int).skip(1) =~= v@.skip(end + 1));
        end += 1;
    }
    end
}

fn split_words(v: &Vec<char>) -> (list: Vec<String>)
    ensures
        texts(list@) == words(v@),
{
    let mut list: Vec<String> = Vec::new();
    let mut i: usize = 0;
    assert(v@.skip(0) =~= v@);
    assert(texts(list@) + words(v@) =~= words(v@));
    while i < v.len()
        invariant
            i <= v@.len(),
            words(v@) == texts(list@) + words(v@.skip(i as int)),
        decreases v@.len() - i,
    {
        let ghost rest = v@.skip(i as int);
        if v[i] == ',' || white(v[i]) {
            assert(rest.skip(1) =~= v@.skip(i + 1));
            i += 1;
        } else {
            let end = end_of_word(v, i);
            proof {
                lemma_word_len(rest);
            }
            let word = string_range(v, i, end);
            let ghost n = end - i;
            assert(word@ =~= rest.take(n));
            assert(rest.skip(n) =~= v@.skip(end as int));
            let ghost before = list@;
            list.push(word);
            assert(texts(list@) =~= texts(before).push(word@));
            assert(texts(before) + (seq![word@] + words(rest.skip(n))) =~= texts(list@) + words(v@.skip(end as int)));
            i = end;
        }
    }
    assert(v@.skip(v@.len() as int) =~= Seq::<char>::empty());
    assert(texts(list@) + Seq::empty() =~= texts(list@));
    list
}

fn find_file(entries: &[Entry], n: u64) -> (r: Option<String>)
    ensures
        match r {
            Some(h) => file_number(entry_models(entries@), n as nat, 0) == Some(h@),
            None => file_number(entry_models(entries@), n as nat, 0) is None,
        },
{
    let ghost all = entry_models(entries@);
    let mut i: usize = 0;
    while i < entries.len()
        invariant
            i <= entries@.len(),
            all == entry_models(entries@),
            file_number(all, n as nat, 0) == file_number(all, n as nat, i as int),
        decreases entries@.len() - i,
    {
        assert(all[i as int] == entries@[i as int]@);
        if !entries[i].is_dir && entries[i].index as u64 == n {
            return Some(entries[i].handle.clone());
        }
        i += 1;
    }
    None
}

fn choose_word(entries: &[Entry], word: &str) -> (r: Result<String, String>)
    ensures
        match r {
            Ok(h) => word_choice(entry_models(entries@), word@) == Ok::<Seq<char>, Seq<char>>(h@),
            Err(e) => word_choice(entry_models(entries@), word@) == Err::<Seq<char>, Seq<char>>(e@),
        },
{
    let n: u64 = match read_unsigned(&chars_of(word), 10, usize::MAX as u64) {
        Some(n) => n,
        None => {
            let mut message = String::new();
            message.append("not a number: ");
            message.append(word);
            assert(message@ =~= "not a number: "@ + word@);
            return Err(message);
        },
    };
    match find_file(entries, n) {
        Some(h) => Ok(h),
        None => {
            let mut message = String::new();
            message.append("no such file: ");
            push_decimal(&mut message, n);
            assert(message@ =~= "no such file: "@ + decimal(n as nat));
            Err(message)
        },
    }
}

/// Reads the numbers that were entered: the handles of those files. A blank
/// line chooses nothing, which means all.
pub fn choose_by_number(entries: &[Entry], line: &str) -> (r: Result<Vec<String>, String>)
    ensures
        ({
            let expected = words_choice(entry_models(entries@), words(trim(line@)), Seq::empty());
            match r {
                Ok(handles) => expected == Ok::<Seq<Seq<char>>, Seq<char>>(texts(handles@)),
                Err(e) => expected == Err::<Seq<Seq<char>>, Seq<char>>(e@),
            }
        }),
{
    let ghost all = entry_models(entries@);
    let list = split_words(&trimmed(line));
    let ghost ws = words(trim(line@));
    let ghost expected = words_choice(all, ws, Seq::empty());
    let mut handles: Vec<String> = Vec::new();
    let mut i: usize = 0;
    assert(texts(handles@) =~= Seq::empty());
    assert(ws.skip(0) =~= ws);
    while i < list.len()
        invariant
            i <= list@.len(),
            all == entry_models(entries@),
            texts(list@) == ws,
            ws == words(trim(line@)),
            expected == words_choice(all, ws, Seq::empty()),
            expected == words_choice(all, ws.skip(i as int), texts(handles@)),
        decreases list@.len() - i,
    {
        let ghost before = handles@;
        let ghost rest = ws.skip(i as int);
        assert(rest[0] == list@[i as int]@);
        assert(rest.skip(1) =~= ws.skip(i + 1));
        match choose_word(entries, list[i].as_str()) {
            Ok(h) => {
                handles.push(h);
                assert(texts(handles@) =~= texts(before).push(h@));
            },
            Err(e) => return Err(e),
        }
        i += 1;
    }
    Ok(handles)
}

// ---------------------------------------------------------------------------
// One link
// ---------------------------------------------------------------------------

/// Where the selection of a link comes from.
pub enum Selection<'a> {
    /// These handles.
    Given(&'a Vec<String>),
    /// The user is asked.
    Ask,
    /// Everything is fetched.
    All,
}

/// Where the selection of a link comes from, as the options say.
pub enum SelectionModel {
    Given(Seq<Seq<char>>),
    Ask,
    All,
}

/// Where the selection of a link comes from.
pub open spec fn selection_of(a: ArgsModel) -> SelectionModel {
    match a.files {
        Some(f) => SelectionModel::Given(f),
        None => if a.choose_files {
            SelectionModel::Ask
        } else {
            SelectionModel::All
        },
    }
}

/// Handles on the command line come before asking.
pub fn selection(args: &Args) -> (s: Selection<'_>)
    ensures
        match selection_of(args@) {
            SelectionModel::Given(f) => s matches Selection::Given(handles) && texts(handles@) == f,
            SelectionModel::Ask => s is Ask,
            SelectionModel::All => s is All,
        },
{
    match &args.files {
        Some(handles) => Selection::Given(handles),
        None => if args.choose_files {
            Selection::Ask
        } else {
            Selection::All
        },
    }
}

/// Where a link is saved.
pub open spec fn destination_of(a: ArgsModel) -> Seq<char> {
    match a.path {
        Some(p) => p,
        None => "."@,
    }
}

/// Where a link is saved: the current directory, unless told otherwise.
pub fn destination(args: &Args) -> (dest: &str)
    ensures
        dest@ == destination_of(args@),
{
    match &args.path {
        Some(p) => p.as_str(),
        None => ".",
    }
}

/// The destination has to be made first.
pub open spec fn is_to_be_made(a: ArgsModel, exists: bool, is_folder: bool) -> bool {
    a.path is Some && !exists && is_folder
}

/// Whether the destination has to be made first: only one that was given and
/// is not there yet, for a folder.
pub fn makes_destination(args: &Args, exists: bool, is_folder: bool) -> (b: bool)
    ensures
        b == is_to_be_made(args@, exists, is_folder),
{
    args.path.is_some() && !exists && is_folder
}

/// What follows a file: whether to go on, or the error.
pub open spec fn file_verdict(ok: bool, cancelled: bool, path: Seq<char>) -> Result<bool, Seq<char>> {
    if cancelled {
        Ok(false)
    } else if ok {
        Ok(true)
    } else {
        Err("failed to download "@ + path)
    }
}

/// What follows a file that was fetched, or not: the next one, the end, or
/// an error. A cancellation is none.
pub fn after_file(ok: bool, cancelled: bool, path: &str) -> (r: Result<bool, String>)
    ensures
        match r {
            Ok(go_on) => file_verdict(ok, cancelled, path@) == Ok::<bool, Seq<char>>(go_on),
            Err(e) => file_verdict(ok, cancelled, path@) == Err::<bool, Seq<char>>(e@),
        },
{
    if !ok && !cancelled {
        let mut message = String::new();
        message.append("failed to download ");
        message.append(path);
        assert(message@ =~= "failed to download "@ + path@);
        return Err(message);
    }
    Ok(!cancelled)
}

/// The line for a file that is there already.
pub fn skip_line(path: &str) -> (line: String)
    ensures
        line@ == "megadl: skipping existing file "@ + path@,
{
    let mut line = String::new();
    line.append("megadl: skipping existing file ");
    line.append(path);
    assert(line@ =~= "megadl: skipping existing file "@ + path@);
    line
}

/// The line for a file that is about to be fetched.
pub open spec fn start_text(path: Seq<char>, size: int) -> Seq<char> {
    "Downloading "@ + path + " ("@ + size_text(size) + seq![')']
}

/// The line for an attempt that failed and is made again.
pub open spec fn retry_text(reason: Seq<char>, attempt: nat, delay: nat) -> Seq<char> {
    "megadl: "@ + reason + ", retrying in "@ + decimal(delay) + "s (attempt "@ + decimal(attempt) + seq![')']
}

/// The line for a file that is about to be fetched.
pub fn start_line(path: &str, size: i64) -> (line: String)
    ensures
        line@ == start_text(path@, size as int),
{
    let mut line = String::new();
    line.append("Downloading ");
    line.append(path);
    line.append(" (");
    line.append(human_size(size).as_str());
    line.push(')');
    assert(line@ =~= "Downloading "@ + path@ + " ("@ + size_text(size as int) + seq![')']);
    line
}

/// The line for an attempt that failed and is made again.
pub fn retry_line(reason: &str, attempt: u32, delay_secs: u64) -> (line: String)
    ensures
        line@ == retry_text(reason@, attempt as nat, delay_secs as nat),
{
    let mut line = String::new();
    line.append("megadl: ");
    line.append(reason);
    line.append(", retrying in ");
    push_decimal(&mut line, delay_secs);
    line.append("s (attempt ");
    push_decimal(&mut line, attempt as u64);
    line.push(')');
    assert(line@ =~= "megadl: "@ + reason@ + ", retrying in "@ + decimal(delay_secs as nat) + "s (attempt "@ + decimal(
        attempt as nat,
    ) + seq![')']);
    line
}

// ---------------------------------------------------------------------------
// Repeating a choice
// ---------------------------------------------------------------------------

/// A character that a shell leaves alone.
pub open spec fn is_safe(c: char) -> bool {
    'A' <= c <= 'Z' || 'a' <= c <= 'z' || '0' <= c <= '9' || c == '.' || c == '_' || c == '-' || c == '/' || c == '='
        || c == ':'
}

/// Every character is one that a shell leaves alone.
pub open spec fn all_safe(s: Seq<char>) -> bool {
    forall|i: int| 0 <= i < s.len() ==> is_safe(#[trigger] s[i])
}

/// `s` with every quote closed before it, escaped, and opened again.
pub open spec fn escaped(s: Seq<char>) -> Seq<char>
    decreases s.len(),
{
    if s.len() == 0 {
        Seq::empty()
    } else {
        escaped(s.drop_last()) + if s.last() == '\'' {
            seq!['\'', '\\', '\'', '\'']
        } else {
            seq![s.last()]
        }
    }
}

/// `s` as a word of a shell.
pub open spec fn shell_quoted(s: Seq<char>) -> Seq<char> {
    if s.len() > 0 && all_safe(s) {
        s
    } else {
        seq!['\''] + escaped(s) + seq!['\'']
    }
}

fn safe_char(c: char) -> (b: bool)
    ensures
        b == is_safe(c),
{
    ('A' <= c && c <= 'Z') || ('a' <= c && c <= 'z') || ('0' <= c && c <= '9') || c == '.' || c == '_' || c == '-' || c
        == '/' || c == '=' || c == ':'
}

/// Quotes an argument for a shell (URLs hold `#`, paths hold spaces).
pub fn shell_quote(s: &str) -> (q: String)
    ensures
        q@ == shell_quoted(s@),
{
    let v = chars_of(s);
    let mut safe = true;
    let mut q = String::new();
    q.push('\'');
    let mut i: usize = 0;
    assert(v@.take(0) =~= Seq::<char>::empty());
    assert(q@ =~= seq!['\''] + escaped(v@.take(0)));
    while i < v.len()
        invariant
            i <= v@.len(),
            v@ == s@,
            safe == all_safe(v@.take(i as int)),
            q@ == seq!['\''] + escaped(v@.take(i as int)),
        decreases v@.len() - i,
    {
        let c = v[i];
        let ghost before = v@.take(i as int);
        let ghost after = v@.take(i + 1);
        assert(after.drop_last() =~= before);
        assert(after.last() == c);
        proof {
            if safe && is_safe(c) {
                assert forall|j: int| 0 <= j < after.len() implies is_safe(#[trigger] after[j]) by {
                    if j < i {
                        assert(before[j] == after[j]);
                    }
                }
            }
            if !is_safe(c) {
                assert(!is_safe(after[i as int]));
            }
            if !safe {
                let j = choose|j: int| 0 <= j < before.len() && !is_safe(#[trigger] before[j]);
                assert(after[j] == before[j]);
            }
        }
        if !safe_char(c) {
            safe = false;
        }
        if c == '\'' {
            q.push('\'');
            q.push('\\');
            q.push('\'');
            q.push('\'');
        } else {
            q.push(c);
        }
        assert(q@ =~= seq!['\''] + escaped(after));
        i += 1;
    }
    assert(v@.take(v@.len() as int) =~= v@);
    if v.len() > 0 && safe {
        return s.to_owned();
    }
    q.push('\'');
    q
}

/// Texts with commas between them, the first `n`.
pub open spec fn with_commas(list: Seq<Seq<char>>, n: int) -> Seq<char>
    decreases n,
{
    if n <= 0 {
        Seq::empty()
    } else if n == 1 {
        list[0]
    } else {
        with_commas(list, n - 1) + seq![','] + list[n - 1]
    }
}

fn join_with_commas(list: &[String]) -> (text: String)
    ensures
        text@ == with_commas(texts(list@), list@.len() as int),
{
    let ghost all = texts(list@);
    let mut text = String::new();
    let mut i: usize = 0;
    assert(text@ =~= with_commas(all, 0));
    while i < list.len()
        invariant
            i <= list@.len(),
            all == texts(list@),
            text@ == with_commas(all, i as int),
        decreases list@.len() - i,
    {
        assert(all[i as int] == list@[i as int]@);
        if i > 0 {
            text.push(',');
        }
        text.append(list[i].as_str());
        assert(text@ =~= with_commas(all, i + 1));
        i += 1;
    }
    text
}

/// The command that repeats a choice without the picker.
pub open spec fn replay_text(program: Seq<char>, a: ArgsModel, picked: Seq<Seq<char>>, url: Seq<char>) -> Seq<char> {
    shell_quoted(program) + " --files="@ + with_commas(picked, picked.len() as int) + (match a.path {
        Some(p) => " --path="@ + shell_quoted(p),
        None => Seq::empty(),
    }) + (if a.print_names {
        " --print-names"@
    } else {
        Seq::empty()
    }) + (if a.no_progress {
        " --no-progress"@
    } else {
        Seq::empty()
    }) + seq![' '] + shell_quoted(url)
}

/// The command that repeats a choice without the picker.
pub fn replay_command(program: &str, args: &Args, picked: &[String], url: &str) -> (cmd: String)
    ensures
        cmd@ == replay_text(program@, args@, texts(picked@), url@),
{
    let mut cmd = shell_quote(program);
    cmd.append(" --files=");
    cmd.append(join_with_commas(picked).as_str());
    if let Some(p) = &args.path {
        cmd.append(" --path=");
        cmd.append(shell_quote(p.as_str()).as_str());
    }
    if args.print_names {
        cmd.append(" --print-names");
    }
    if args.no_progress {
        cmd.append(" --no-progress");
    }
    cmd.push(' ');
    cmd.append(shell_quote(url).as_str());
    assert(cmd@ =~= replay_text(program@, args@, texts(picked@), url@));
    cmd
}

/// The first entry with a handle, from the `i`th on.
pub open spec fn entry_with(entries: Seq<EntryModel>, h: Seq<char>, i: int) -> Option<EntryModel>
    decreases entries.len() - i,
{
    if i >= entries.len() {
        None
    } else if entries[i].handle == h {
        Some(entries[i])
    } else {
        entry_with(entries, h, i + 1)
    }
}

/// The names for the first `n` handles that were picked.
pub open spec fn picked_names(entries: Seq<EntryModel>, picked: Seq<Seq<char>>, n: int) -> Seq<Seq<char>>
    decreases n,
{
    if n <= 0 {
        Seq::empty()
    } else {
        let before = picked_names(entries, picked, n - 1);
        match entry_with(entries, picked[n - 1], 0) {
            Some(e) => before.push(e.name),
            None => before,
        }
    }
}

/// The size of the first `n` handles that were picked.
pub open spec fn picked_total(entries: Seq<EntryModel>, picked: Seq<Seq<char>>, n: int) -> int
    decreases n,
{
    if n <= 0 {
        0
    } else {
        match entry_with(entries, picked[n - 1], 0) {
            Some(e) => wrapped_sum(picked_total(entries, picked, n - 1), e.size as int),
            None => picked_total(entries, picked, n - 1),
        }
    }
}

/// The first `n` names, one on a line.
pub open spec fn name_lines(names: Seq<Seq<char>>, n: int) -> Seq<char>
    decreases n,
{
    if n <= 0 {
        Seq::empty()
    } else {
        name_lines(names, n - 1) + "  - "@ + names[n - 1] + seq!['\n']
    }
}

/// At most this many names are shown.
pub const SHOWN_NAMES: usize = 10;

/// The names, ten at most, and how many more there are.
pub open spec fn names_text(names: Seq<Seq<char>>) -> Seq<char> {
    if names.len() > SHOWN_NAMES {
        name_lines(names, SHOWN_NAMES as int) + "  \u{2026} and "@ + decimal((names.len() - SHOWN_NAMES) as nat)
            + " more\n"@
    } else {
        name_lines(names, names.len() as int)
    }
}

/// What is printed after a choice.
pub open spec fn summary_text(entries: Seq<EntryModel>, picked: Seq<Seq<char>>, command: Seq<char>) -> Seq<char> {
    "\nSelected "@ + decimal(picked.len()) + " file(s), "@ + size_text(
        picked_total(entries, picked, picked.len() as int),
    ) + ":\n"@ + names_text(picked_names(entries, picked, picked.len() as int))
        + "\nTo resume this download with the current selection, you can just run this command:\n\n  "@ + command
        + "\n\n"@
}

fn find_entry<'a>(entries: &'a [Entry], h: &str) -> (r: Option<&'a Entry>)
    ensures
        match r {
            Some(e) => entry_with(entry_models(entries@), h@, 0) == Some(e@),
            None => entry_with(entry_models(entries@), h@, 0) is None,
        },
{
    let ghost all = entry_models(entries@);
    let mut i: usize = 0;
    while i < entries.len()
        invariant
            i <= entries@.len(),
            all == entry_models(entries@),
            entry_with(all, h@, 0) == entry_with(all, h@, i as int),
        decreases entries@.len() - i,
    {
        assert(all[i as int] == entries@[i as int]@);
        if same_text(entries[i].handle.as_str(), h) {
            return Some(&entries[i]);
        }
        i += 1;
    }
    None
}

fn sum_up(entries: &[Entry], picked: &[String]) -> (r: (Vec<String>, i64))
    ensures
        texts(r.0@) == picked_names(entry_models(entries@), texts(picked@), picked@.len() as int),
        r.1 == picked_total(entry_models(entries@), texts(picked@), picked@.len() as int),
{
    let ghost all = entry_models(entries@);
    let ghost hs = texts(picked@);
    let mut names: Vec<String> = Vec::new();
    let mut total: i64 = 0;
    let mut i: usize = 0;
    assert(texts(names@) =~= Seq::empty());
    while i < picked.len()
        invariant
            i <= picked@.len(),
            all == entry_models(entries@),
            hs == texts(picked@),
            texts(names@) == picked_names(all, hs, i as int),
            total == picked_total(all, hs, i as int),
        decreases picked@.len() - i,
    {
        let ghost before = names@;
        assert(hs[i as int] == picked@[i as int]@);
        if let Some(e) = find_entry(entries, picked[i].as_str()) {
            names.push(e.name.clone());
            assert(texts(names@) =~= texts(before).push(e.name@));
            total = add_sizes(total, e.size);
        }
        i += 1;
    }
    (names, total)
}

fn push_names(text: &mut String, names: &Vec<String>)
    ensures
        final(text)@ == old(text)@ + names_text(texts(names@)),
{
    let ghost all = texts(names@);
    let shown: usize = if names.len() > SHOWN_NAMES {
        SHOWN_NAMES
    } else {
        names.len()
    };
    let mut i: usize = 0;
    assert(text@ =~= old(text)@ + name_lines(all, 0));
    while i < shown
        invariant
            i <= shown <= names@.len(),
            all == texts(names@),
            text@ == old(text)@ + name_lines(all, i as int),
        decreases shown - i,
    {
        assert(all[i as int] == names@[i as int]@);
        text.append("  - ");
        text.append(names[i].as_str());
        text.push('\n');
        i += 1;
        assert(text@ =~= old(text)@ + name_lines(all, i as int));
    }
    if names.len() > SHOWN_NAMES {
        text.append("  \u{2026} and ");
        push_decimal(text, (names.len() - SHOWN_NAMES) as u64);
        text.append(" more\n");
    }
    assert(text@ =~= old(text)@ + names_text(all));
}

/// What is printed after a choice: what was chosen, and the command that
/// chooses it again.
pub fn choice_summary(entries: &[Entry], picked: &[String], command: &str) -> (text: String)
    ensures
        text@ == summary_text(entry_models(entries@), texts(picked@), command@),
{
    let (names, total) = sum_up(entries, picked);
    let mut text = String::new();
    text.append("\nSelected ");
    push_decimal(&mut text, picked.len() as u64);
    text.append(" file(s), ");
    text.append(human_size(total).as_str());
    text.append(":\n");
    push_names(&mut text, &names);
    text.append("\nTo resume this download with the current selection, you can just run this command:\n\n  ");
    text.append(command);
    text.append("\n\n");
    assert(text@ =~= summary_text(entry_models(entries@), texts(picked@), command@));
    text
}

// ---------------------------------------------------------------------------
// Laws
// ---------------------------------------------------------------------------

/// What a shell makes of a word: quotes keep what is between them, a
/// backslash outside of them keeps the next character.
pub open spec fn shell_read(word: Seq<char>, in_quotes: bool) -> Seq<char>
    decreases word.len(),
{
    if word.len() == 0 {
        Seq::empty()
    } else if word[0] == '\'' {
        shell_read(word.skip(1), !in_quotes)
    } else if !in_quotes && word[0] == '\\' && word.len() > 1 {
        seq![word[1]] + shell_read(word.skip(2), false)
    } else {
        seq![word[0]] + shell_read(word.skip(1), in_quotes)
    }
}

proof fn lemma_read_safe(s: Seq<char>)
    requires
        all_safe(s),
    ensures
        shell_read(s, false) == s,
    decreases s.len(),
{
    if s.len() > 0 {
        assert(is_safe(s[0]));
        assert forall|i: int| 0 <= i < s.skip(1).len() implies is_safe(#[trigger] s.skip(1)[i]) by {
            assert(s.skip(1)[i] == s[i + 1]);
        }
        lemma_read_safe(s.skip(1));
        assert(s =~= seq![s[0]] + s.skip(1));
    }
}

proof fn lemma_read_escaped(s: Seq<char>, rest: Seq<char>)
    ensures
        shell_read(escaped(s) + rest, true) == s + shell_read(rest, true),
    decreases s.len(),
{
    if s.len() == 0 {
        assert(escaped(s) + rest =~= rest);
        assert(s + shell_read(rest, true) =~= shell_read(rest, true));
    } else {
        let c = s.last();
        let e = if c == '\'' {
            seq!['\'', '\\', '\'', '\'']
        } else {
            seq![c]
        };
        assert(escaped(s) + rest =~= escaped(s.drop_last()) + (e + rest));
        lemma_read_escaped(s.drop_last(), e + rest);
        if c == '\'' {
            let a = e + rest;
            let b = a.skip(1);
            let d = b.skip(2);
            assert(b[0] == '\\' && b[1] == '\'');
            assert(d =~= seq!['\''] + rest);
            assert(d.skip(1) =~= rest);
            assert(shell_read(d, false) == shell_read(rest, true));
            assert(shell_read(b, false) == seq!['\''] + shell_read(d, false));
            assert(shell_read(a, true) == shell_read(b, false));
        } else {
            assert((e + rest).skip(1) =~= rest);
        }
        assert(shell_read(e + rest, true) =~= seq![c] + shell_read(rest, true));
        assert(s.drop_last() + (seq![c] + shell_read(rest, true)) =~= s + shell_read(rest, true));
    }
}

/// A shell reads a quoted argument as what it was.
pub proof fn law_shell_reads_back(s: Seq<char>)
    ensures
        shell_read(shell_quoted(s), false) == s,
{
    if s.len() > 0 && all_safe(s) {
        lemma_read_safe(s);
    } else {
        let end = seq!['\''];
        lemma_read_escaped(s, end);
        assert(end.skip(1) =~= Seq::<char>::empty());
        assert(shell_read(Seq::<char>::empty(), false) =~= Seq::empty());
        assert(shell_read(end, true) =~= Seq::empty());
        let q = shell_quoted(s);
        assert(q.skip(1) =~= escaped(s) + end);
        assert(s + Seq::<char>::empty() =~= s);
    }
}

/// No handle is empty or holds a comma.
pub open spec fn are_handles(list: Seq<Seq<char>>) -> bool {
    forall|i: int| 0 <= i < list.len() ==> (#[trigger] list[i]).len() > 0 && !list[i].contains(',')
}

proof fn lemma_split_more(a: Seq<char>, b: Seq<char>, sep: char)
    requires
        !b.contains(sep),
    ensures
        split_on(a + b, sep) == split_on(a, sep).drop_last().push(split_on(a, sep).last() + b),
    decreases b.len(),
{
    crate::text::lemma_split_nonempty(a, sep);
    let parts = split_on(a, sep);
    if b.len() == 0 {
        assert(a + b =~= a);
        assert(parts.last() + b =~= parts.last());
        assert(parts =~= parts.drop_last().push(parts.last()));
    } else {
        let head = b.drop_last();
        assert(!head.contains(sep)) by {
            if head.contains(sep) {
                let j = choose|j: int| 0 <= j < head.len() && head[j] == sep;
                assert(b[j] == sep);
            }
        }
        lemma_split_more(a, head, sep);
        assert((a + b).drop_last() =~= a + head);
        assert(b.last() != sep) by {
            if b.last() == sep {
                assert(b.contains(sep));
            }
        }
        assert((parts.last() + head).push(b.last()) =~= parts.last() + b);
        let before = split_on(a + head, sep);
        assert(before.drop_last() =~= parts.drop_last());
        assert(before.last() == parts.last() + head);
    }
}

proof fn lemma_commas_split(list: Seq<Seq<char>>, n: int)
    requires
        are_handles(list),
        1 <= n <= list.len(),
    ensures
        split_on(with_commas(list, n), ',') == list.take(n),
    decreases n,
{
    let text = with_commas(list, n);
    assert(!list[n - 1].contains(','));
    if n == 1 {
        let empty = Seq::<char>::empty();
        lemma_split_more(empty, list[0], ',');
        assert(empty + list[0] =~= list[0]);
        assert(split_on(empty, ',') =~= seq![empty]);
        assert(split_on(text, ',') =~= list.take(1));
    } else {
        lemma_commas_split(list, n - 1);
        let before = with_commas(list, n - 1);
        let mid = before + seq![','];
        assert(mid.drop_last() =~= before);
        let empty = Seq::<char>::empty();
        assert(split_on(mid, ',') == split_on(before, ',').push(empty));
        lemma_split_more(mid, list[n - 1], ',');
        assert(empty + list[n - 1] =~= list[n - 1]);
        assert(split_on(mid, ',').drop_last() =~= list.take(n - 1));
        assert(split_on(text, ',') =~= list.take(n));
    }
}

proof fn lemma_none_empty(list: Seq<Seq<char>>, n: int)
    requires
        are_handles(list),
        0 <= n <= list.len(),
    ensures
        not_empty(list, n) == list.take(n),
    decreases n,
{
    if n > 0 {
        lemma_none_empty(list, n - 1);
        assert(list[n - 1].len() > 0);
        assert(list.take(n) =~= list.take(n - 1).push(list[n - 1]));
    } else {
        assert(list.take(0) =~= Seq::empty());
    }
}

/// The command that repeats a choice chooses the same: its `--files` option
/// is read as the handles that were picked, in order.
pub proof fn law_replay_chooses_the_same(a: ArgsModel, picked: Seq<Seq<char>>)
    requires
        are_handles(picked),
        picked.len() > 0,
    ensures
        with_arg(a, "--files="@ + with_commas(picked, picked.len() as int)) == ParsedModel::Run(
            ArgsModel { files: Some(picked), ..a },
        ),
{
    let text = with_commas(picked, picked.len() as int);
    let arg = "--files="@ + text;
    reveal_strlit("--path=");
    reveal_strlit("--files=");
    assert(arg.take(8) =~= "--files="@);
    assert(arg.skip(8) =~= text);
    if has_prefix(arg, "--path="@) {
        assert(arg.take(7)[2] == 'p');
        assert(arg[2] == 'f');
    }
    lemma_commas_split(picked, picked.len() as int);
    assert(picked.take(picked.len() as int) =~= picked);
    lemma_none_empty(picked, picked.len() as int);
}

proof fn lemma_one_word(s: Seq<char>)
    requires
        forall|j: int| 0 <= j < s.len() ==> !is_separator(#[trigger] s[j]),
    ensures
        word_len(s) == s.len(),
    decreases s.len(),
{
    if s.len() > 0 {
        let t = s.skip(1);
        assert forall|j: int| 0 <= j < t.len() implies !is_separator(#[trigger] t[j]) by {
            assert(t[j] == s[j + 1]);
        }
        lemma_one_word(t);
    }
}

proof fn lemma_file_number(entries: Seq<EntryModel>, i: int, from: int)
    requires
        0 <= from <= i < entries.len(),
        !entries[i].is_dir,
        forall|j: int| 0 <= j < entries.len() ==> (#[trigger] entries[j]).index == j + 1,
    ensures
        file_number(entries, (i + 1) as nat, from) == Some(entries[i].handle),
    decreases i - from,
{
    if from < i {
        lemma_file_number(entries, i, from + 1);
    }
}

/// Entering the number that is shown beside a file of a folder chooses that
/// file.
pub proof fn law_numbers_choose_files(f: FolderModel, i: int)
    requires
        0 <= i < f.nodes.len() <= usize::MAX,
        !f.nodes[i].is_dir,
    ensures
        words_choice(folder_entries(f), words(trim(decimal((i + 1) as nat))), Seq::empty()) == Ok::<
            Seq<Seq<char>>,
            Seq<char>,
        >(seq![f.nodes[i].handle]),
{
    let entries = folder_entries(f);
    let word = decimal((i + 1) as nat);
    law_decimal_reads_back((i + 1) as nat);
    assert forall|j: int| 0 <= j < word.len() implies !is_separator(#[trigger] word[j]) by {
        assert('0' <= word[j] <= '9');
    }
    lemma_one_word(word);
    assert(!is_white(word[0]) && !is_white(word.last()));
    assert(trim(word) == word);
    assert(word.take(word.len() as int) =~= word);
    assert(word.skip(word.len() as int) =~= Seq::empty());
    assert(words(word.skip(word.len() as int)) =~= Seq::<Seq<char>>::empty());
    assert(words(word) =~= seq![word]);
    lemma_file_number(entries, i, 0);
    assert(word_choice(entries, word) == Ok::<Seq<char>, Seq<char>>(f.nodes[i].handle));
    let list = words(word);
    assert(list.skip(1) =~= Seq::empty());
    assert(words_choice(entries, list.skip(1), Seq::empty().push(f.nodes[i].handle)) == Ok::<Seq<Seq<char>>, Seq<char>>(
        Seq::empty().push(f.nodes[i].handle),
    ));
    assert(Seq::empty().push(f.nodes[i].handle) =~= seq![f.nodes[i].handle]);
}

/// Each option sets what it is for, and nothing else. What does not begin
/// with a dash is an address, behind those that came before. Anything else is
/// refused by name.
pub proof fn law_options(a: ArgsModel, v: Seq<char>, arg: Seq<char>)
    ensures
        with_arg(a, "--path="@ + v) == ParsedModel::Run(ArgsModel { path: Some(v), ..a }),
        with_arg(a, "--no-progress"@) == ParsedModel::Run(ArgsModel { no_progress: true, ..a }),
        with_arg(a, "--print-names"@) == ParsedModel::Run(ArgsModel { print_names: true, ..a }),
        with_arg(a, "--choose-files"@) == ParsedModel::Run(ArgsModel { choose_files: true, ..a }),
        with_arg(a, "-h"@) == ParsedModel::Help,
        with_arg(a, "--help"@) == ParsedModel::Help,
        with_arg(a, "--version"@) == ParsedModel::Version,
        arg.len() == 0 || arg[0] != '-' ==> with_arg(a, arg) == ParsedModel::Run(ArgsModel { urls: a.urls.push(arg), ..a }),
        with_arg(a, arg) matches ParsedModel::Error(e) ==> arg.len() > 0 && arg[0] == '-' && e == "unknown option: "@ + arg,
{
    lemma_option_names();
    reveal_strlit("--path=");
    reveal_strlit("--files=");
    reveal_strlit("-");
    let set = "--path="@ + v;
    assert(set.take(7) =~= "--path="@);
    assert(set.skip(7) =~= v);
    if arg.len() == 0 || arg[0] != '-' {
        reveal_strlit("--no-progress");
        reveal_strlit("--print-names");
        reveal_strlit("--choose-files");
        reveal_strlit("-h");
        reveal_strlit("--help");
        reveal_strlit("--version");
        if has_prefix(arg, "--path="@) {
            assert(arg.take(7)[0] == '-');
        }
        if has_prefix(arg, "--files="@) {
            assert(arg.take(8)[0] == '-');
        }
        if has_prefix(arg, "-"@) {
            assert(arg.take(1)[0] == '-');
        }
    } else {
        assert(arg.take(1) =~= "-"@);
    }
}

/// An argument is none of the options that take a value.
spec fn takes_no_value(arg: Seq<char>) -> bool {
    !has_prefix(arg, "--path="@) && !has_prefix(arg, "--files="@)
}

/// No option is another one, or begins as one that takes a value does.
proof fn lemma_option_names()
    ensures
        ({
            &&& takes_no_value("--no-progress"@) && takes_no_value("--print-names"@) && takes_no_value("--choose-files"@)
            &&& takes_no_value("-h"@) && takes_no_value("--help"@) && takes_no_value("--version"@)
            &&& "--print-names"@ != "--no-progress"@
            &&& "--choose-files"@ != "--no-progress"@ && "--choose-files"@ != "--print-names"@
            &&& "-h"@ != "--no-progress"@ && "-h"@ != "--print-names"@ && "-h"@ != "--choose-files"@
            &&& "--help"@ != "--no-progress"@ && "--help"@ != "--print-names"@ && "--help"@ != "--choose-files"@
            &&& "--version"@ != "--no-progress"@ && "--version"@ != "--print-names"@ && "--version"@ != "--choose-files"@
            &&& "--version"@ != "-h"@ && "--version"@ != "--help"@
        }),
{
    reveal_strlit("--path=");
    reveal_strlit("--files=");
    reveal_strlit("--no-progress");
    reveal_strlit("--print-names");
    reveal_strlit("--choose-files");
    reveal_strlit("-h");
    reveal_strlit("--help");
    reveal_strlit("--version");
    let names = seq!["--no-progress"@, "--print-names"@, "--choose-files"@, "-h"@, "--help"@, "--version"@];
    assert("--print-names"@[2] == 'p' && "--no-progress"@[2] == 'n' && "--choose-files"@[2] == 'c' && "--help"@[2] == 'h'
        && "--version"@[2] == 'v' && "-h"@.len() == 2 && "--print-names"@[3] == 'r');
    assert forall|i: int| 0 <= i < names.len() implies takes_no_value(#[trigger] names[i]) by {
        if has_prefix(names[i], "--path="@) {
            assert(names[i].take(7)[2] == 'p' && names[i].take(7)[3] == 'a');
        }
        if has_prefix(names[i], "--files="@) {
            assert(names[i].take(8)[2] == 'f');
        }
    }
    assert(takes_no_value(names[0]) && takes_no_value(names[1]) && takes_no_value(names[2]) && takes_no_value(names[3])
        && takes_no_value(names[4]) && takes_no_value(names[5]));
}

/// A list of handles on the command line is taken apart at its commas. What
/// is empty between two of them is left out, and nothing else.
pub proof fn law_files_option(a: ArgsModel, parts: Seq<Seq<char>>)
    requires
        parts.len() > 0,
        forall|i: int| 0 <= i < parts.len() ==> !(#[trigger] parts[i]).contains(','),
    ensures
        with_arg(a, "--files="@ + with_between(parts, ',')) matches ParsedModel::Run(b) && b == (ArgsModel {
            files: Some(parts.filter(|p: Seq<char>| p.len() > 0)),
            ..a
        }),
{
    let text = with_between(parts, ',');
    let arg = "--files="@ + text;
    reveal_strlit("--path=");
    reveal_strlit("--files=");
    assert(arg.take(8) =~= "--files="@);
    assert(arg.skip(8) =~= text);
    if has_prefix(arg, "--path="@) {
        assert(arg.take(7)[2] == 'p');
        assert(arg[2] == 'f');
    }
    law_splitting_undoes_joining(parts, ',');
    lemma_not_empty_filters(parts, parts.len() as int);
    assert(parts.take(parts.len() as int) =~= parts);
}

proof fn lemma_not_empty_filters(list: Seq<Seq<char>>, n: int)
    requires
        0 <= n <= list.len(),
    ensures
        not_empty(list, n) == list.take(n).filter(|p: Seq<char>| p.len() > 0),
    decreases n,
{
    reveal(Seq::filter);
    let head = list.take(n);
    if n > 0 {
        lemma_not_empty_filters(list, n - 1);
        assert(head.drop_last() =~= list.take(n - 1));
        assert(head.last() == list[n - 1]);
    } else {
        assert(head =~= Seq::empty());
    }
}

/// Arguments are taken one after the other, and what one of them says stands
/// until another says otherwise. One that asks for help, or is refused, is
/// the last that is looked at. Without an address there is nothing to run.
pub proof fn law_arguments_are_taken_in_order(a: ArgsModel, b: ArgsModel, arg: Seq<char>, rest: Seq<Seq<char>>)
    ensures
        with_arg(a, arg) == ParsedModel::Run(b) ==> parsed(a, seq![arg] + rest) == parsed(b, rest),
        !(with_arg(a, arg) is Run) ==> parsed(a, seq![arg] + rest) == with_arg(a, arg),
        a.urls.len() > 0 ==> parsed(a, Seq::empty()) == ParsedModel::Run(a),
        a.urls.len() == 0 ==> parsed(a, Seq::empty()) == ParsedModel::Error("no URL given"@),
{
    assert((seq![arg] + rest)[0] == arg);
    assert((seq![arg] + rest).skip(1) =~= rest);
}

/// A command line of addresses alone asks for all of them, in order, and for
/// nothing else.
pub proof fn law_addresses_alone(a: ArgsModel, args: Seq<Seq<char>>)
    requires
        forall|i: int| 0 <= i < args.len() ==> (#[trigger] args[i]).len() == 0 || args[i][0] != '-',
        a.urls.len() + args.len() > 0,
    ensures
        parsed(a, args) == ParsedModel::Run(ArgsModel { urls: a.urls + args, ..a }),
    decreases args.len(),
{
    if args.len() == 0 {
        assert(a.urls + args =~= a.urls);
    } else {
        law_options(a, Seq::empty(), args[0]);
        let b = ArgsModel { urls: a.urls.push(args[0]), ..a };
        let rest = args.skip(1);
        assert forall|i: int| 0 <= i < rest.len() implies (#[trigger] rest[i]).len() == 0 || rest[i][0] != '-' by {
            assert(rest[i] == args[i + 1]);
        }
        law_addresses_alone(b, rest);
        assert(b.urls + rest =~= a.urls + args);
    }
}

/// Text that is set to the right of a column fills the column with spaces on
/// its left; text that is too long stands as it is.
pub proof fn law_right_aligned(s: Seq<char>, width: nat)
    ensures
        ({
            let t = right_aligned(s, width);
            &&& t.len() == if s.len() < width {
                width
            } else {
                s.len()
            }
            &&& t.skip(t.len() - s.len()) == s
            &&& forall|i: int| 0 <= i < t.len() - s.len() ==> #[trigger] t[i] == ' '
        }),
{
    let t = right_aligned(s, width);
    assert(t.skip(t.len() - s.len()) =~= s);
}

/// The line for a file shows its number, its size and its path, each in its
/// own column where they fit: the number ends in the sixth, the size in the
/// eighteenth, and the path begins in the twenty-first.
pub proof fn law_choice_line(e: EntryModel)
    requires
        decimal(e.index as nat).len() <= 4,
        size_text(e.size as int).len() <= 10,
    ensures
        ({
            let line = choice_line(e);
            let number = decimal(e.index as nat);
            let size = size_text(e.size as int);
            &&& line.subrange(6 - number.len(), 6) == number
            &&& line.subrange(18 - size.len(), 18) == size
            &&& line.skip(20) == e.path + seq!['\n']
            &&& forall|i: int|
                0 <= i < 6 - number.len() || 6 <= i < 18 - size.len() || 18 <= i < 20 ==> #[trigger] line[i] == ' '
        }),
{
    let line = choice_line(e);
    let number = decimal(e.index as nat);
    let size = size_text(e.size as int);
    law_right_aligned(number, 4);
    law_right_aligned(size, 10);
    reveal_strlit("  ");
    let x = right_aligned(number, 4);
    let y = right_aligned(size, 10);
    assert(line =~= "  "@ + x + "  "@ + y + "  "@ + (e.path + seq!['\n']));
    assert(line.subrange(6 - number.len(), 6) =~= x.skip(x.len() - number.len()));
    assert(line.subrange(18 - size.len(), 18) =~= y.skip(y.len() - size.len()));
    assert(line.skip(20) =~= e.path + seq!['\n']);
    assert forall|i: int| 0 <= i < 6 - number.len() || 6 <= i < 18 - size.len() || 18 <= i < 20 implies #[trigger] line[i]
        == ' ' by {
        if 2 <= i < 6 {
            assert(line[i] == x[i - 2]);
        } else if 8 <= i < 18 {
            assert(line[i] == y[i - 8]);
        }
    }
}

/// Every file has its line, and directories have none.
pub proof fn law_choices_show_files(entries: Seq<EntryModel>, n: int, i: int)
    requires
        0 <= i < n <= entries.len(),
    ensures
        !entries[i].is_dir ==> has_text(choice_lines(entries, n), choice_line(entries[i])),
        entries[i].is_dir ==> choice_lines(entries, i + 1) == choice_lines(entries, i),
        !entries[i].is_dir ==> choice_lines(entries, i + 1) == choice_lines(entries, i) + choice_line(entries[i]),
    decreases n,
{
    let before = choice_lines(entries, n - 1);
    let last = choice_line(entries[n - 1]);
    if !entries[i].is_dir {
        if i == n - 1 {
            law_text_is_found(before, last, Seq::empty());
            assert(before + last + Seq::<char>::empty() =~= before + last);
        } else {
            law_choices_show_files(entries, n - 1, i);
            let needle = choice_line(entries[i]);
            law_found_text_stands(before, needle);
            let (a, b) = choose|a: Seq<char>, b: Seq<char>| before == #[trigger] (a + needle + b);
            assert(before + last =~= a + needle + (b + last));
            law_text_is_found(a, needle, b + last);
        }
    }
}

proof fn lemma_word_ends(s: Seq<char>, rest: Seq<char>)
    requires
        forall|j: int| 0 <= j < s.len() ==> !is_separator(#[trigger] s[j]),
        rest.len() > 0 ==> is_separator(rest[0]),
    ensures
        word_len(s + rest) == s.len(),
    decreases s.len(),
{
    if s.len() == 0 {
        assert(s + rest =~= rest);
    } else {
        let t = s.skip(1);
        assert forall|j: int| 0 <= j < t.len() implies !is_separator(#[trigger] t[j]) by {
            assert(t[j] == s[j + 1]);
        }
        assert(!is_separator(s[0]));
        assert((s + rest)[0] == s[0]);
        assert((s + rest).skip(1) =~= t + rest);
        lemma_word_ends(t, rest);
    }
}

/// What was entered is taken apart at commas and white space, any number of
/// them: each run of other characters is a word, and nothing else is.
pub proof fn law_words(sep: char, s: Seq<char>, rest: Seq<char>)
    requires
        sep == ',' || is_white(sep),
        s.len() > 0,
        forall|j: int| 0 <= j < s.len() ==> #[trigger] s[j] != ',' && !is_white(s[j]),
    ensures
        words(seq![sep] + rest) == words(rest),
        words(s + seq![sep] + rest) == seq![s] + words(rest),
        words(s) == seq![s],
        words(Seq::empty()).len() == 0,
{
    assert((seq![sep] + rest)[0] == sep);
    assert((seq![sep] + rest).skip(1) =~= rest);
    assert forall|j: int| 0 <= j < s.len() implies !is_separator(#[trigger] s[j]) by {}
    let tail = seq![sep] + rest;
    let all = s + tail;
    assert(s + seq![sep] + rest =~= all);
    lemma_word_ends(s, tail);
    assert(!is_separator(s[0]));
    assert(all[0] == s[0]);
    assert(all.take(s.len() as int) =~= s);
    assert(all.skip(s.len() as int) =~= tail);
    assert(words(tail) == words(rest));
    assert(words(all) == seq![s] + words(tail));
    let empty = Seq::<char>::empty();
    lemma_word_ends(s, empty);
    assert(s + empty =~= s);
    assert(s.take(s.len() as int) =~= s);
    assert(s.skip(s.len() as int) =~= empty);
    assert(words(empty) =~= Seq::<Seq<char>>::empty());
    assert(words(s) =~= seq![s]);
}

proof fn lemma_numbered(entries: Seq<EntryModel>, n: nat, from: int, i: int)
    requires
        0 <= from <= i <= entries.len(),
        forall|j: int| from <= j < i ==> (#[trigger] entries[j]).is_dir || entries[j].index != n,
        i < entries.len() ==> !entries[i].is_dir && entries[i].index == n,
    ensures
        file_number(entries, n, from) == (if i < entries.len() {
            Some(entries[i].handle)
        } else {
            None
        }),
    decreases i - from,
{
    if from < i {
        lemma_numbered(entries, n, from + 1, i);
    }
}

/// A number chooses the file that bears it. A directory cannot be chosen, nor
/// a number that no file bears, nor what is no number.
pub proof fn law_words_choose_files(entries: Seq<EntryModel>, n: nat, i: int, word: Seq<char>)
    requires
        n <= usize::MAX,
        0 <= i <= entries.len(),
        forall|j: int| 0 <= j < i ==> (#[trigger] entries[j]).is_dir || entries[j].index != n,
        i < entries.len() ==> !entries[i].is_dir && entries[i].index == n,
    ensures
        i < entries.len() ==> word_choice(entries, decimal(n)) == Ok::<Seq<char>, Seq<char>>(entries[i].handle),
        i == entries.len() ==> word_choice(entries, decimal(n)) == Err::<Seq<char>, Seq<char>>(
            "no such file: "@ + decimal(n),
        ),
        parse_unsigned(word, 10, usize::MAX as nat) is None ==> word_choice(entries, word) == Err::<Seq<char>, Seq<char>>(
            "not a number: "@ + word,
        ),
{
    law_decimal_reads_back(n);
    lemma_numbered(entries, n, 0, i);
}

/// All words choose one file each, in the order in which they were entered.
/// The first that chooses none is complained about.
#[verifier::rlimit(60)]
pub proof fn law_choices_in_order(entries: Seq<EntryModel>, list: Seq<Seq<char>>, so_far: Seq<Seq<char>>, k: int)
    requires
        0 <= k <= list.len(),
        forall|j: int| 0 <= j < k ==> word_choice(entries, #[trigger] list[j]) is Ok,
    ensures
        k < list.len() && word_choice(entries, list[k]) is Err ==> words_choice(entries, list, so_far) == Err::<
            Seq<Seq<char>>,
            Seq<char>,
        >(word_choice(entries, list[k])->Err_0),
        k == list.len() ==> (words_choice(entries, list, so_far) matches Ok(hs) && hs.len() == so_far.len() + list.len()
            && hs.take(so_far.len() as int) == so_far && forall|j: int|
            0 <= j < list.len() ==> word_choice(entries, #[trigger] list[j]) == Ok::<Seq<char>, Seq<char>>(
                hs[so_far.len() + j],
            )),
    decreases list.len(),
{
    if list.len() == 0 {
        assert(so_far.take(so_far.len() as int) =~= so_far);
    } else if k > 0 {
        let rest = list.skip(1);
        assert(word_choice(entries, list[0]) is Ok);
        let h = word_choice(entries, list[0])->Ok_0;
        let more = so_far.push(h);
        assert forall|j: int| 0 <= j < k - 1 implies word_choice(entries, #[trigger] rest[j]) is Ok by {
            assert(rest[j] == list[j + 1]);
        }
        law_choices_in_order(entries, rest, more, k - 1);
        assert(words_choice(entries, list, so_far) == words_choice(entries, rest, more));
        if k < list.len() {
            assert(rest[k - 1] == list[k]);
        } else {
            let hs = words_choice(entries, rest, more)->Ok_0;
            assert(hs.take(so_far.len() as int) =~= hs.take(more.len() as int).take(so_far.len() as int));
            assert(more.take(so_far.len() as int) =~= so_far);
            assert(hs[so_far.len() as int] == hs.take(more.len() as int)[so_far.len() as int]);
            assert forall|j: int| 0 <= j < list.len() implies word_choice(entries, #[trigger] list[j]) == Ok::<
                Seq<char>,
                Seq<char>,
            >(hs[so_far.len() + j]) by {
                if j > 0 {
                    assert(rest[j - 1] == list[j]);
                    assert(word_choice(entries, rest[j - 1]) == Ok::<Seq<char>, Seq<char>>(hs[more.len() + (j - 1)]));
                }
            }
        }
    }
}

/// A shell takes a text for one word: outside of quotes there are only
/// letters, digits and a few harmless signs, or a character behind a
/// backslash, and every quote is closed.
pub open spec fn is_one_word(word: Seq<char>, in_quotes: bool) -> bool
    decreases word.len(),
{
    if word.len() == 0 {
        !in_quotes
    } else if word[0] == '\'' {
        is_one_word(word.skip(1), !in_quotes)
    } else if in_quotes {
        is_one_word(word.skip(1), true)
    } else if word[0] == '\\' {
        word.len() > 1 && is_one_word(word.skip(2), false)
    } else {
        "ABCDEFGHIJKLMNOPQRSTUVWXYZabcdefghijklmnopqrstuvwxyz0123456789._-/=:"@.contains(word[0]) && is_one_word(
            word.skip(1),
            false,
        )
    }
}

proof fn lemma_safe_char_listed(c: char)
    requires
        is_safe(c),
    ensures
        "ABCDEFGHIJKLMNOPQRSTUVWXYZabcdefghijklmnopqrstuvwxyz0123456789._-/=:"@.contains(c),
        c != '\'' && c != '\\',
{
    let all = "ABCDEFGHIJKLMNOPQRSTUVWXYZabcdefghijklmnopqrstuvwxyz0123456789._-/=:"@;
    reveal_strlit("ABCDEFGHIJKLMNOPQRSTUVWXYZabcdefghijklmnopqrstuvwxyz0123456789._-/=:");
    let i: int = if 'A' <= c <= 'Z' {
        c as int - 65
    } else if 'a' <= c <= 'z' {
        c as int - 97 + 26
    } else if '0' <= c <= '9' {
        c as int - 48 + 52
    } else if c == '.' {
        62
    } else if c == '_' {
        63
    } else if c == '-' {
        64
    } else if c == '/' {
        65
    } else if c == '=' {
        66
    } else {
        67
    };
    assert(all[i] == c);
}

proof fn lemma_safe_is_one_word(s: Seq<char>)
    requires
        all_safe(s),
    ensures
        is_one_word(s, false),
    decreases s.len(),
{
    if s.len() > 0 {
        assert(is_safe(s[0]));
        lemma_safe_char_listed(s[0]);
        assert forall|i: int| 0 <= i < s.skip(1).len() implies is_safe(#[trigger] s.skip(1)[i]) by {
            assert(s.skip(1)[i] == s[i + 1]);
        }
        lemma_safe_is_one_word(s.skip(1));
    }
}

proof fn lemma_escaped_is_one_word(s: Seq<char>, rest: Seq<char>)
    ensures
        is_one_word(escaped(s) + rest, true) == is_one_word(rest, true),
    decreases s.len(),
{
    if s.len() == 0 {
        assert(escaped(s) + rest =~= rest);
    } else {
        let c = s.last();
        let e = if c == '\'' {
            seq!['\'', '\\', '\'', '\'']
        } else {
            seq![c]
        };
        assert(escaped(s) + rest =~= escaped(s.drop_last()) + (e + rest));
        lemma_escaped_is_one_word(s.drop_last(), e + rest);
        if c == '\'' {
            let a = e + rest;
            let b = a.skip(1);
            let d = b.skip(2);
            assert(b[0] == '\\' && b[1] == '\'');
            assert(d =~= seq!['\''] + rest);
            assert(d.skip(1) =~= rest);
            assert(is_one_word(d, false) == is_one_word(rest, true));
            assert(is_one_word(b, false) == is_one_word(d, false));
            assert(is_one_word(a, true) == is_one_word(b, false));
        } else {
            assert((e + rest)[0] == c);
            assert((e + rest).skip(1) =~= rest);
        }
    }
}

/// A quoted argument is one word to a shell, whatever it holds. One that
/// needs no quotes has none.
pub proof fn law_quoted_is_one_word(s: Seq<char>)
    ensures
        is_one_word(shell_quoted(s), false),
        shell_quoted(s).len() > 0,
        s.len() > 0 && (forall|i: int|
            0 <= i < s.len()
                ==> "ABCDEFGHIJKLMNOPQRSTUVWXYZabcdefghijklmnopqrstuvwxyz0123456789._-/=:"@.contains(#[trigger] s[i]))
            ==> shell_quoted(s) == s,
{
    if s.len() > 0 && all_safe(s) {
        lemma_safe_is_one_word(s);
    } else {
        let end = seq!['\''];
        lemma_escaped_is_one_word(s, end);
        assert(end.skip(1).len() == 0);
        assert(is_one_word(end.skip(1), false));
        assert(end[0] == '\'');
        assert(is_one_word(end, true));
        assert(shell_quoted(s).skip(1) =~= escaped(s) + end);
    }
    let all = "ABCDEFGHIJKLMNOPQRSTUVWXYZabcdefghijklmnopqrstuvwxyz0123456789._-/=:"@;
    if s.len() > 0 && (forall|i: int| 0 <= i < s.len() ==> all.contains(#[trigger] s[i])) {
        reveal_strlit("ABCDEFGHIJKLMNOPQRSTUVWXYZabcdefghijklmnopqrstuvwxyz0123456789._-/=:");
        assert forall|i: int| 0 <= i < s.len() implies is_safe(#[trigger] s[i]) by {
            assert(all.contains(s[i]));
            let j = choose|j: int| 0 <= j < all.len() && all[j] == s[i];
            assert(is_safe(all[j]));
        }
    }
}

/// The command that repeats a choice names the program first and the address
/// last, both quoted, and the handles in between. It carries the path and
/// the two flags exactly where they were given.
#[verifier::rlimit(60)]
pub proof fn law_replay_command(program: Seq<char>, a: ArgsModel, picked: Seq<Seq<char>>, url: Seq<char>)
    ensures
        ({
            let cmd = replay_text(program, a, picked, url);
            let head = shell_quoted(program) + " --files="@ + with_between(picked, ',');
            let tail = " "@ + shell_quoted(url);
            let n = cmd.len() - tail.len();
            let mid = cmd.subrange(head.len() as int, n);
            let path = match a.path {
                Some(p) => " --path="@ + shell_quoted(p),
                None => Seq::empty(),
            };
            &&& has_prefix(cmd, head)
            &&& head.len() <= n
            &&& cmd.skip(n) == tail
            &&& has_prefix(mid, path)
            &&& !a.print_names && !a.no_progress ==> mid == path
            &&& a.print_names && !a.no_progress ==> mid == path + " --print-names"@
            &&& !a.print_names && a.no_progress ==> mid == path + " --no-progress"@
            &&& a.print_names && a.no_progress ==> mid == path + " --print-names"@ + " --no-progress"@
        }),
{
    reveal_strlit(" ");
    assert(" "@ =~= seq![' ']);
    lemma_commas_between(picked, picked.len() as int);
    assert(picked.take(picked.len() as int) =~= picked);
    let cmd = replay_text(program, a, picked, url);
    let head = shell_quoted(program) + " --files="@ + with_between(picked, ',');
    let tail = " "@ + shell_quoted(url);
    let path = match a.path {
        Some(p) => " --path="@ + shell_quoted(p),
        None => Seq::<char>::empty(),
    };
    let flags = (if a.print_names {
        " --print-names"@
    } else {
        Seq::<char>::empty()
    }) + (if a.no_progress {
        " --no-progress"@
    } else {
        Seq::<char>::empty()
    });
    assert(cmd =~= head + (path + flags) + tail);
    let n = cmd.len() - tail.len();
    assert(cmd.take(head.len() as int) =~= head);
    assert(cmd.skip(n) =~= tail);
    let mid = cmd.subrange(head.len() as int, n);
    assert(mid =~= path + flags);
    assert(mid.take(path.len() as int) =~= path);
    if !a.print_names && !a.no_progress {
        assert(mid =~= path);
    } else if !a.no_progress {
        assert(mid =~= path + " --print-names"@);
    } else if !a.print_names {
        assert(mid =~= path + " --no-progress"@);
    } else {
        assert(mid =~= path + " --print-names"@ + " --no-progress"@);
    }
}

proof fn lemma_commas_between(list: Seq<Seq<char>>, n: int)
    requires
        0 <= n <= list.len(),
    ensures
        with_commas(list, n) == with_between(list.take(n), ','),
    decreases n,
{
    let head = list.take(n);
    if n > 1 {
        lemma_commas_between(list, n - 1);
        assert(head.drop_last() =~= list.take(n - 1));
        let before = with_between(list.take(n - 1), ',');
        assert(before + seq![','] + list[n - 1] =~= before.push(',') + head.last());
    } else if n == 1 {
        assert(head[0] == list[0]);
    }
}

proof fn lemma_entry_from(entries: Seq<EntryModel>, h: Seq<char>, from: int, i: int)
    requires
        0 <= from <= i <= entries.len(),
        forall|j: int| from <= j < i ==> (#[trigger] entries[j]).handle != h,
        i < entries.len() ==> entries[i].handle == h,
    ensures
        entry_with(entries, h, from) == (if i < entries.len() {
            Some(entries[i])
        } else {
            None
        }),
    decreases i - from,
{
    if from < i {
        lemma_entry_from(entries, h, from + 1, i);
    }
}

/// In a summary, every handle stands for the first entry that has it: its
/// name is listed and its size counted. A handle that no entry has does not
/// count.
pub proof fn law_summaries_count_entries(
    entries: Seq<EntryModel>,
    picked: Seq<Seq<char>>,
    n: int,
    i: int,
)
    requires
        0 <= n < picked.len(),
        0 <= i <= entries.len(),
        forall|j: int| 0 <= j < i ==> (#[trigger] entries[j]).handle != picked[n],
        i < entries.len() ==> entries[i].handle == picked[n],
    ensures
        picked_names(entries, picked, 0).len() == 0,
        picked_total(entries, picked, 0) == 0,
        i < entries.len() ==> picked_names(entries, picked, n + 1) == picked_names(entries, picked, n).push(
            entries[i].name,
        ) && picked_total(entries, picked, n + 1) == wrapped_sum(picked_total(entries, picked, n), entries[i].size as int),
        i == entries.len() ==> picked_names(entries, picked, n + 1) == picked_names(entries, picked, n) && picked_total(
            entries,
            picked,
            n + 1,
        ) == picked_total(entries, picked, n),
{
    lemma_entry_from(entries, picked[n], 0, i);
}

proof fn lemma_name_stands(names: Seq<Seq<char>>, n: int, i: int)
    requires
        0 <= i < n <= names.len(),
    ensures
        has_text(name_lines(names, n), "  - "@ + names[i] + seq!['\n']),
    decreases n,
{
    let before = name_lines(names, n - 1);
    let last = "  - "@ + names[n - 1] + seq!['\n'];
    let needle = "  - "@ + names[i] + seq!['\n'];
    assert(name_lines(names, n) =~= before + last);
    if i == n - 1 {
        law_text_is_found(before, last, Seq::empty());
        assert(before + last + Seq::<char>::empty() =~= before + last);
    } else {
        lemma_name_stands(names, n - 1, i);
        law_found_text_stands(before, needle);
        let (a, b) = choose|a: Seq<char>, b: Seq<char>| before == #[trigger] (a + needle + b);
        assert(before + last =~= a + needle + (b + last));
        law_text_is_found(a, needle, b + last);
    }
}

/// The first ten names are shown, each on its line, and how many more there
/// are is told where there are more.
pub proof fn law_names_are_shown(names: Seq<Seq<char>>, i: int)
    requires
        0 <= i < names.len(),
    ensures
        i < 10 ==> has_text(names_text(names), "  - "@ + names[i] + seq!['\n']),
        names.len() > 10 ==> has_text(names_text(names), " and "@ + decimal((names.len() - 10) as nat) + " more"@),
        names.len() <= 10 ==> names_text(names) == name_lines(names, names.len() as int),
{
    let needle = "  - "@ + names[i] + seq!['\n'];
    if names.len() > 10 {
        reveal_strlit("  \u{2026} and ");
        reveal_strlit("  \u{2026}");
        reveal_strlit(" and ");
        reveal_strlit(" more\n");
        reveal_strlit(" more");
        let lines = name_lines(names, 10);
        let mid = " and "@ + decimal((names.len() - 10) as nat) + " more"@;
        let text = names_text(names);
        assert(text =~= (lines + "  \u{2026}"@) + mid + seq!['\n']);
        law_text_is_found(lines + "  \u{2026}"@, mid, seq!['\n']);
        if i < 10 {
            lemma_name_stands(names, 10, i);
            law_found_text_stands(lines, needle);
            let (a, b) = choose|a: Seq<char>, b: Seq<char>| lines == #[trigger] (a + needle + b);
            let more = "  \u{2026}"@ + mid + seq!['\n'];
            assert(text =~= a + needle + (b + more));
            law_text_is_found(a, needle, b + more);
        }
    } else {
        lemma_name_stands(names, names.len() as int, i);
    }
}

proof fn lemma_resume_text()
    ensures
        "\nTo resume this download with the current selection, you can just run this command:\n\n  "@
            == "\nTo resume this download with the current selection, you can just run this command:"@ + "\n\n  "@,
        "\n\n"@.len() == 2,
{
    reveal_strlit("\nTo resume this download with the current selection, you can just run this command:\n\n  ");
    reveal_strlit("\nTo resume this download with the current selection, you can just run this command:");
    reveal_strlit("\n\n  ");
    reveal_strlit("\n\n");
    assert("\nTo resume this download with the current selection, you can just run this command:\n\n  "@
        =~= "\nTo resume this download with the current selection, you can just run this command:"@ + "\n\n  "@);
}

/// A summary tells how many files were picked and their size, shows their
/// names, and ends with the command that repeats the choice.
pub proof fn law_summary(entries: Seq<EntryModel>, picked: Seq<Seq<char>>, command: Seq<char>)
    ensures
        ({
            let n = picked.len() as int;
            let text = summary_text(entries, picked, command);
            &&& has_prefix(
                text,
                "\nSelected "@ + decimal(picked.len()) + " file(s), "@ + size_text(picked_total(entries, picked, n))
                    + ":\n"@ + names_text(picked_names(entries, picked, n)),
            )
            &&& has_text(text, "\n\n  "@ + command + "\n\n"@)
            &&& text.skip(text.len() - command.len() - 2) == command + "\n\n"@
        }),
{
    let n = picked.len() as int;
    let text = summary_text(entries, picked, command);
    let head = "\nSelected "@ + decimal(picked.len()) + " file(s), "@ + size_text(picked_total(entries, picked, n))
        + ":\n"@ + names_text(picked_names(entries, picked, n));
    let long = "\nTo resume this download with the current selection, you can just run this command:\n\n  "@;
    let short = "\nTo resume this download with the current selection, you can just run this command:"@;
    lemma_resume_text();
    assert(text == head + long + command + "\n\n"@);
    lemma_summary_end(head, short, "\n\n  "@, command, "\n\n"@);
    assert(text.len() - command.len() - 2 == head.len() + (short.len() + "\n\n  "@.len()));
}

proof fn lemma_summary_end(head: Seq<char>, a: Seq<char>, b: Seq<char>, command: Seq<char>, end: Seq<char>)
    requires
        end.len() == 2,
    ensures
        has_prefix(head + (a + b) + command + end, head),
        has_text(head + (a + b) + command + end, b + command + end),
        (head + (a + b) + command + end).skip((head.len() + (a.len() + b.len())) as int) == command + end,
{
    lemma_regrouped(head, a, b, command, end);
    law_text_is_found(head + a, b + command + end, Seq::empty());
}

proof fn lemma_regrouped(head: Seq<char>, a: Seq<char>, b: Seq<char>, command: Seq<char>, end: Seq<char>)
    ensures
        (head + (a + b) + command + end).take(head.len() as int) == head,
        head + (a + b) + command + end == (head + a) + (b + command + end) + Seq::<char>::empty(),
        (head + (a + b) + command + end).skip((head.len() + (a.len() + b.len())) as int) == command + end,
{
    let text = head + (a + b) + command + end;
    assert(text.take(head.len() as int) =~= head);
    assert(text =~= (head + a) + (b + command + end) + Seq::<char>::empty());
    assert(text.skip((head.len() + (a.len() + b.len())) as int) =~= command + end);
}

/// Handles that were given are what is fetched, and nobody is asked. Only
/// where none were given is the user asked, if that was wanted, or is
/// everything fetched.
pub proof fn law_where_selections_come_from(a: ArgsModel)
    ensures
        a.files matches Some(f) ==> selection_of(a) == SelectionModel::Given(f),
        a.files is None ==> (selection_of(a) is Ask <==> a.choose_files) && (selection_of(a) is All <==> !a.choose_files),
{
}

/// A link is saved where the option says, and without it in the current
/// directory, which is never made.
pub proof fn law_destinations(a: ArgsModel, p: Seq<char>, exists: bool, is_folder: bool)
    ensures
        destination_of(ArgsModel { path: Some(p), ..a }) == p,
        destination_of(ArgsModel { path: None, ..a }) == seq!['.'],
        is_to_be_made(ArgsModel { path: Some(p), ..a }, exists, is_folder) <==> is_folder && !exists,
        !is_to_be_made(ArgsModel { path: None, ..a }, exists, is_folder),
{
    reveal_strlit(".");
    assert("."@ =~= seq!['.']);
}

/// A file that failed is an error that names it, unless the user cancelled;
/// then the rest is left, without an error. Otherwise the next file follows.
pub proof fn law_after_each_file(ok: bool, cancelled: bool, path: Seq<char>)
    ensures
        file_verdict(ok, cancelled, path) is Err <==> !ok && !cancelled,
        file_verdict(ok, cancelled, path) matches Err(e) ==> has_text(e, path),
        file_verdict(ok, cancelled, path) matches Ok(go_on) ==> (go_on <==> !cancelled),
{
    law_text_is_found("failed to download "@, path, Seq::empty());
    assert("failed to download "@ + path + Seq::<char>::empty() =~= "failed to download "@ + path);
}

/// A picker's outcome is good exactly where something was picked.
pub proof fn law_something_is_picked(count: Option<nat>)
    ensures
        pick_complaint(count) is None <==> (count matches Some(n) && n > 0),
        count is None ==> pick_complaint(count) == Some("cancelled"@),
        count == Some(0nat) ==> pick_complaint(count) == Some("nothing selected"@),
{
}

/// The lines about a file name it, with its size; those about a retry tell
/// why, when and for which time.
pub proof fn law_progress_lines(path: Seq<char>, size: int, reason: Seq<char>, attempt: nat, delay: nat)
    ensures
        has_text(start_text(path, size), path),
        has_text(start_text(path, size), size_text(size)),
        has_text(retry_text(reason, attempt, delay), reason),
        has_text(retry_text(reason, attempt, delay), " in "@ + decimal(delay) + seq!['s']),
        has_text(retry_text(reason, attempt, delay), "attempt "@ + decimal(attempt)),
{
    reveal_strlit(", retrying in ");
    reveal_strlit(", retrying");
    reveal_strlit(" in ");
    reveal_strlit("s (attempt ");
    reveal_strlit("s");
    reveal_strlit(" (attempt ");
    reveal_strlit(" (");
    reveal_strlit("attempt ");
    assert(", retrying in "@ =~= ", retrying"@ + " in "@);
    assert("s (attempt "@ =~= seq!['s'] + " (attempt "@);
    assert("s (attempt "@ =~= (seq!['s'] + " ("@) + "attempt "@);
    lemma_start_parts("Downloading "@, path, " ("@, size_text(size), seq![')']);
    lemma_retry_parts(
        "megadl: "@,
        reason,
        ", retrying"@,
        " in "@,
        decimal(delay),
        seq!['s'],
        " (attempt "@,
        seq!['s'] + " ("@,
        "attempt "@,
        decimal(attempt),
        seq![')'],
    );
}

proof fn lemma_start_parts(a: Seq<char>, path: Seq<char>, b: Seq<char>, size: Seq<char>, c: Seq<char>)
    ensures
        has_text(a + path + b + size + c, path),
        has_text(a + path + b + size + c, size),
{
    assert(a + path + b + size + c =~= a + path + (b + size + c));
    law_text_is_found(a, path, b + size + c);
    law_text_is_found(a + path + b, size, c);
}

proof fn lemma_retry_parts(
    a: Seq<char>,
    reason: Seq<char>,
    b: Seq<char>,
    within: Seq<char>,
    delay: Seq<char>,
    s: Seq<char>,
    c: Seq<char>,
    d: Seq<char>,
    nth: Seq<char>,
    attempt: Seq<char>,
    end: Seq<char>,
)
    requires
        s + c == d + nth,
    ensures
        ({
            let line = a + reason + (b + within) + delay + (s + c) + attempt + end;
            &&& has_text(line, reason)
            &&& has_text(line, within + delay + s)
            &&& has_text(line, nth + attempt)
        }),
{
    let line = a + reason + (b + within) + delay + (s + c) + attempt + end;
    let x = (b + within) + delay + (s + c) + attempt + end;
    assert(line =~= a + reason + x);
    law_text_is_found(a, reason, x);
    let y = c + attempt + end;
    assert(line =~= (a + reason + b) + (within + delay + s) + y);
    law_text_is_found(a + reason + b, within + delay + s, y);
    let z = a + reason + (b + within) + delay + d;
    assert(a + reason + (b + within) + delay + (d + nth) + attempt + end =~= z + (nth + attempt) + end);
    law_text_is_found(z, nth + attempt, end);
}

} // verus!
