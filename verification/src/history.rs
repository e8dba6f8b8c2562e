//! The lines that were entered, and the files that keep them.

use vstd::prelude::*;
use vstd::string::*;

use crate::number::{
    decimal, decimal_text, law_numbers_read_back, pad_before, padded_before, parse_i32, parsed_i32,
};
use crate::redirect::{
    error_line, output_line, write_error, write_output, FileTarget, FileTargetView, Message,
    MessageView, Redirect, RedirectView, Stream,
};
use crate::text::{
    ends_with_char, line_end, lines, lines_from, same_text, split_lines, without_return,
};

verus! {

/// The lines that were entered so far, and how many of them were already appended to a file.
#[derive(Debug)]
pub struct History {
    entries: Vec<String>,
    last_synced: usize,
}

/// What a [`History`] holds.
#[verifier::ext_equal]
pub struct HistoryView {
    pub entries: Seq<Seq<char>>,
    pub last_synced: int,
}

impl DeepView for History {
    type V = HistoryView;

    closed spec fn deep_view(&self) -> HistoryView {
        HistoryView { entries: self.entries.deep_view(), last_synced: self.last_synced as int }
    }
}

impl HistoryView {
    /// No more lines were appended to a file than there are.
    pub open spec fn valid(self) -> bool {
        0 <= self.last_synced <= self.entries.len()
    }

    /// The line that is shown of entry `k`: its number from one on, set to a width of four, and
    /// the entry.
    pub open spec fn line(self, k: int) -> Seq<char> {
        padded_before(decimal((k + 1) as nat), 4) + seq![' ', ' '] + self.entries[k]
    }

    /// The first of the last `recent` entries; the first of all where that is negative, or more
    /// than there are.
    pub open spec fn first_recent(self, recent: int) -> int {
        if recent < 0 || recent >= self.entries.len() {
            0
        } else {
            self.entries.len() - recent
        }
    }

    /// What is shown of the last `recent` entries.
    pub open spec fn listing(self, recent: int, redirect: RedirectView) -> Seq<MessageView> {
        let first = self.first_recent(recent);
        Seq::new(
            (self.entries.len() - first) as nat,
            |i: int| output_line(self.line(first + i), redirect),
        )
    }

    /// The same history with more lines.
    pub open spec fn with_lines(self, more: Seq<Seq<char>>) -> HistoryView {
        HistoryView { entries: self.entries + more, ..self }
    }
}

/// The text of a file that holds the entries from position `k` on, each as a line.
pub open spec fn file_text(entries: Seq<Seq<char>>, k: int) -> Seq<char>
    decreases entries.len() - k,
{
    if k >= entries.len() {
        seq![]
    } else {
        entries[k].push('\n') + file_text(entries, k + 1)
    }
}

/// What is to be done for the `history` command.
#[derive(Debug)]
pub enum HistoryStep {
    /// Nothing.
    Nothing,
    /// Write the messages.
    Show(Vec<Message>),
    /// Read the file and hand its text to [`read_history`].
    ReadFile(String),
    /// Write the text to the file.
    WriteFile(FileTarget, String),
}

/// What a [`HistoryStep`] holds.
pub enum HistoryStepView {
    Nothing,
    Show(Seq<MessageView>),
    ReadFile(Seq<char>),
    WriteFile(FileTargetView, Seq<char>),
}

impl DeepView for HistoryStep {
    type V = HistoryStepView;

    open spec fn deep_view(&self) -> HistoryStepView {
        match self {
            HistoryStep::Nothing => HistoryStepView::Nothing,
            HistoryStep::Show(messages) => HistoryStepView::Show(messages.deep_view()),
            HistoryStep::ReadFile(path) => HistoryStepView::ReadFile(path@),
            HistoryStep::WriteFile(target, text) => HistoryStepView::WriteFile(
                target.deep_view(),
                text@,
            ),
        }
    }
}

impl History {
    /// No lines.
    pub fn new() -> (r: History)
        ensures
            r.deep_view() == (HistoryView { entries: seq![], last_synced: 0 }),
            r.deep_view().valid(),
    {
        let r = History { entries: Vec::new(), last_synced: 0 };
        assert(r.deep_view().entries == Seq::<Seq<char>>::empty());
        r
    }

    fn text_from(&self, from: usize) -> (r: String)
        requires
            from <= self.deep_view().entries.len(),
        ensures
            r@ == file_text(self.deep_view().entries, from as int),
    {
        let ghost all = self.deep_view().entries;
        let mut r = String::new();
        let mut k: usize = from;
        assert(r@ + file_text(all, k as int) == file_text(all, from as int));
        while k < self.entries.len()
            invariant
                from <= k <= self.entries.len(),
                all == self.deep_view().entries,
                r@ + file_text(all, k as int) == file_text(all, from as int),
            decreases self.entries.len() - k,
        {
            let ghost done = r@;
            assert(all[k as int] == self.entries@[k as int]@);
            r.append(self.entries[k].as_str());
            r.push('\n');
            proof {
                assert(r@ == done + all[k as int].push('\n'));
                assert(r@ + file_text(all, k + 1) == done + (all[k as int].push('\n') + file_text(
                    all,
                    k + 1,
                )));
            }
            k += 1;
        }
        assert(r@ + Seq::<char>::empty() == r@);
        r
    }
}

/// Adds a line to the history.
pub fn add_to_history(history: &mut History, line: String)
    ensures
        final(history).deep_view() == (HistoryView {
            entries: old(history).deep_view().entries.push(line@),
            ..old(history).deep_view()
        }),
        old(history).deep_view().valid() ==> final(history).deep_view().valid(),
{
    let ghost before = history.deep_view();
    let ghost text = line@;
    history.entries.push(line);
    assert(history.deep_view().entries == before.entries.push(text));
}

/// Adds the lines of a file to the history.
pub fn read_history(history: &mut History, text: &str)
    ensures
        final(history).deep_view() == old(history).deep_view().with_lines(lines(text@)),
        old(history).deep_view().valid() ==> final(history).deep_view().valid(),
{
    let ghost before = history.deep_view();
    let more = split_lines(text);
    let ghost all = more.deep_view();
    let mut i: usize = 0;
    assert(before.entries + all.take(0) == before.entries);
    while i < more.len()
        invariant
            i <= more.len(),
            all == more.deep_view(),
            history.deep_view() == before.with_lines(all.take(i as int)),
        decreases more.len() - i,
    {
        add_to_history(history, more[i].clone());
        proof {
            assert(all[i as int] == more@[i as int]@);
            assert((before.entries + all.take(i as int)).push(all[i as int]) == before.entries
                + all.take(i + 1));
        }
        i += 1;
    }
    assert(all.take(i as int) == all);
}

/// What is shown of the last `recent_num` entries, or of all where that is negative.
pub fn list_history(history: &History, recent_num: i32, redirect: &Redirect) -> (r: Vec<Message>)
    ensures
        r.deep_view() == history.deep_view().listing(recent_num as int, redirect.deep_view()),
{
    let ghost view = history.deep_view();
    let ghost all = view.listing(recent_num as int, redirect.deep_view());
    let len: usize = history.entries.len();
    let first: usize = if recent_num < 0 || recent_num as usize >= len {
        0
    } else {
        len - recent_num as usize
    };
    assert(first == view.first_recent(recent_num as int));
    let mut r: Vec<Message> = Vec::new();
    let mut i: usize = first;
    while i < len
        invariant
            first <= i <= len == history.entries.len(),
            view == history.deep_view(),
            first == view.first_recent(recent_num as int),
            all == view.listing(recent_num as int, redirect.deep_view()),
            r.deep_view() == all.take(i - first),
        decreases len - i,
    {
        let ghost done = r.deep_view();
        let number = decimal_text(i + 1);
        let mut line = pad_before(number.as_str(), 4);
        let ghost head = line@;
        line.push(' ');
        line.push(' ');
        line.append(history.entries[i].as_str());
        let message = write_output(line.as_str(), redirect);
        let ghost added = message.deep_view();
        r.push(message);
        proof {
            assert(view.entries[i as int] == history.entries@[i as int]@);
            assert(head.push(' ').push(' ') == head + seq![' ', ' ']);
            assert(line@ == view.line(i as int));
            assert(r.deep_view() == done.push(added));
            assert(all[i - first] == output_line(view.line(i as int), redirect.deep_view()));
            assert(all.take(i + 1 - first) == done.push(added));
        }
        i += 1;
    }
    assert(all.take(i - first) == all);
    r
}

/// What the `history` command does: without arguments it shows all entries, and with a number that
/// many of the last. With a file, `-r` reads it, `-w` writes all entries to it, and `-a` appends
/// those that no `-a` appended before. Other options do nothing, and more than two arguments are
/// an error.
pub open spec fn history_step(
    history: HistoryView,
    args: Seq<Seq<char>>,
    redirect: RedirectView,
) -> HistoryStepView {
    if args.len() > 2 {
        HistoryStepView::Show(seq![error_line("arg num not invalid"@, redirect)])
    } else if args.len() == 0 {
        HistoryStepView::Show(history.listing(-1, redirect))
    } else if args.len() == 1 {
        HistoryStepView::Show(history.listing(parsed_i32(args[0])->0 as int, redirect))
    } else if args[0] == seq!['-', 'r'] {
        HistoryStepView::ReadFile(args[1])
    } else if args[0] == seq!['-', 'w'] {
        HistoryStepView::WriteFile(
            FileTargetView { path: args[1], append: false },
            file_text(history.entries, 0),
        )
    } else if args[0] == seq!['-', 'a'] {
        HistoryStepView::WriteFile(
            FileTargetView { path: args[1], append: true },
            file_text(history.entries, history.last_synced),
        )
    } else {
        HistoryStepView::Nothing
    }
}

/// The history after the `history` command: `-a` leaves nothing to be appended.
pub open spec fn history_after(history: HistoryView, args: Seq<Seq<char>>) -> HistoryView {
    if args.len() == 2 && args[0] == seq!['-', 'a'] {
        HistoryView { last_synced: history.entries.len() as int, ..history }
    } else {
        history
    }
}

/// Decides what the `history` command does with its arguments. A single argument has to be
/// a number.
pub fn handle_history(history: &mut History, args: &[String], redirect: &Redirect) -> (r:
    HistoryStep)
    requires
        old(history).deep_view().valid(),
        args.deep_view().len() == 1 ==> parsed_i32(args.deep_view()[0]) is Some,
    ensures
        r.deep_view() == history_step(
            old(history).deep_view(),
            args.deep_view(),
            redirect.deep_view(),
        ),
        final(history).deep_view() == history_after(old(history).deep_view(), args.deep_view()),
        final(history).deep_view().valid(),
{
    let ghost all = args.deep_view();
    proof {
        reveal_strlit("-r");
        reveal_strlit("-w");
        reveal_strlit("-a");
        assert("-r"@ == seq!['-', 'r']);
        assert("-w"@ == seq!['-', 'w']);
        assert("-a"@ == seq!['-', 'a']);
    }
    if args.len() > 2 {
        let mut messages: Vec<Message> = Vec::new();
        messages.push(write_error("arg num not invalid", redirect));
        assert(messages.deep_view() == seq![
            error_line("arg num not invalid"@, redirect.deep_view()),
        ]);
        return HistoryStep::Show(messages);
    }
    if args.len() == 0 {
        return HistoryStep::Show(list_history(history, -1, redirect));
    }
    assert(all[0] == args@[0]@);
    if args.len() == 1 {
        return match parse_i32(args[0].as_str()) {
            Some(n) => HistoryStep::Show(list_history(history, n, redirect)),
            None => HistoryStep::Nothing,
        };
    }
    assert(all[1] == args@[1]@);
    let option = args[0].as_str();
    let path = args[1].clone();
    if same_text(option, "-r") {
        HistoryStep::ReadFile(path)
    } else if same_text(option, "-w") {
        let text = history.text_from(0);
        HistoryStep::WriteFile(FileTarget { path, append: false }, text)
    } else if same_text(option, "-a") {
        let text = history.text_from(history.last_synced);
        let ghost before = history.deep_view();
        history.last_synced = history.entries.len();
        assert(history.deep_view().entries == before.entries);
        HistoryStep::WriteFile(FileTarget { path, append: true }, text)
    } else {
        HistoryStep::Nothing
    }
}

/// Whether a line can be kept as a line of a file: it holds no newline, and no carriage return
/// stands at its end.
pub open spec fn fits_a_line(entry: Seq<char>) -> bool {
    !entry.contains('\n') && !ends_with_char(entry, '\r')
}

proof fn lemma_line_end_at(s: Seq<char>, i: int, end: int)
    requires
        0 <= i <= end < s.len(),
        s[end] == '\n',
        forall|j: int| i <= j < end ==> s[j] != '\n',
    ensures
        line_end(s, i) == end,
    decreases end - i,
{
    if i < end {
        lemma_line_end_at(s, i + 1, end);
    }
}

proof fn lemma_lines_of_file(before: Seq<char>, entries: Seq<Seq<char>>, k: int)
    requires
        0 <= k <= entries.len(),
        forall|i: int| 0 <= i < entries.len() ==> fits_a_line(#[trigger] entries[i]),
    ensures
        lines_from(before + file_text(entries, k), before.len() as int) == entries.skip(k),
    decreases entries.len() - k,
{
    let s = before + file_text(entries, k);
    let at = before.len() as int;
    if k == entries.len() {
        assert(s == before);
        assert(entries.skip(k) == Seq::<Seq<char>>::empty());
    } else {
        let entry = entries[k];
        let next = before + entry.push('\n');
        lemma_lines_of_file(next, entries, k + 1);
        assert(s == next + file_text(entries, k + 1));
        let end = at + entry.len();
        assert(s[end] == '\n');
        assert forall|j: int| at <= j < end implies s[j] != '\n' by {
            assert(s[j] == entry[j - at]);
        }
        lemma_line_end_at(s, at, end);
        assert(s.subrange(at, end) == entry);
        assert(without_return(entry) == entry);
        assert(lines_from(s, at) == seq![entry] + lines_from(s, end + 1));
        assert(entries.skip(k) == seq![entry] + entries.skip(k + 1));
    }
}

/// Reading a file that was written gives back the entries, where each of them fits a line.
pub proof fn law_write_then_read(entries: Seq<Seq<char>>)
    requires
        forall|i: int| 0 <= i < entries.len() ==> fits_a_line(#[trigger] entries[i]),
    ensures
        lines(file_text(entries, 0)) == entries,
{
    lemma_lines_of_file(Seq::<char>::empty(), entries, 0);
    assert(Seq::<char>::empty() + file_text(entries, 0) == file_text(entries, 0));
    assert(entries.skip(0) == entries);
}

proof fn lemma_file_text_of_longer(entries: Seq<Seq<char>>, more: Seq<Seq<char>>, k: int)
    requires
        0 <= k <= entries.len(),
    ensures
        file_text(entries + more, k) == file_text(entries, k) + file_text(
            entries + more,
            entries.len() as int,
        ),
    decreases entries.len() - k,
{
    let all = entries + more;
    if k == entries.len() {
        assert(file_text(entries, k) + file_text(all, k) == file_text(all, k));
    } else {
        lemma_file_text_of_longer(entries, more, k + 1);
        assert(all[k] == entries[k]);
        assert(entries[k].push('\n') + (file_text(entries, k + 1) + file_text(
            all,
            entries.len() as int,
        )) == (entries[k].push('\n') + file_text(entries, k + 1)) + file_text(
            all,
            entries.len() as int,
        ));
    }
}

/// Appending, entering more lines and appending again leaves in the file what one append of all
/// of them would have left: no entry is missing and none is there twice.
pub proof fn law_appends_add_up(
    history: HistoryView,
    more: Seq<Seq<char>>,
    path: Seq<char>,
    redirect: RedirectView,
)
    requires
        history.valid(),
    ensures
        ({
            let args = seq![seq!['-', 'a'], path];
            let first = history_step(history, args, redirect);
            let second = history_step(
                history_after(history, args).with_lines(more),
                args,
                redirect,
            );
            let once = history_step(history.with_lines(more), args, redirect);
            &&& first is WriteFile
            &&& second is WriteFile
            &&& once is WriteFile
            &&& first->WriteFile_1 + second->WriteFile_1 == once->WriteFile_1
            &&& first->WriteFile_0 == once->WriteFile_0
            &&& second->WriteFile_0 == once->WriteFile_0
        }),
{
    lemma_file_text_of_longer(history.entries, more, history.last_synced);
}

/// Appending twice in a row appends nothing the second time.
pub proof fn law_second_append_is_empty(
    history: HistoryView,
    path: Seq<char>,
    redirect: RedirectView,
)
    ensures
        ({
            let args = seq![seq!['-', 'a'], path];
            history_step(history_after(history, args), args, redirect) == HistoryStepView::WriteFile(
                FileTargetView { path, append: true },
                seq![],
            )
        }),
{
}

/// What is shown of the last entries is the end of what is shown of all.
pub proof fn law_recent_is_the_end(history: HistoryView, recent: int, redirect: RedirectView)
    requires
        recent >= 0,
    ensures
        history.listing(recent, redirect) == history.listing(-1, redirect).skip(
            history.first_recent(recent),
        ),
        history.listing(recent, redirect).len() == (if recent < history.entries.len() {
            recent
        } else {
            history.entries.len() as int
        }),
{
    assert(history.listing(recent, redirect) =~= history.listing(-1, redirect).skip(
        history.first_recent(recent),
    ));
}

/// Every line that is entered or read is kept, behind those that were there, and what was already
/// appended to a file stays so.
pub proof fn law_lines_are_kept_in_order(history: HistoryView, more: Seq<Seq<char>>)
    ensures
        history.with_lines(more).entries == history.entries + more,
        history.with_lines(more).last_synced == history.last_synced,
{
}

/// Without arguments all entries are shown, from the first to the last: each with its number from
/// one on, set to a width of four, two spaces, and the line as it was entered.
pub proof fn law_history_shows_every_entry(history: HistoryView, redirect: RedirectView, k: int)
    requires
        0 <= k < history.entries.len(),
    ensures
        history_step(history, seq![], redirect) matches HistoryStepView::Show(messages) && {
            &&& messages.len() == history.entries.len()
            &&& messages[k].stream == Stream::Stdout
            &&& messages[k].channel == redirect.stdio().stdout
            &&& messages[k].text == padded_before(decimal((k + 1) as nat), 4) + seq![' ', ' ']
                + history.entries[k] + seq!['\n']
        },
{
    let line = history.line(k);
    assert(line.push('\n') == line + seq!['\n']);
}

/// With a number that many of the last entries are shown, or all where there are fewer, as they are
/// shown without it.
pub proof fn law_history_shows_the_last(history: HistoryView, n: nat, redirect: RedirectView)
    requires
        n <= i32::MAX,
    ensures
        history_step(history, seq![], redirect) matches HistoryStepView::Show(all) && history_step(
            history,
            seq![decimal(n)],
            redirect,
        ) matches HistoryStepView::Show(messages) && {
            &&& messages.len() == (if n < history.entries.len() {
                n
            } else {
                history.entries.len()
            })
            &&& messages == all.skip(all.len() - messages.len())
        },
{
    law_numbers_read_back(n);
    let args = seq![decimal(n)];
    assert(args[0] == decimal(n));
    law_recent_is_the_end(history, n as int, redirect);
}

/// With `-w` a file is made anew that holds every entry, and with `-a` those are added to it that
/// were entered since the last time: reading what is written gives them back, where each fits a
/// line. With `-r` the file is read. The entries themselves stay, and only `-a` takes note of what
/// was appended.
pub proof fn law_history_files(
    history: HistoryView,
    path: Seq<char>,
    redirect: RedirectView,
)
    requires
        history.valid(),
        forall|i: int|
            0 <= i < history.entries.len() ==> fits_a_line(#[trigger] history.entries[i]),
    ensures
        history_step(history, seq![seq!['-', 'r'], path], redirect) == HistoryStepView::ReadFile(path),
        history_step(
            history,
            seq![seq!['-', 'w'], path],
            redirect,
        ) matches HistoryStepView::WriteFile(target, text) && {
            &&& target.path == path
            &&& !target.append
            &&& lines(text) == history.entries
        },
        history_step(
            history,
            seq![seq!['-', 'a'], path],
            redirect,
        ) matches HistoryStepView::WriteFile(target, text) && {
            &&& target.path == path
            &&& target.append
            &&& lines(text) == history.entries.skip(history.last_synced)
        },
        history_after(history, seq![seq!['-', 'a'], path]).entries == history.entries,
        history_after(history, seq![seq!['-', 'a'], path]).last_synced == history.entries.len(),
        history_after(history, seq![seq!['-', 'w'], path]) == history,
        history_after(history, seq![seq!['-', 'r'], path]) == history,
{
    let r = seq!['-', 'r'];
    let w = seq!['-', 'w'];
    let a = seq!['-', 'a'];
    assert(r[1] == 'r' && w[1] == 'w' && a[1] == 'a');
    assert(seq![r, path][0] == r && seq![r, path][1] == path);
    assert(seq![w, path][0] == w && seq![w, path][1] == path);
    assert(seq![a, path][0] == a && seq![a, path][1] == path);
    law_write_then_read(history.entries);
    let empty = Seq::<char>::empty();
    lemma_lines_of_file(empty, history.entries, history.last_synced);
    let text = file_text(history.entries, history.last_synced);
    assert(empty + text == text);
}

/// With more than two arguments nothing is done but to tell that they are too many, and with an
/// option that is not known nothing is done at all; the history stays as it is.
pub proof fn law_other_arguments_change_nothing(
    history: HistoryView,
    args: Seq<Seq<char>>,
    redirect: RedirectView,
)
    ensures
        args.len() > 2 ==> {
            &&& history_after(history, args) == history
            &&& history_step(history, args, redirect) matches HistoryStepView::Show(messages) && {
                &&& messages.len() == 1
                &&& messages[0].stream == Stream::Stderr
                &&& messages[0].text == "arg num not invalid"@ + seq!['\n']
            }
        },
        args.len() < 2 ==> history_after(history, args) == history,
        args.len() == 2 && args[0] != seq!['-', 'r'] && args[0] != seq!['-', 'w'] && args[0]
            != seq!['-', 'a'] ==> {
            &&& history_after(history, args) == history
            &&& history_step(history, args, redirect) is Nothing
        },
{
    let text = "arg num not invalid"@;
    assert(text.push('\n') == text + seq!['\n']);
}

/// With a negative number all entries are shown.
pub proof fn law_negative_number_shows_all(history: HistoryView, n: nat, redirect: RedirectView)
    requires
        0 < n <= i32::MAX,
    ensures
        history_step(history, seq![seq!['-'] + decimal(n)], redirect) == history_step(
            history,
            seq![],
            redirect,
        ),
{
    law_numbers_read_back(n);
    let args = seq![seq!['-'] + decimal(n)];
    assert(args[0] == seq!['-'] + decimal(n));
    assert(history.listing(-(n as int), redirect) =~= history.listing(-1, redirect));
}

} // verus!
