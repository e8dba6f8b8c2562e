//! Completing the word before the cursor.

use vstd::prelude::*;
use vstd::string::*;
use vstd::utf8::*;

use crate::builtins::{builtin, builtin_names, builtins_with_prefix};
use crate::completions::Completions;
use crate::number::{decimal, decimal_text};
use crate::order::{in_order, sort_texts, sort_texts_once, strictly_in_order};
use crate::paths::{
    completion_dir, completion_place, find_prefix_executables_in_path, find_prefix_file_in_cwd,
    law_every_program_is_found, law_names_extend_prefix, law_only_programs_are_found,
    matching_programs, names_program, typed_completions, DirEntry, DirEntryView,
};
use crate::text::{
    blank_pieces, blank_words, ends_with_char, has_last_char, keep_starting_with,
    law_other_characters_are_words, lemma_starting_with, lemma_starting_with_contains, lines, non_empty, split_lines, split_words,
    starting_with, white_space,
};

verus! {

/// What stands before the cursor: the words there, the one that is being typed, which of the words
/// that is, and where in the line it starts.
#[derive(Debug)]
pub struct Context {
    pub before: String,
    pub parts: Vec<String>,
    pub current: String,
    pub arg_index: usize,
    pub start: usize,
}

/// What a [`Context`] holds.
#[verifier::ext_equal]
pub struct ContextView {
    pub before: Seq<char>,
    pub parts: Seq<Seq<char>>,
    pub current: Seq<char>,
    pub arg_index: int,
    pub start: int,
}

impl DeepView for Context {
    type V = ContextView;

    open spec fn deep_view(&self) -> ContextView {
        ContextView {
            before: self.before@,
            parts: self.parts.deep_view(),
            current: self.current@,
            arg_index: self.arg_index as int,
            start: self.start as int,
        }
    }
}

/// The text before byte `pos` of a line.
pub open spec fn text_before(line: Seq<char>, pos: int) -> Seq<char> {
    decode_utf8(encode_utf8(line).subrange(0, pos))
}

/// What the text before the cursor says: after a space or a tab a new word starts, else the last
/// word goes on. The word starts as many bytes before the cursor as it is long.
pub open spec fn context_at(before: Seq<char>, pos: int) -> ContextView {
    let parts = blank_words(before);
    let new_word = ends_with_char(before, ' ') || ends_with_char(before, '\t');
    let current = if new_word || parts.len() == 0 {
        seq![]
    } else {
        parts.last()
    };
    ContextView {
        before,
        parts,
        current,
        arg_index: if new_word || parts.len() == 0 {
            parts.len() as int
        } else {
            parts.len() - 1
        },
        start: pos - encode_utf8(current).len(),
    }
}

impl ContextView {
    /// Whether there is a word before the one that is being typed, where that is not the first.
    pub open spec fn consistent(self) -> bool {
        0 <= self.arg_index <= self.parts.len()
    }
}

proof fn lemma_encode_concat(a: Seq<char>, b: Seq<char>)
    ensures
        encode_utf8(a + b) == encode_utf8(a) + encode_utf8(b),
    decreases a.len(),
{
    if a.len() == 0 {
        assert(a + b == b);
        assert(encode_utf8(a) + encode_utf8(b) == encode_utf8(b));
    } else {
        lemma_encode_concat(a.drop_first(), b);
        assert((a + b).drop_first() == a.drop_first() + b);
        assert(encode_utf8(a + b) == encode_utf8(a) + encode_utf8(b));
    }
}

proof fn lemma_encode_part(s: Seq<char>, from: int, to: int)
    requires
        0 <= from <= to <= s.len(),
    ensures
        encode_utf8(s.subrange(from, to)).len() <= encode_utf8(s).len(),
{
    lemma_encode_concat(s.take(from), s.subrange(from, to));
    lemma_encode_concat(s.take(to), s.skip(to));
    assert(s.take(from) + s.subrange(from, to) == s.take(to));
    assert(s.take(to) + s.skip(to) == s);
}

spec fn is_part(s: Seq<char>, from: int, to: int, piece: Seq<char>) -> bool {
    0 <= from <= to <= s.len() && piece == s.subrange(from, to)
}

spec fn is_some_part(s: Seq<char>, piece: Seq<char>) -> bool {
    exists|from: int, to: int| is_part(s, from, to, piece)
}

proof fn lemma_pieces_are_parts(s: Seq<char>, n: int)
    requires
        0 <= n <= s.len(),
    ensures
        blank_pieces(s, n).len() > 0,
        exists|from: int| is_part(s, from, n, blank_pieces(s, n).last()),
        forall|i: int|
            0 <= i < blank_pieces(s, n).len() ==> is_some_part(s, #[trigger] blank_pieces(s, n)[i]),
    decreases n,
{
    let pieces = blank_pieces(s, n);
    if n == 0 {
        assert(s.subrange(0, 0) == Seq::<char>::empty());
        assert(is_part(s, 0, 0, pieces.last()));
        assert forall|i: int| 0 <= i < pieces.len() implies is_some_part(s, #[trigger] pieces[i]) by {
            assert(is_part(s, 0, 0, pieces[i]));
        }
    } else {
        lemma_pieces_are_parts(s, n - 1);
        let before = blank_pieces(s, n - 1);
        if white_space(s[n - 1]) {
            assert(s.subrange(n, n) == Seq::<char>::empty());
            assert(is_part(s, n, n, pieces.last()));
        } else {
            let end = n - 1;
            let from = choose|from: int| is_part(s, from, end, before.last());
            assert(s.subrange(from, n) == s.subrange(from, n - 1).push(s[n - 1]));
            assert(is_part(s, from, n, pieces.last()));
        }
        assert forall|i: int| 0 <= i < pieces.len() implies is_some_part(s, #[trigger] pieces[i]) by {
            if i < pieces.len() - 1 {
                assert(pieces[i] == before[i]);
            } else {
                let from = choose|from: int| is_part(s, from, n, pieces.last());
                assert(is_part(s, from, n, pieces[i]));
            }
        }
    }
}

proof fn lemma_non_empty_from(pieces: Seq<Seq<char>>)
    ensures
        forall|i: int|
            0 <= i < non_empty(pieces).len() ==> pieces.contains(#[trigger] non_empty(pieces)[i]),
    decreases pieces.len(),
{
    if pieces.len() > 0 {
        let front = pieces.drop_last();
        lemma_non_empty_from(front);
        assert forall|i: int| 0 <= i < non_empty(pieces).len() implies pieces.contains(
            #[trigger] non_empty(pieces)[i],
        ) by {
            if i < non_empty(front).len() {
                assert(non_empty(pieces)[i] == non_empty(front)[i]);
                let k = choose|k: int| 0 <= k < front.len() && front[k] == non_empty(front)[i];
                assert(pieces[k] == non_empty(pieces)[i]);
            } else {
                assert(pieces[pieces.len() - 1] == non_empty(pieces)[i]);
            }
        }
    }
}

proof fn lemma_word_fits(s: Seq<char>, i: int)
    requires
        0 <= i < blank_words(s).len(),
    ensures
        encode_utf8(blank_words(s)[i]).len() <= encode_utf8(s).len(),
{
    let pieces = blank_pieces(s, s.len() as int);
    lemma_pieces_are_parts(s, s.len() as int);
    lemma_non_empty_from(pieces);
    let word = blank_words(s)[i];
    assert(pieces.contains(non_empty(pieces)[i]));
    let k = choose|k: int| 0 <= k < pieces.len() && pieces[k] == word;
    assert(is_some_part(s, pieces[k]));
    let (from, to) = choose|from: int, to: int| is_part(s, from, to, pieces[k]);
    lemma_encode_part(s, from, to);
}

/// What stands before byte `pos` of the line, where the cursor is.
pub fn context_of(line: &str, pos: usize) -> (r: Context)
    requires
        is_char_boundary(line.spec_bytes(), pos as int),
    ensures
        r.deep_view() == context_at(text_before(line@, pos as int), pos as int),
        r.deep_view().consistent(),
        r.start <= pos,
{
    let before = line.split_at(pos).0;
    proof {
        encode_utf8_valid_utf8(line@);
        assert(pos <= line.spec_bytes().len());
        encode_utf8_decode_utf8(before@);
    }
    let parts = split_words(before);
    let new_word = has_last_char(before, ' ') || has_last_char(before, '\t');
    let n: usize = parts.len();
    let (current, arg_index): (String, usize) = if new_word || n == 0 {
        (String::new(), n)
    } else {
        assert(parts.deep_view()[n - 1] == parts@[n - 1]@);
        (parts[n - 1].clone(), n - 1)
    };
    let size: usize = current.as_str().as_bytes().len();
    proof {
        if new_word || n == 0 {
            assert(current@ == Seq::<char>::empty());
            assert(encode_utf8(current@).len() == 0);
        } else {
            lemma_word_fits(before@, n - 1);
        }
        assert(before.spec_bytes().len() == pos);
    }
    let start: usize = pos - size;
    Context { before: before.to_owned(), parts, current, arg_index, start }
}

/// A program that completes the arguments of a command, with the arguments and the environment
/// that it is run with.
#[derive(Debug)]
pub struct ScriptCall {
    pub program: String,
    pub command: String,
    pub current: String,
    pub previous: String,
    /// The environment variable `COMP_LINE`.
    pub comp_line: String,
    /// The environment variable `COMP_POINT`.
    pub comp_point: String,
}

/// What a [`ScriptCall`] holds.
#[verifier::ext_equal]
pub struct ScriptCallView {
    pub program: Seq<char>,
    pub command: Seq<char>,
    pub current: Seq<char>,
    pub previous: Seq<char>,
    pub comp_line: Seq<char>,
    pub comp_point: Seq<char>,
}

impl DeepView for ScriptCall {
    type V = ScriptCallView;

    open spec fn deep_view(&self) -> ScriptCallView {
        ScriptCallView {
            program: self.program@,
            command: self.command@,
            current: self.current@,
            previous: self.previous@,
            comp_line: self.comp_line@,
            comp_point: self.comp_point@,
        }
    }
}

/// The script that completes the word: there is one where an argument is being typed and its
/// command has a script. It gets the command, the word, the word before it, the text before the
/// cursor, and the length of that text in bytes.
pub open spec fn script_for(
    context: ContextView,
    scripts: Map<Seq<char>, Seq<char>>,
) -> Option<ScriptCallView> {
    if context.arg_index > 0 && scripts.contains_key(context.parts[0]) {
        Some(
            ScriptCallView {
                program: scripts[context.parts[0]],
                command: context.parts[0],
                current: context.current,
                previous: context.parts[context.arg_index - 1],
                comp_line: context.before,
                comp_point: decimal(encode_utf8(context.before).len()),
            },
        )
    } else {
        None
    }
}

/// The script that completes the word, if there is one.
pub fn script_call(context: &Context, completions: &Completions) -> (r: Option<ScriptCall>)
    requires
        context.deep_view().consistent(),
    ensures
        r.deep_view() == script_for(context.deep_view(), completions.deep_view()),
{
    if context.arg_index == 0 {
        return None;
    }
    let command = context.parts[0].as_str();
    assert(context.parts.deep_view()[0] == command@);
    match completions.get(command) {
        None => None,
        Some(program) => {
            let previous = context.parts[context.arg_index - 1].clone();
            assert(context.parts.deep_view()[context.arg_index - 1] == previous@);
            let size: usize = context.before.as_str().as_bytes().len();
            Some(
                ScriptCall {
                    program,
                    command: command.to_owned(),
                    current: context.current.clone(),
                    previous,
                    comp_line: context.before.clone(),
                    comp_point: decimal_text(size),
                },
            )
        },
    }
}

/// What `String::from_utf8_lossy` gives for a sequence of bytes.
pub uninterp spec fn lossy_text(bytes: Seq<u8>) -> Seq<char>;

/// `String::from_utf8_lossy`: the text that the bytes stand for; bytes that are not valid UTF-8 are
/// replaced.
#[verifier::external_body]
fn text_from_bytes(bytes: &Vec<u8>) -> (r: String)
    ensures
        r@ == lossy_text(bytes@),
        valid_utf8(bytes@) ==> r@ == decode_utf8(bytes@),
{
    String::from_utf8_lossy(bytes).into_owned()
}

/// What a script offers: the lines that it wrote. A script that could not be run offers nothing.
pub open spec fn offered_lines(output: Option<Seq<u8>>) -> Seq<Seq<char>> {
    match output {
        Some(bytes) => lines(lossy_text(bytes)),
        None => seq![],
    }
}

/// What a script offers: the lines that it wrote.
pub fn run_completion_script(output: &Option<Vec<u8>>) -> (r: Vec<String>)
    ensures
        r.deep_view() == offered_lines(output.deep_view()),
        output is Some && valid_utf8(output->0@) ==> r.deep_view() == lines(
            decode_utf8(output->0@),
        ),
{
    match output {
        Some(bytes) => {
            assert(bytes.deep_view() == bytes@);
            let text = text_from_bytes(bytes);
            split_lines(text.as_str())
        },
        None => {
            let r: Vec<String> = Vec::new();
            assert(r.deep_view() == Seq::<Seq<char>>::empty());
            r
        },
    }
}

/// A completion: how it is shown, and what takes the place of the word.
#[derive(Debug)]
pub struct Pair {
    pub display: String,
    pub replacement: String,
}

/// What a [`Pair`] holds.
#[verifier::ext_equal]
pub struct PairView {
    pub display: Seq<char>,
    pub replacement: Seq<char>,
}

impl DeepView for Pair {
    type V = PairView;

    open spec fn deep_view(&self) -> PairView {
        PairView { display: self.display@, replacement: self.replacement@ }
    }
}

/// A completion that is taken as it is shown.
pub open spec fn as_shown(text: Seq<char>) -> PairView {
    PairView { display: text, replacement: text }
}

/// A completion that ends the word: a space follows it.
pub open spec fn with_space(text: Seq<char>) -> PairView {
    PairView { display: text, replacement: text.push(' ') }
}

/// A completion by a path: a space follows it, unless it is a directory, in which one may go on.
pub open spec fn path_pair(text: Seq<char>) -> PairView {
    if ends_with_char(text, '/') {
        as_shown(text)
    } else {
        with_space(text)
    }
}

/// The completions from what a script offers: those that start with the word; a space follows if
/// there is only one. `None` where there is none.
pub open spec fn script_pairs(current: Seq<char>, offered: Seq<Seq<char>>) -> Option<
    Seq<PairView>,
> {
    let matches = starting_with(offered, current);
    if matches.len() == 0 {
        None
    } else if matches.len() == 1 {
        Some(seq![with_space(matches[0])])
    } else {
        Some(Seq::new(matches.len(), |i: int| as_shown(matches[i])))
    }
}

fn spaced_pair(text: &String) -> (r: Pair)
    ensures
        r.deep_view() == with_space(text@),
{
    let mut replacement = text.clone();
    replacement.push(' ');
    Pair { display: text.clone(), replacement }
}

/// The completions from what a script offers.
pub fn pairs_from_script(current: &str, offered: &Vec<String>) -> (r: Option<Vec<Pair>>)
    ensures
        r.deep_view() == script_pairs(current@, offered.deep_view()),
{
    let matches = keep_starting_with(offered, current);
    let ghost found = matches.deep_view();
    if matches.len() == 0 {
        return None;
    }
    let mut r: Vec<Pair> = Vec::new();
    if matches.len() == 1 {
        let pair = spaced_pair(&matches[0]);
        r.push(pair);
        proof {
            assert(found[0] == matches@[0]@);
            assert(r.deep_view() == seq![with_space(found[0])]);
        }
        return Some(r);
    }
    let ghost all = Seq::new(found.len(), |i: int| as_shown(found[i]));
    let mut i: usize = 0;
    while i < matches.len()
        invariant
            i <= matches.len(),
            found == matches.deep_view(),
            all == Seq::new(found.len(), |i: int| as_shown(found[i])),
            r.deep_view() == all.take(i as int),
        decreases matches.len() - i,
    {
        let ghost done = r.deep_view();
        r.push(Pair { display: matches[i].clone(), replacement: matches[i].clone() });
        proof {
            assert(found[i as int] == matches@[i as int]@);
            assert(r.deep_view() == done.push(as_shown(found[i as int])));
            assert(all.take(i + 1) == done.push(as_shown(found[i as int])));
        }
        i += 1;
    }
    assert(all.take(i as int) == all);
    Some(r)
}

/// How completions are shown.
pub open spec fn displays(pairs: Seq<PairView>) -> Seq<Seq<char>> {
    Seq::new(pairs.len(), |i: int| pairs[i].display)
}

/// The commands that start with what was typed: builtin ones, and the programs of the listed
/// directories.
pub open spec fn matching_commands(
    current: Seq<char>,
    listings: Seq<Seq<DirEntryView>>,
) -> Set<Seq<char>> {
    Set::new(
        |name: Seq<char>|
            (builtin(name) && current.is_prefix_of(name)) || matching_programs(
                current,
                listings,
            ).contains(name),
    )
}

/// The completions of a command name, where `listings` holds the entries of each directory of the
/// search path: every command that matches, once, in order, and each followed by a space.
pub fn command_pairs(current: &str, listings: &Vec<Vec<DirEntry>>) -> (r: Vec<Pair>)
    ensures
        strictly_in_order(displays(r.deep_view())),
        displays(r.deep_view()).to_set() == matching_commands(current@, listings.deep_view()),
        forall|i: int|
            0 <= i < r.len() ==> #[trigger] r.deep_view()[i] == with_space(
                r.deep_view()[i].display,
            ),
{
    let mut names = builtins_with_prefix(current);
    let ghost own = names.deep_view();
    let mut programs = find_prefix_executables_in_path(current, listings);
    let ghost found = programs.deep_view();
    names.append(&mut programs);
    assert(names.deep_view() == own + found);
    let ghost given = names.deep_view();
    let sorted = sort_texts_once(names);
    let ghost all = sorted.deep_view();
    let mut r: Vec<Pair> = Vec::new();
    let mut i: usize = 0;
    while i < sorted.len()
        invariant
            i <= sorted.len(),
            all == sorted.deep_view(),
            r.len() == i,
            displays(r.deep_view()) == all.take(i as int),
            forall|k: int|
                0 <= k < r.len() ==> #[trigger] r.deep_view()[k] == with_space(
                    r.deep_view()[k].display,
                ),
        decreases sorted.len() - i,
    {
        let ghost done = r.deep_view();
        r.push(spaced_pair(&sorted[i]));
        proof {
            assert(all[i as int] == sorted@[i as int]@);
            assert(r.deep_view() == done.push(with_space(all[i as int])));
            assert(displays(r.deep_view()) == all.take(i + 1));
        }
        i += 1;
    }
    proof {
        assert(all.take(i as int) == all);
        let wanted = matching_commands(current@, listings.deep_view());
        assert forall|name: Seq<char>| #[trigger]
            all.to_set().contains(name) <==> wanted.contains(name) by {
            assert(given.to_set().contains(name) <==> given.contains(name));
            lemma_contains_concat(own, found, name);
            lemma_starting_with_contains(builtin_names(), current@, name);
        }
        assert(all.to_set() =~= wanted);
    }
    r
}

proof fn lemma_contains_concat(a: Seq<Seq<char>>, b: Seq<Seq<char>>, x: Seq<char>)
    ensures
        (a + b).contains(x) <==> a.contains(x) || b.contains(x),
{
    if a.contains(x) {
        let k = choose|k: int| 0 <= k < a.len() && a[k] == x;
        assert((a + b)[k] == x);
    }
    if b.contains(x) {
        let k = choose|k: int| 0 <= k < b.len() && b[k] == x;
        assert((a + b)[a.len() + k] == x);
    }
    if (a + b).contains(x) {
        let k = choose|k: int| 0 <= k < (a + b).len() && (a + b)[k] == x;
        if k < a.len() {
            assert(a[k] == x);
        } else {
            assert(b[k - a.len()] == x);
        }
    }
}

/// The completions by the given paths: all of them, in order.
pub fn file_pairs(files: Vec<String>) -> (r: Vec<Pair>)
    ensures
        in_order(displays(r.deep_view())),
        displays(r.deep_view()).to_multiset() == files.deep_view().to_multiset(),
        forall|i: int|
            0 <= i < r.len() ==> #[trigger] r.deep_view()[i] == path_pair(r.deep_view()[i].display),
{
    let sorted = sort_texts(files);
    let ghost all = sorted.deep_view();
    let mut r: Vec<Pair> = Vec::new();
    let mut i: usize = 0;
    while i < sorted.len()
        invariant
            i <= sorted.len(),
            all == sorted.deep_view(),
            r.len() == i,
            displays(r.deep_view()) == all.take(i as int),
            forall|k: int|
                0 <= k < r.len() ==> #[trigger] r.deep_view()[k] == path_pair(
                    r.deep_view()[k].display,
                ),
        decreases sorted.len() - i,
    {
        let ghost done = r.deep_view();
        let pair = if has_last_char(sorted[i].as_str(), '/') {
            Pair { display: sorted[i].clone(), replacement: sorted[i].clone() }
        } else {
            spaced_pair(&sorted[i])
        };
        r.push(pair);
        proof {
            assert(all[i as int] == sorted@[i as int]@);
            assert(r.deep_view() == done.push(path_pair(all[i as int])));
            assert(displays(r.deep_view()) == all.take(i + 1));
        }
        i += 1;
    }
    assert(all.take(i as int) == all);
    r
}

/// The completions of a path, where `entries` are those of the directory that
/// [`completion_dir`] gives for it.
pub fn directory_pairs(current: &str, entries: &Vec<DirEntry>) -> (r: Vec<Pair>)
    ensures
        in_order(displays(r.deep_view())),
        displays(r.deep_view()).to_multiset() == typed_completions(
            current@,
            entries.deep_view(),
        ).to_multiset(),
        forall|i: int|
            0 <= i < r.len() ==> #[trigger] r.deep_view()[i] == path_pair(r.deep_view()[i].display),
{
    file_pairs(find_prefix_file_in_cwd(current, entries))
}

/// What is to be done next for a completion.
#[derive(Debug)]
pub enum CompletionStep {
    /// Offer these.
    Offer(Vec<Pair>),
    /// Run the script and hand its output to [`after_script`].
    RunScript(ScriptCall),
    /// List the directories of the search path and hand the entries to [`command_pairs`].
    ListPrograms,
    /// List the directory and hand its entries to [`directory_pairs`].
    ListDirectory(String),
}

/// What a [`CompletionStep`] holds.
pub enum CompletionStepView {
    Offer(Seq<PairView>),
    RunScript(ScriptCallView),
    ListPrograms,
    ListDirectory(Seq<char>),
}

impl DeepView for CompletionStep {
    type V = CompletionStepView;

    open spec fn deep_view(&self) -> CompletionStepView {
        match self {
            CompletionStep::Offer(pairs) => CompletionStepView::Offer(pairs.deep_view()),
            CompletionStep::RunScript(call) => CompletionStepView::RunScript(call.deep_view()),
            CompletionStep::ListPrograms => CompletionStepView::ListPrograms,
            CompletionStep::ListDirectory(dir) => CompletionStepView::ListDirectory(dir@),
        }
    }
}

/// Without a script, the first word is completed by commands and the others by paths.
pub open spec fn usual_step(context: ContextView) -> CompletionStepView {
    if context.arg_index == 0 {
        CompletionStepView::ListPrograms
    } else {
        CompletionStepView::ListDirectory(completion_place(context.current).0)
    }
}

/// A registered script is asked first.
pub open spec fn first_step(
    context: ContextView,
    scripts: Map<Seq<char>, Seq<char>>,
) -> CompletionStepView {
    match script_for(context, scripts) {
        Some(call) => CompletionStepView::RunScript(call),
        None => usual_step(context),
    }
}

/// A script that offers nothing that starts with the word leaves it to the usual completion.
pub open spec fn step_after_script(context: ContextView, offered: Seq<Seq<char>>) -> CompletionStepView {
    match script_pairs(context.current, offered) {
        Some(pairs) => CompletionStepView::Offer(pairs),
        None => usual_step(context),
    }
}

fn usual(context: &Context) -> (r: CompletionStep)
    ensures
        r.deep_view() == usual_step(context.deep_view()),
{
    if context.arg_index == 0 {
        CompletionStep::ListPrograms
    } else {
        CompletionStep::ListDirectory(completion_dir(context.current.as_str()))
    }
}

/// Starts the completion of the word before byte `pos` of the line.
pub fn complete(line: &str, pos: usize, completions: &Completions) -> (r: (Context, CompletionStep))
    requires
        is_char_boundary(line.spec_bytes(), pos as int),
    ensures
        r.0.deep_view() == context_at(text_before(line@, pos as int), pos as int),
        r.0.start <= pos,
        r.1.deep_view() == first_step(r.0.deep_view(), completions.deep_view()),
{
    let context = context_of(line, pos);
    let step = match script_call(&context, completions) {
        Some(call) => CompletionStep::RunScript(call),
        None => usual(&context),
    };
    (context, step)
}

/// Goes on with what the script wrote; `None` where it could not be run.
pub fn after_script(context: &Context, output: &Option<Vec<u8>>) -> (r: CompletionStep)
    ensures
        r.deep_view() == step_after_script(context.deep_view(), offered_lines(output.deep_view())),
        output is Some && valid_utf8(output->0@) ==> r.deep_view() == step_after_script(
            context.deep_view(),
            lines(decode_utf8(output->0@)),
        ),
{
    let offered = run_completion_script(output);
    match pairs_from_script(context.current.as_str(), &offered) {
        Some(pairs) => CompletionStep::Offer(pairs),
        None => usual(context),
    }
}

/// What is offered from a script starts with the word that is being typed.
pub proof fn law_script_pairs_extend_word(current: Seq<char>, offered: Seq<Seq<char>>, i: int)
    requires
        script_pairs(current, offered) is Some,
        0 <= i < script_pairs(current, offered)->0.len(),
    ensures
        current.is_prefix_of(script_pairs(current, offered)->0[i].display),
{
    lemma_starting_with(offered, current);
}

proof fn lemma_matching_programs(prefix: Seq<char>, listings: Seq<Seq<DirEntryView>>)
    ensures
        forall|i: int|
            0 <= i < matching_programs(prefix, listings).len() ==> prefix.is_prefix_of(
                #[trigger] matching_programs(prefix, listings)[i],
            ),
    decreases listings.len(),
{
    if listings.len() > 0 {
        let before = matching_programs(prefix, listings.drop_last());
        lemma_matching_programs(prefix, listings.drop_last());
        assert forall|i: int| 0 <= i < matching_programs(prefix, listings).len() implies prefix.is_prefix_of(
            #[trigger] matching_programs(prefix, listings)[i],
        ) by {
            if i < before.len() {
                assert(matching_programs(prefix, listings)[i] == before[i]);
            } else {
                law_names_extend_prefix(prefix, listings.last(), true, i - before.len());
            }
        }
    }
}

/// A command that is offered starts with what was typed.
pub proof fn law_commands_extend_word(
    current: Seq<char>,
    listings: Seq<Seq<DirEntryView>>,
    name: Seq<char>,
)
    requires
        matching_commands(current, listings).contains(name),
    ensures
        current.is_prefix_of(name),
{
    lemma_matching_programs(current, listings);
    let programs = matching_programs(current, listings);
    if programs.contains(name) {
        let k = choose|k: int| 0 <= k < programs.len() && programs[k] == name;
        assert(current.is_prefix_of(programs[k]));
    }
}

/// Where no white space stands right before the cursor, the word that is replaced is the end of the
/// text before the cursor, and it starts where the completion says.
pub proof fn law_word_ends_at_cursor(before: Seq<char>)
    requires
        before.len() > 0,
        !white_space(before.last()),
    ensures
        ({
            let context = context_at(before, encode_utf8(before).len() as int);
            let at = before.len() - context.current.len();
            &&& context.current.len() > 0
            &&& 0 <= at
            &&& before.skip(at) == context.current
            &&& context.start == encode_utf8(before.take(at)).len()
        }),
{
    let n = before.len() as int;
    let pieces = blank_pieces(before, n);
    lemma_pieces_are_parts(before, n);
    let from = choose|from: int| is_part(before, from, n, pieces.last());
    let current = pieces.last();
    assert(current.last() == before[n - 1]);
    assert(blank_words(before).last() == current);
    assert(before.last() != ' ' && before.last() != '\t');
    let at = n - current.len();
    assert(at == from);
    assert(before.skip(at) == current);
    lemma_encode_concat(before.take(at), current);
    assert(before.take(at) + current == before);
}

/// The text before the cursor is what stands there: the line is that text and the rest.
pub proof fn law_text_before_the_cursor(before: Seq<char>, rest: Seq<char>)
    ensures
        text_before(before + rest, encode_utf8(before).len() as int) == before,
{
    lemma_encode_concat(before, rest);
    let bytes = encode_utf8(before);
    assert((bytes + encode_utf8(rest)).subrange(0, bytes.len() as int) == bytes);
    encode_utf8_decode_utf8(before);
}

/// Which word is typed: right behind a space or a tab, or where there is no word, a new one that is
/// still empty and starts at the cursor; else the last word there is, which starts as many bytes
/// before the cursor as it is long.
pub proof fn law_which_word_is_typed(before: Seq<char>, pos: int)
    ensures
        ({
            let context = context_at(before, pos);
            let words = blank_words(before);
            let fresh = words.len() == 0 || before.last() == ' ' || before.last() == '\t';
            &&& context.before == before
            &&& context.parts == words
            &&& fresh ==> {
                &&& context.current.len() == 0
                &&& context.arg_index == words.len()
                &&& context.start == pos
            }
            &&& !fresh ==> {
                &&& context.current == words.last()
                &&& context.arg_index == words.len() - 1
                &&& context.start == pos - encode_utf8(words.last()).len()
            }
        }),
{
    if before.len() == 0 {
        law_other_characters_are_words(before);
    }
    assert(encode_utf8(Seq::<char>::empty()).len() == 0);
}

/// A registered script is asked first whenever an argument of its command is typed, whatever there
/// is of that argument, if anything: it gets the command, what is typed, the word before that, the
/// text before the cursor, and its length in bytes.
pub proof fn law_registered_script_is_asked(
    before: Seq<char>,
    pos: int,
    scripts: Map<Seq<char>, Seq<char>>,
)
    requires
        blank_words(before).len() > 0,
        scripts.contains_key(blank_words(before)[0]),
        blank_words(before).len() > 1 || before.last() == ' ' || before.last() == '\t',
    ensures
        ({
            let words = blank_words(before);
            let fresh = before.last() == ' ' || before.last() == '\t';
            first_step(context_at(before, pos), scripts) matches CompletionStepView::RunScript(call) && {
                &&& call.program == scripts[words[0]]
                &&& call.command == words[0]
                &&& fresh ==> call.current.len() == 0 && call.previous == words.last()
                &&& !fresh ==> call.current == words.last() && call.previous == words[words.len() - 2]
                &&& call.comp_line == before
                &&& call.comp_point == decimal(encode_utf8(before).len())
            }
        }),
{
    law_which_word_is_typed(before, pos);
}

/// Without a script for its command, or where the command itself is typed, commands are offered for
/// the first word, and for any other the entries of the directory that it is completed in.
pub proof fn law_words_without_a_script(
    before: Seq<char>,
    pos: int,
    scripts: Map<Seq<char>, Seq<char>>,
)
    ensures
        ({
            let words = blank_words(before);
            let fresh = words.len() == 0 || before.last() == ' ' || before.last() == '\t';
            let step = first_step(context_at(before, pos), scripts);
            &&& words.len() == 0 || (words.len() == 1 && !fresh) ==> step is ListPrograms
            &&& (words.len() > 1 || (words.len() == 1 && fresh)) && !scripts.contains_key(words[0])
                ==> step == CompletionStepView::ListDirectory(
                completion_place(
                    if fresh {
                        seq![]
                    } else {
                        words.last()
                    },
                ).0,
            )
        }),
{
    law_which_word_is_typed(before, pos);
    let context = context_at(before, pos);
    if context.current.len() == 0 {
        assert(context.current == Seq::<char>::empty());
    }
}

/// What comes of a script: the lines that it wrote and that start with what is typed are offered, in
/// their order; where there is only one, a space follows it. Where there is none, or the script
/// could not be run, the word is completed as without a script.
pub proof fn law_script_offers_its_lines(context: ContextView, output: Option<Seq<u8>>)
    ensures
        ({
            let offered = offered_lines(output);
            let found = starting_with(offered, context.current);
            let step = step_after_script(context, offered);
            &&& output matches Some(bytes) ==> offered == lines(lossy_text(bytes))
            &&& output is None ==> offered.len() == 0
            &&& found.len() == 0 ==> step == first_step(context, Map::empty())
            &&& found.len() > 0 ==> step is Offer
            &&& step matches CompletionStepView::Offer(pairs) ==> {
                &&& pairs.len() == found.len() > 0
                &&& forall|i: int|
                    0 <= i < pairs.len() ==> (#[trigger] pairs[i]).display == found[i]
                        && pairs[i].replacement == (if found.len() == 1 {
                        found[i] + seq![' ']
                    } else {
                        found[i]
                    })
            }
        }),
{
    let offered = offered_lines(output);
    let found = starting_with(offered, context.current);
    if found.len() == 1 {
        assert(found[0].push(' ') == found[0] + seq![' ']);
    }
}

/// What takes the place of the word: what is shown, and a space behind it, unless it is a directory,
/// in which one may go on.
pub proof fn law_offers_end_the_word(text: Seq<char>)
    ensures
        with_space(text).display == text,
        with_space(text).replacement == text + seq![' '],
        path_pair(text).display == text,
        path_pair(text).replacement == (if text.len() > 0 && text.last() == '/' {
            text
        } else {
            text + seq![' ']
        }),
{
    assert(text.push(' ') == text + seq![' ']);
}

/// Every command that starts with what was typed is offered: the builtin ones, and each program of
/// each directory of the search path.
pub proof fn law_every_command_is_offered(
    current: Seq<char>,
    listings: Seq<Seq<DirEntryView>>,
    name: Seq<char>,
    d: int,
    i: int,
)
    ensures
        builtin(name) && current.is_prefix_of(name) ==> matching_commands(current, listings).contains(
            name,
        ),
        0 <= d < listings.len() && 0 <= i < listings[d].len() && current.is_prefix_of(
            listings[d][i].name,
        ) && (listings[d][i].meta matches Some(meta) && meta.is_file && !meta.is_dir && meta.mode
            & 0o111 != 0) ==> matching_commands(current, listings).contains(listings[d][i].name),
{
    if 0 <= d < listings.len() && 0 <= i < listings[d].len() {
        law_every_program_is_found(current, listings, d, i);
    }
}

/// Nothing but commands is offered for the first word: each offer is builtin, or a program of one of
/// the listed directories.
pub proof fn law_only_commands_are_offered(
    current: Seq<char>,
    listings: Seq<Seq<DirEntryView>>,
    name: Seq<char>,
)
    requires
        matching_commands(current, listings).contains(name),
    ensures
        (builtin(name) && current.is_prefix_of(name)) || exists|d: int, i: int|
            0 <= d < listings.len() && 0 <= i < listings[d].len() && names_program(
                #[trigger] listings[d][i],
                name,
            ),
{
    if !(builtin(name) && current.is_prefix_of(name)) {
        law_only_programs_are_found(current, listings, name);
    }
}

/// How completions are shown is what each of them shows.
pub proof fn law_displays_are_shown(pairs: Seq<PairView>, i: int)
    requires
        0 <= i < pairs.len(),
    ensures
        displays(pairs).len() == pairs.len(),
        displays(pairs)[i] == pairs[i].display,
{
}

} // verus!
