//! A line of input as a pipeline of commands, and the pipes between them.

use vstd::prelude::*;
use vstd::string::*;

use crate::command::{
    command_step, launch_of, law_program_is_started_as_called, LaunchView, StepView,
};
use crate::lexer::{command_words, parse_args, parse_pipeline, pipeline_segments};
use crate::lexer_laws::{
    law_only_bare_bars_split, law_plain_segments_come_back, law_plain_words_come_back, ordinary,
    plain_segment, plain_word,
};
use crate::redirect::{
    dangling_from, law_files_are_no_pipes, law_last_redirection_wins,
    law_no_operator_no_redirect, operator_of, output_line, redirected, redirections_from,
    split_redirect, words_from, ChannelView, Redirect, RedirectView,
};
use crate::text::{joined, lemma_push_contains, same_text, white_space};

verus! {

/// One command of a pipeline.
#[derive(Debug)]
pub struct Stage {
    pub args: Vec<String>,
    pub redirect: Redirect,
    pub background: bool,
}

/// What a [`Stage`] holds.
#[verifier::ext_equal]
pub struct StageView {
    pub args: Seq<Seq<char>>,
    pub redirect: RedirectView,
    pub background: bool,
}

impl DeepView for Stage {
    type V = StageView;

    open spec fn deep_view(&self) -> StageView {
        StageView {
            args: self.args.deep_view(),
            redirect: self.redirect.deep_view(),
            background: self.background,
        }
    }
}

/// The command that a segment of a pipeline stands for: an ampersand as its last word puts it in
/// the background and is no word of the command.
pub open spec fn stage_of(segment: Seq<char>) -> StageView {
    let words = command_words(segment);
    let args = words_from(words, 0);
    let background = args.len() > 0 && args.last() == seq!['&'];
    StageView {
        args: if background {
            args.drop_last()
        } else {
            args
        },
        redirect: redirected(redirections_from(words, 0)),
        background,
    }
}

/// The commands of a line, in the order in which they are connected.
pub open spec fn stages_of(line: Seq<char>) -> Seq<StageView> {
    let segments = pipeline_segments(line);
    Seq::new(segments.len(), |i: int| stage_of(segments[i]))
}

/// Reads a segment of a pipeline as a command.
pub fn parse_stage(segment: &str) -> (r: Stage)
    ensures
        r.deep_view() == stage_of(segment@),
{
    let words = parse_args(segment);
    let (mut args, redirect) = split_redirect(words);
    let ghost all = args.deep_view();
    let n: usize = args.len();
    proof {
        reveal_strlit("&");
        assert("&"@ == seq!['&']);
        assert(n > 0 ==> all.last() == args@[n - 1]@);
    }
    let background = n > 0 && same_text(args[n - 1].as_str(), "&");
    if background {
        let _ = args.pop();
        assert(args.deep_view() == all.drop_last());
    }
    Stage { args, redirect, background }
}

/// Reads a line as the commands of a pipeline.
pub fn parse_line(line: &str) -> (r: Vec<Stage>)
    ensures
        r.deep_view() == stages_of(line@),
{
    let segments = parse_pipeline(line);
    let ghost all = stages_of(line@);
    let mut r: Vec<Stage> = Vec::new();
    let mut i: usize = 0;
    while i < segments.len()
        invariant
            i <= segments.len(),
            segments.deep_view() == pipeline_segments(line@),
            all == stages_of(line@),
            r.deep_view() == all.take(i as int),
        decreases segments.len() - i,
    {
        let ghost done = r.deep_view();
        let stage = parse_stage(segments[i]);
        let ghost added = stage.deep_view();
        r.push(stage);
        proof {
            assert(segments.deep_view()[i as int] == segments@[i as int]@);
            assert(r.deep_view() == done.push(added));
            assert(all.take(i + 1) == done.push(added));
        }
        i += 1;
    }
    assert(all.take(i as int) == all);
    r
}

/// How a line is carried out.
#[derive(Debug)]
pub enum Plan {
    /// There is nothing to do.
    Nothing,
    /// One command, which may need the state of the shell, and is carried out by the shell itself.
    Alone(Stage),
    /// Several commands, each in a process of its own.
    Connected(Vec<Stage>),
}

/// What a [`Plan`] holds.
pub enum PlanView {
    Nothing,
    Alone(StageView),
    Connected(Seq<StageView>),
}

impl DeepView for Plan {
    type V = PlanView;

    open spec fn deep_view(&self) -> PlanView {
        match self {
            Plan::Nothing => PlanView::Nothing,
            Plan::Alone(stage) => PlanView::Alone(stage.deep_view()),
            Plan::Connected(stages) => PlanView::Connected(stages.deep_view()),
        }
    }
}

/// How the commands of a line are carried out.
pub open spec fn plan_of(stages: Seq<StageView>) -> PlanView {
    if stages.len() == 0 {
        PlanView::Nothing
    } else if stages.len() == 1 {
        PlanView::Alone(stages[0])
    } else {
        PlanView::Connected(stages)
    }
}

/// Decides how a line is carried out.
pub fn plan_line(line: &str) -> (r: Plan)
    ensures
        r.deep_view() == plan_of(stages_of(line@)),
{
    let mut stages = parse_line(line);
    let ghost all = stages.deep_view();
    if stages.len() == 1 {
        let stage = stages.remove(0);
        assert(all[0] == stage.deep_view());
        Plan::Alone(stage)
    } else if stages.len() == 0 {
        Plan::Nothing
    } else {
        Plan::Connected(stages)
    }
}

/// A pipe: the descriptor that it is read from, and the one that it is written to.
#[derive(Clone, Copy, Debug, PartialEq, Eq, Structural)]
pub struct Pipe {
    pub read_fd: i32,
    pub write_fd: i32,
}

/// How many pipes connect `n` commands.
pub open spec fn pipes_between(n: int) -> int {
    if n <= 0 {
        0
    } else {
        n - 1
    }
}

/// How many pipes connect `n` commands.
pub fn pipe_count(n: usize) -> (r: usize)
    ensures
        r == (if n == 0 {
            0int
        } else {
            n - 1
        }),
        r == pipes_between(n as int),
{
    if n == 0 {
        0
    } else {
        n - 1
    }
}

/// The redirections of command `i` within a pipeline: it reads from the pipe before it and writes
/// to the one after it, where there is one.
pub open spec fn connected(redirect: RedirectView, pipes: Seq<Pipe>, i: int) -> RedirectView {
    RedirectView {
        pipe_read_fd: if i > 0 {
            Some(pipes[i - 1].read_fd)
        } else {
            redirect.pipe_read_fd
        },
        pipe_write_fd: if i < pipes.len() {
            Some(pipes[i].write_fd)
        } else {
            redirect.pipe_write_fd
        },
        ..redirect
    }
}

/// Connects command `i` to the pipes of its pipeline.
pub fn connect_stage(redirect: Redirect, pipes: &Vec<Pipe>, i: usize) -> (r: Redirect)
    requires
        i <= pipes.len(),
    ensures
        r.deep_view() == connected(redirect.deep_view(), pipes@, i as int),
{
    let mut r = redirect;
    if i > 0 {
        r.pipe_read_fd = Some(pipes[i - 1].read_fd);
    }
    if i < pipes.len() {
        r.pipe_write_fd = Some(pipes[i].write_fd);
    }
    r
}

/// The descriptors of the first `k` pipes that the process of command `i` closes: every end to be
/// written to but its own, and, unless it is the first command, every end to be read from but its
/// own.
pub open spec fn closed_by_child(pipes: Seq<Pipe>, i: int, k: int) -> Seq<i32>
    decreases k,
{
    if k <= 0 {
        seq![]
    } else {
        let j = k - 1;
        let before = closed_by_child(pipes, i, j);
        let writes = if j != i {
            before.push(pipes[j].write_fd)
        } else {
            before
        };
        if j + 1 != i && i > 0 {
            writes.push(pipes[j].read_fd)
        } else {
            writes
        }
    }
}

/// The descriptors that the process of command `i` closes, in order.
pub fn child_closes(pipes: &Vec<Pipe>, i: usize) -> (r: Vec<i32>)
    requires
        i <= pipes.len(),
    ensures
        r@ == closed_by_child(pipes@, i as int, pipes.len() as int),
{
    let mut r: Vec<i32> = Vec::new();
    let mut j: usize = 0;
    while j < pipes.len()
        invariant
            j <= pipes.len(),
            i <= pipes.len(),
            r@ == closed_by_child(pipes@, i as int, j as int),
        decreases pipes.len() - j,
    {
        if j != i {
            r.push(pipes[j].write_fd);
        }
        if j + 1 != i && i > 0 {
            r.push(pipes[j].read_fd);
        }
        j += 1;
    }
    r
}

/// The descriptor that the shell closes once command `i` was started, so that the next command sees
/// the end of its input: the end that the command writes to.
pub fn parent_closes(pipes: &Vec<Pipe>, i: usize) -> (r: Option<i32>)
    ensures
        r == (if i < pipes.len() {
            Some(pipes@[i as int].write_fd)
        } else {
            None
        }),
        r == closed_by_shell(pipes@, i as int),
{
    if i < pipes.len() {
        Some(pipes[i].write_fd)
    } else {
        None
    }
}

/// The ends to be read from, in order.
pub open spec fn read_ends(pipes: Seq<Pipe>) -> Seq<i32> {
    Seq::new(pipes.len(), |j: int| pipes[j].read_fd)
}

/// The descriptors that the shell closes once all commands were started: the ends to be read from.
pub fn parent_closes_last(pipes: &Vec<Pipe>) -> (r: Vec<i32>)
    ensures
        r@ == read_ends(pipes@),
{
    let mut r: Vec<i32> = Vec::new();
    let mut j: usize = 0;
    while j < pipes.len()
        invariant
            j <= pipes.len(),
            r@ == read_ends(pipes@).take(j as int),
        decreases pipes.len() - j,
    {
        r.push(pipes[j].read_fd);
        j += 1;
        assert(read_ends(pipes@).take(j as int) == read_ends(pipes@).take(j - 1).push(
            pipes@[j - 1].read_fd,
        ));
    }
    assert(read_ends(pipes@).take(j as int) == read_ends(pipes@));
    r
}

/// Why no line could be read.
#[derive(Clone, Copy, Debug, PartialEq, Eq, Structural)]
pub enum ReadFailure {
    EndOfInput,
    Interrupted,
    Other,
}

/// The status with which the shell ends when no line could be read: the end of the input and an
/// interrupt are no failure.
pub fn status_after(failure: ReadFailure) -> (r: i32)
    ensures
        r == (match failure {
            ReadFailure::EndOfInput => 0i32,
            ReadFailure::Interrupted => 0i32,
            ReadFailure::Other => 1i32,
        }),
{
    match failure {
        ReadFailure::EndOfInput => 0,
        ReadFailure::Interrupted => 0,
        ReadFailure::Other => 1,
    }
}

/// What a command writes into a pipe the next one reads: the two use the ends of one pipe.
pub proof fn law_neighbours_share_a_pipe(
    left: RedirectView,
    right: RedirectView,
    pipes: Seq<Pipe>,
    i: int,
)
    requires
        0 <= i < pipes.len(),
    ensures
        connected(left, pipes, i).pipe_write_fd == Some(pipes[i].write_fd),
        connected(right, pipes, i + 1).pipe_read_fd == Some(pipes[i].read_fd),
{
}

/// The ends of a pipeline are left to the shell: the first command reads from no pipe, and the last
/// writes to none.
pub proof fn law_pipeline_ends_are_open(redirect: RedirectView, pipes: Seq<Pipe>)
    requires
        redirect.pipe_read_fd is None,
        redirect.pipe_write_fd is None,
    ensures
        connected(redirect, pipes, 0).pipe_read_fd is None,
        connected(redirect, pipes, pipes.len() as int).pipe_write_fd is None,
{
}

/// Whether no descriptor occurs twice among the ends of the pipes.
pub open spec fn distinct_ends(pipes: Seq<Pipe>) -> bool {
    &&& forall|a: int, b: int|
        0 <= a < pipes.len() && 0 <= b < pipes.len() ==> (#[trigger] pipes[a]).read_fd != (
        #[trigger] pipes[b]).write_fd
    &&& forall|a: int, b: int|
        0 <= a < b < pipes.len() ==> (#[trigger] pipes[a]).read_fd != (#[trigger] pipes[b]).read_fd
            && pipes[a].write_fd != pipes[b].write_fd
}

proof fn lemma_closed_by_child(pipes: Seq<Pipe>, i: int, k: int, fd: i32)
    requires
        0 <= k <= pipes.len(),
    ensures
        closed_by_child(pipes, i, k).contains(fd) <==> exists|j: int|
            0 <= j < k && {
                ||| (#[trigger] pipes[j]).write_fd == fd && j != i
                ||| pipes[j].read_fd == fd && j + 1 != i && i > 0
            },
    decreases k,
{
    if k > 0 {
        let j = k - 1;
        lemma_closed_by_child(pipes, i, j, fd);
        let before = closed_by_child(pipes, i, j);
        let writes = if j != i {
            before.push(pipes[j].write_fd)
        } else {
            before
        };
        lemma_push_contains(before, pipes[j].write_fd, fd);
        lemma_push_contains(writes, pipes[j].read_fd, fd);
        if closed_by_child(pipes, i, k).contains(fd) {
            if before.contains(fd) {
                let m = choose|m: int|
                    0 <= m < j && {
                        ||| (#[trigger] pipes[m]).write_fd == fd && m != i
                        ||| pipes[m].read_fd == fd && m + 1 != i && i > 0
                    };
                assert(0 <= m < k);
            } else {
                assert(pipes[j].write_fd == fd || pipes[j].read_fd == fd);
            }
        }
    }
}

/// A command keeps its own two ends open and closes every end that others write to, so that a
/// reader sees the end of its input once its writer is done. Unless it is the first command, it also
/// closes every end that others read from.
pub proof fn law_child_keeps_its_ends(pipes: Seq<Pipe>, i: int)
    requires
        0 <= i <= pipes.len(),
        distinct_ends(pipes),
    ensures
        i > 0 ==> !closed_by_child(pipes, i, pipes.len() as int).contains(pipes[i - 1].read_fd),
        i < pipes.len() ==> !closed_by_child(pipes, i, pipes.len() as int).contains(
            pipes[i].write_fd,
        ),
        forall|j: int|
            0 <= j < pipes.len() && j != i ==> closed_by_child(
                pipes,
                i,
                pipes.len() as int,
            ).contains((#[trigger] pipes[j]).write_fd),
        i > 0 ==> forall|j: int|
            0 <= j < pipes.len() && j != i - 1 ==> closed_by_child(
                pipes,
                i,
                pipes.len() as int,
            ).contains((#[trigger] pipes[j]).read_fd),
{
    let n = pipes.len() as int;
    if i > 0 {
        lemma_closed_by_child(pipes, i, n, pipes[i - 1].read_fd);
    }
    if i < n {
        lemma_closed_by_child(pipes, i, n, pipes[i].write_fd);
    }
    assert forall|j: int| 0 <= j < n && j != i implies closed_by_child(pipes, i, n).contains(
        (#[trigger] pipes[j]).write_fd,
    ) by {
        lemma_closed_by_child(pipes, i, n, pipes[j].write_fd);
    }
    if i > 0 {
        assert forall|j: int| 0 <= j < n && j != i - 1 implies closed_by_child(
            pipes,
            i,
            n,
        ).contains((#[trigger] pipes[j]).read_fd) by {
            lemma_closed_by_child(pipes, i, n, pipes[j].read_fd);
        }
    }
}

/// Plain words without operators are the words of the command, when a space is set between them.
pub proof fn law_plain_command(words: Seq<Seq<char>>)
    requires
        forall|i: int|
            0 <= i < words.len() ==> plain_word(#[trigger] words[i]) && operator_of(words[i]) is None,
        words.len() > 0 ==> words.last() != seq!['&'],
    ensures
        stage_of(joined(words, ' ')) == (StageView {
            args: words,
            redirect: RedirectView::none(),
            background: false,
        }),
{
    law_plain_words_come_back(words);
    law_no_operator_no_redirect(words);
}

/// An ampersand behind a command of plain words puts it in the background, and changes nothing else.
pub proof fn law_ampersand_goes_to_background(words: Seq<Seq<char>>)
    requires
        forall|i: int|
            0 <= i < words.len() ==> plain_word(#[trigger] words[i]) && operator_of(words[i]) is None,
    ensures
        stage_of(joined(words.push(seq!['&']), ' ')) == (StageView {
            args: words,
            redirect: RedirectView::none(),
            background: true,
        }),
{
    let more = words.push(seq!['&']);
    assert forall|i: int| 0 <= i < more.len() implies plain_word(#[trigger] more[i])
        && operator_of(more[i]) is None by {
        if i < words.len() {
            assert(more[i] == words[i]);
        } else {
            assert(more[i] == seq!['&']);
            assert(more[i][0] == '&');
            assert(operator_of(more[i]) is None) by {
                assert(seq!['>'][0] == '>');
                assert(seq!['>', '>'].len() == 2);
            }
        }
    }
    law_plain_words_come_back(more);
    law_no_operator_no_redirect(more);
    assert(more.drop_last() == words);
}

/// An operator and a plain path behind a command of plain words redirect the command, and change
/// nothing else.
pub proof fn law_operator_redirects(words: Seq<Seq<char>>, word: Seq<char>, path: Seq<char>)
    requires
        forall|i: int|
            0 <= i < words.len() ==> plain_word(#[trigger] words[i]) && operator_of(words[i]) is None,
        words.len() > 0 ==> words.last() != seq!['&'],
        operator_of(word) is Some,
        plain_word(path),
    ensures
        stage_of(joined(words.push(word).push(path), ' ')) == (StageView {
            args: words,
            redirect: RedirectView::none().with_file(operator_of(word)->0, path),
            background: false,
        }),
{
    let more = words.push(word).push(path);
    assert(plain_word(word)) by {
        assert forall|i: int| 0 <= i < word.len() implies ordinary(#[trigger] word[i]) by {
            assert(word[i] == '>' || word[i] == '1' || word[i] == '2');
        }
    }
    assert forall|i: int| 0 <= i < more.len() implies plain_word(#[trigger] more[i]) by {
        if i < words.len() {
            assert(more[i] == words[i]);
        }
    }
    law_plain_words_come_back(more);
    law_no_operator_no_redirect(words);
    lemma_nothing_dangles(words, 0);
    law_last_redirection_wins(words, word, path);
}

proof fn lemma_nothing_dangles(words: Seq<Seq<char>>, i: int)
    requires
        0 <= i,
        forall|k: int| 0 <= k < words.len() ==> operator_of(#[trigger] words[k]) is None,
    ensures
        !dangling_from(words, i),
    decreases words.len() - i,
{
    if i < words.len() {
        lemma_nothing_dangles(words, i + 1);
    }
}

/// `echo` with plain words writes them back with a space between them.
pub proof fn law_echo_repeats(words: Seq<Seq<char>>)
    requires
        forall|i: int|
            0 <= i < words.len() ==> plain_word(#[trigger] words[i]) && operator_of(words[i]) is None,
        words.len() > 0 ==> words.last() != seq!['&'],
    ensures
        ({
            let stage = stage_of(joined(seq!["echo"@] + words, ' '));
            command_step(stage.args, stage.redirect) == StepView::Say(
                output_line(joined(words, ' '), RedirectView::none()),
            )
        }),
{
    reveal_strlit("echo");
    reveal_strlit("exit");
    let all = seq!["echo"@] + words;
    assert("echo"@.len() == 4);
    assert(plain_word("echo"@));
    assert(operator_of("echo"@) is None) by {
        assert("echo"@[0] == 'e');
    }
    assert forall|i: int| 0 <= i < all.len() implies plain_word(#[trigger] all[i]) && operator_of(
        all[i],
    ) is None by {
        if i > 0 {
            assert(all[i] == words[i - 1]);
        }
    }
    assert(all.last() != seq!['&']) by {
        if words.len() == 0 {
            assert(all.last() == "echo"@);
        } else {
            assert(all.last() == words.last());
        }
    }
    law_plain_command(all);
    assert(all.skip(1) == words);
    assert("exit"@[1] != "echo"@[1]);
}

/// Every command of a line is carried out: a line with several segments becomes as many connected
/// commands, in their order, each that of its segment; only a line with a single segment is carried
/// out alone; and only a line without segments does nothing.
pub proof fn law_every_command_is_carried_out(line: Seq<char>)
    ensures
        ({
            let segments = pipeline_segments(line);
            match plan_of(stages_of(line)) {
                PlanView::Nothing => segments.len() == 0,
                PlanView::Alone(stage) => segments.len() == 1 && stage == stage_of(segments[0]),
                PlanView::Connected(stages) => {
                    &&& segments.len() >= 2
                    &&& stages.len() == segments.len()
                    &&& forall|i: int|
                        0 <= i < segments.len() ==> #[trigger] stages[i] == stage_of(segments[i])
                },
            }
        }),
{
}

/// Whether a text is a word that is nothing but a word, wherever on a line it stands.
pub open spec fn simple_word(w: Seq<char>) -> bool {
    &&& w.len() > 0
    &&& forall|i: int|
        0 <= i < w.len() ==> ordinary(#[trigger] w[i]) && w[i] != '|' && !white_space(w[i])
    &&& operator_of(w) is None
    &&& w != seq!['&']
}

/// Whether words are a command of nothing but words.
pub open spec fn simple_command(words: Seq<Seq<char>>) -> bool {
    words.len() > 0 && forall|i: int| 0 <= i < words.len() ==> simple_word(#[trigger] words[i])
}

/// How commands of nothing but words are written as a line: a space between words, and a bar between
/// commands.
pub open spec fn simple_line(commands: Seq<Seq<Seq<char>>>) -> Seq<char> {
    joined(Seq::new(commands.len(), |i: int| joined(commands[i], ' ')), '|')
}

proof fn lemma_simple_segment(words: Seq<Seq<char>>)
    requires
        simple_command(words),
    ensures
        plain_segment(joined(words, ' ')),
        joined(words, ' ').len() > 0,
    decreases words.len(),
{
    let s = joined(words, ' ');
    let w = words.last();
    assert(simple_word(words[words.len() - 1]));
    if words.len() == 1 {
        assert(s == w);
        assert(ordinary(w[0]) && ordinary(w[w.len() - 1]));
        assert forall|i: int| 0 <= i < s.len() implies #[trigger] s[i] != '\\' && s[i] != '"' && s[i]
            != '\'' && s[i] != '|' by {
            assert(ordinary(w[i]));
        }
    } else {
        let front = words.drop_last();
        assert forall|i: int| 0 <= i < front.len() implies simple_word(#[trigger] front[i]) by {
            assert(front[i] == words[i]);
        }
        lemma_simple_segment(front);
        let p = joined(front, ' ');
        assert(s == p.push(' ') + w);
        assert(s[0] == p[0] && s.last() == w.last());
        assert(ordinary(w[w.len() - 1]));
        assert forall|i: int| 0 <= i < s.len() implies #[trigger] s[i] != '\\' && s[i] != '"' && s[i]
            != '\'' && s[i] != '|' by {
            if i < p.len() {
                assert(s[i] == p[i]);
            } else if i > p.len() {
                assert(s[i] == w[i - p.len() - 1]);
                assert(ordinary(w[i - p.len() - 1]));
            }
        }
    }
}

proof fn lemma_simple_stage(words: Seq<Seq<char>>)
    requires
        simple_command(words),
    ensures
        stage_of(joined(words, ' ')) == (StageView {
            args: words,
            redirect: RedirectView::none(),
            background: false,
        }),
{
    assert forall|i: int| 0 <= i < words.len() implies plain_word(#[trigger] words[i])
        && operator_of(words[i]) is None by {
        assert(simple_word(words[i]));
        assert forall|k: int| 0 <= k < words[i].len() implies ordinary(#[trigger] words[i][k]) by {
        }
    }
    assert(simple_word(words[words.len() - 1]));
    law_plain_command(words);
}

/// Commands of nothing but words, written as a line, are carried out as they are: one by the shell
/// itself, several connected in their order, each with its own words, none redirected or in the
/// background.
pub proof fn law_simple_commands_are_carried_out(commands: Seq<Seq<Seq<char>>>)
    requires
        forall|i: int| 0 <= i < commands.len() ==> simple_command(#[trigger] commands[i]),
    ensures
        match plan_of(stages_of(simple_line(commands))) {
            PlanView::Nothing => commands.len() == 0,
            PlanView::Alone(stage) => {
                &&& commands.len() == 1
                &&& stage.args == commands[0]
                &&& stage.redirect == RedirectView::none()
                &&& !stage.background
            },
            PlanView::Connected(stages) => {
                &&& commands.len() >= 2
                &&& stages.len() == commands.len()
                &&& forall|i: int|
                    0 <= i < stages.len() ==> (#[trigger] stages[i]).args == commands[i]
                        && stages[i].redirect == RedirectView::none() && !stages[i].background
            },
        },
{
    let segments = Seq::new(commands.len(), |i: int| joined(commands[i], ' '));
    let line = simple_line(commands);
    if commands.len() == 0 {
        assert(line == Seq::<char>::empty());
        law_only_bare_bars_split(line);
    } else {
        assert forall|i: int| 0 <= i < segments.len() implies plain_segment(#[trigger] segments[i]) by {
            assert(simple_command(commands[i]));
            lemma_simple_segment(commands[i]);
        }
        let last = commands.len() - 1;
        assert(simple_command(commands[last]));
        lemma_simple_segment(commands[last]);
        assert(segments.last() == joined(commands[last], ' '));
        law_plain_segments_come_back(segments);
        assert forall|i: int| 0 <= i < commands.len() implies #[trigger] stages_of(line)[i] == (
        StageView { args: commands[i], redirect: RedirectView::none(), background: false }) by {
            assert(simple_command(commands[i]));
            lemma_simple_stage(commands[i]);
            assert(segments[i] == joined(commands[i], ' '));
        }
        assert(stages_of(line)[0].args == commands[0]);
    }
}

/// A command has exactly the words of its segment that are no redirections; an ampersand at their
/// end is taken off and puts it in the background, and nothing else does. Its redirections are those
/// of the segment, and it is connected to no pipe yet.
pub proof fn law_command_has_the_words_of_its_segment(segment: Seq<char>)
    ensures
        ({
            let stage = stage_of(segment);
            let words = words_from(command_words(segment), 0);
            &&& stage.background ==> words == stage.args.push(seq!['&'])
            &&& !stage.background ==> words == stage.args && (words.len() > 0 ==> words.last()
                != seq!['&'])
            &&& stage.redirect == redirected(redirections_from(command_words(segment), 0))
            &&& stage.redirect.pipe_read_fd is None
            &&& stage.redirect.pipe_write_fd is None
        }),
{
    law_files_are_no_pipes(redirections_from(command_words(segment), 0));
    let words = words_from(command_words(segment), 0);
    if words.len() > 0 && words.last() == seq!['&'] {
        assert(words.drop_last().push(seq!['&']) == words);
    }
}

/// To be connected changes nothing of the files that a command is redirected to.
pub proof fn law_pipes_leave_files_alone(redirect: RedirectView, pipes: Seq<Pipe>, i: int)
    ensures
        connected(redirect, pipes, i).stdout == redirect.stdout,
        connected(redirect, pipes, i).stdout_append == redirect.stdout_append,
        connected(redirect, pipes, i).stderr == redirect.stderr,
        connected(redirect, pipes, i).stderr_append == redirect.stderr_append,
{
}

/// What command `i` writes, where it is redirected to no file, goes into the pipe that the next
/// command reads from.
pub proof fn law_output_reaches_the_next_command(
    args: Seq<Seq<char>>,
    program: Seq<char>,
    redirect: RedirectView,
    next_args: Seq<Seq<char>>,
    next_program: Seq<char>,
    next: RedirectView,
    pipes: Seq<Pipe>,
    i: int,
)
    requires
        args.len() > 0,
        next_args.len() > 0,
        0 <= i < pipes.len(),
        redirect.stdout is None,
    ensures
        ({
            let here = connected(redirect, pipes, i);
            let there = connected(next, pipes, i + 1);
            &&& launch_of(args, Some(program), here, here) matches LaunchView::Start(call)
                && call.stdio.stdout == ChannelView::Fd(pipes[i].write_fd)
            &&& launch_of(next_args, Some(next_program), there, there) matches LaunchView::Start(call)
                && call.stdio.stdin == Some(pipes[i].read_fd)
        }),
{
    let here = connected(redirect, pipes, i);
    law_program_is_started_as_called(args, program, here, here);
}

/// The descriptor that the shell closes once command `i` was started.
pub open spec fn closed_by_shell(pipes: Seq<Pipe>, i: int) -> Option<i32> {
    if 0 <= i < pipes.len() {
        Some(pipes[i].write_fd)
    } else {
        None
    }
}

/// The shell keeps no end of a pipe: each end that is written to is closed once its writer was
/// started, and not before; each end that is read from is closed at last.
pub proof fn law_shell_keeps_no_pipe(pipes: Seq<Pipe>, j: int)
    requires
        0 <= j < pipes.len(),
        distinct_ends(pipes),
    ensures
        closed_by_shell(pipes, j) == Some(pipes[j].write_fd),
        forall|i: int| i != j ==> #[trigger] closed_by_shell(pipes, i) != Some(pipes[j].write_fd),
        forall|i: int| #[trigger] closed_by_shell(pipes, i) != Some(pipes[j].read_fd),
        read_ends(pipes).len() == pipes.len(),
        read_ends(pipes)[j] == pipes[j].read_fd,
        closed_by_shell(pipes, pipes.len() as int) is None,
{
}

/// A process closes nothing but ends of the pipes, and each of them once at most. Of those, it
/// closes the ends to be written to that are not its own, and, unless it is the first, the ends to
/// be read from that are not its own.
pub proof fn law_only_foreign_ends_are_closed(pipes: Seq<Pipe>, i: int, fd: i32)
    requires
        0 <= i <= pipes.len(),
        distinct_ends(pipes),
    ensures
        closed_by_child(pipes, i, pipes.len() as int).contains(fd) <==> exists|j: int|
            0 <= j < pipes.len() && {
                ||| (#[trigger] pipes[j]).write_fd == fd && j != i
                ||| pipes[j].read_fd == fd && j + 1 != i && i > 0
            },
        closed_by_child(pipes, i, pipes.len() as int).no_duplicates(),
{
    lemma_closed_by_child(pipes, i, pipes.len() as int, fd);
    lemma_closed_once(pipes, i, pipes.len() as int);
}

proof fn lemma_closed_once(pipes: Seq<Pipe>, i: int, k: int)
    requires
        0 <= k <= pipes.len(),
        distinct_ends(pipes),
    ensures
        closed_by_child(pipes, i, k).no_duplicates(),
    decreases k,
{
    if k > 0 {
        let j = k - 1;
        lemma_closed_once(pipes, i, j);
        lemma_closed_by_child(pipes, i, j, pipes[j].write_fd);
        lemma_closed_by_child(pipes, i, j, pipes[j].read_fd);
        let before = closed_by_child(pipes, i, j);
        assert(!before.contains(pipes[j].write_fd));
        assert(!before.contains(pipes[j].read_fd));
        let writes = if j != i {
            before.push(pipes[j].write_fd)
        } else {
            before
        };
        lemma_push_contains(before, pipes[j].write_fd, pipes[j].read_fd);
        assert(!writes.contains(pipes[j].read_fd));
    }
}

/// There is a pipe behind every command but the last, and no other: command `i` of `n` writes to
/// a pipe exactly where another command follows it.
pub proof fn law_pipe_behind_every_command_but_the_last(
    redirect: RedirectView,
    pipes: Seq<Pipe>,
    n: int,
    i: int,
)
    requires
        0 <= i < n,
        pipes.len() == pipes_between(n),
        redirect.pipe_read_fd is None,
        redirect.pipe_write_fd is None,
    ensures
        connected(redirect, pipes, i).pipe_write_fd is Some <==> i + 1 < n,
        connected(redirect, pipes, i).pipe_read_fd is Some <==> i > 0,
        i + 1 < n ==> connected(redirect, pipes, i).pipe_write_fd == Some(pipes[i].write_fd)
            && connected(redirect, pipes, i + 1).pipe_read_fd == Some(pipes[i].read_fd),
{
}

} // verus!
