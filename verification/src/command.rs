//! Carrying out a command: which of the shell's own commands it is, or which program to start.

use vstd::prelude::*;
use vstd::slice::*;
use vstd::string::*;

use crate::builtins::{builtin, law_builtin_commands};
use crate::redirect::{
    apply_redirect, ensure_redirect_files, error_line, law_redirected_files_are_made, output_line,
    write_error, write_output, ChannelView, FileTarget, FileTargetView, Message, MessageView,
    Redirect, RedirectView, StdioPlan, StdioPlanView, Stream,
};
use crate::text::{join_words, joined, same_text};

verus! {

/// What is to be done for a command.
#[derive(Debug)]
pub enum Step {
    /// Nothing.
    Nothing,
    /// End the shell with this status.
    Exit(i32),
    /// Write the message.
    Say(Message),
    /// Look the name up on the search path and say what it is.
    DescribeType(String),
    /// Write the working directory as a line of output.
    ShowDirectory,
    /// Change the working directory, as the words behind the command say.
    ChangeDirectory(Vec<String>),
    /// List the jobs.
    ListJobs,
    /// Register, print or remove completion scripts, as the words behind the command say.
    ManageCompletions(Vec<String>),
    /// Show, read or write the history, as the words behind the command say.
    ManageHistory(Vec<String>),
    /// Start the program that these words name.
    StartProgram(Vec<String>),
}

/// What a [`Step`] holds.
pub enum StepView {
    Nothing,
    Exit(i32),
    Say(MessageView),
    DescribeType(Seq<char>),
    ShowDirectory,
    ChangeDirectory(Seq<Seq<char>>),
    ListJobs,
    ManageCompletions(Seq<Seq<char>>),
    ManageHistory(Seq<Seq<char>>),
    StartProgram(Seq<Seq<char>>),
}

impl DeepView for Step {
    type V = StepView;

    open spec fn deep_view(&self) -> StepView {
        match self {
            Step::Nothing => StepView::Nothing,
            Step::Exit(status) => StepView::Exit(*status),
            Step::Say(message) => StepView::Say(message.deep_view()),
            Step::DescribeType(name) => StepView::DescribeType(name@),
            Step::ShowDirectory => StepView::ShowDirectory,
            Step::ChangeDirectory(words) => StepView::ChangeDirectory(words.deep_view()),
            Step::ListJobs => StepView::ListJobs,
            Step::ManageCompletions(words) => StepView::ManageCompletions(words.deep_view()),
            Step::ManageHistory(words) => StepView::ManageHistory(words.deep_view()),
            Step::StartProgram(words) => StepView::StartProgram(words.deep_view()),
        }
    }
}

/// What is to be done for a command, given by its words.
pub open spec fn command_step(args: Seq<Seq<char>>, redirect: RedirectView) -> StepView {
    if args.len() == 0 {
        StepView::Nothing
    } else if args[0] == "exit"@ {
        StepView::Exit(0)
    } else if args[0] == "echo"@ {
        StepView::Say(output_line(joined(args.skip(1), ' '), redirect))
    } else if args[0] == "type"@ {
        if args.len() > 1 {
            StepView::DescribeType(args[1])
        } else {
            StepView::Nothing
        }
    } else if args[0] == "pwd"@ {
        StepView::ShowDirectory
    } else if args[0] == "cd"@ {
        StepView::ChangeDirectory(args.skip(1))
    } else if args[0] == "jobs"@ {
        StepView::ListJobs
    } else if args[0] == "complete"@ {
        StepView::ManageCompletions(args.skip(1))
    } else if args[0] == "history"@ {
        StepView::ManageHistory(args.skip(1))
    } else {
        StepView::StartProgram(args)
    }
}

/// The files to open before a command is carried out; none where there is no command.
pub open spec fn command_files(args: Seq<Seq<char>>, redirect: RedirectView) -> Seq<
    FileTargetView,
> {
    if args.len() == 0 {
        seq![]
    } else {
        redirect.files()
    }
}

fn echo(args: &Vec<String>, redirect: &Redirect) -> (r: Message)
    requires
        args.len() > 0,
    ensures
        r.deep_view() == output_line(joined(args.deep_view().skip(1), ' '), redirect.deep_view()),
{
    let rest = slice_subrange(args.as_slice(), 1, args.len());
    assert(rest.deep_view() == args.deep_view().skip(1));
    let text = join_words(rest, ' ');
    write_output(text.as_str(), redirect)
}

fn words_behind(args: Vec<String>) -> (r: Vec<String>)
    requires
        args.len() > 0,
    ensures
        r.deep_view() == args.deep_view().skip(1),
{
    let mut all = args;
    let rest = all.split_off(1);
    assert(rest.deep_view() == args.deep_view().skip(1));
    rest
}

/// Decides what is to be done for a command, given by its words, and which files are opened before
/// that.
pub fn handle_command(args: Vec<String>, redirect: &Redirect) -> (r: (Vec<FileTarget>, Step))
    ensures
        r.0.deep_view() == command_files(args.deep_view(), redirect.deep_view()),
        r.1.deep_view() == command_step(args.deep_view(), redirect.deep_view()),
{
    if args.len() == 0 {
        let none: Vec<FileTarget> = Vec::new();
        assert(none.deep_view() == Seq::<FileTargetView>::empty());
        return (none, Step::Nothing);
    }
    let files = ensure_redirect_files(redirect);
    let name = args[0].clone();
    let cmd = name.as_str();
    assert(args.deep_view()[0] == cmd@);
    let step = if same_text(cmd, "exit") {
        Step::Exit(0)
    } else if same_text(cmd, "echo") {
        Step::Say(echo(&args, redirect))
    } else if same_text(cmd, "type") {
        if args.len() > 1 {
            assert(args.deep_view()[1] == args@[1]@);
            Step::DescribeType(args[1].clone())
        } else {
            Step::Nothing
        }
    } else if same_text(cmd, "pwd") {
        Step::ShowDirectory
    } else if same_text(cmd, "cd") {
        Step::ChangeDirectory(words_behind(args))
    } else if same_text(cmd, "jobs") {
        Step::ListJobs
    } else if same_text(cmd, "complete") {
        Step::ManageCompletions(words_behind(args))
    } else if same_text(cmd, "history") {
        Step::ManageHistory(words_behind(args))
    } else {
        Step::StartProgram(args)
    };
    (files, step)
}

/// A program to start: its file, the name that it is started under, its arguments and its streams.
#[derive(Debug)]
pub struct ProgramCall {
    pub program: String,
    pub arg0: String,
    pub args: Vec<String>,
    pub stdio: StdioPlan,
}

/// What a [`ProgramCall`] holds.
pub struct ProgramCallView {
    pub program: Seq<char>,
    pub arg0: Seq<char>,
    pub args: Seq<Seq<char>>,
    pub stdio: StdioPlanView,
}

impl DeepView for ProgramCall {
    type V = ProgramCallView;

    open spec fn deep_view(&self) -> ProgramCallView {
        ProgramCallView {
            program: self.program@,
            arg0: self.arg0@,
            args: self.args.deep_view(),
            stdio: self.stdio.deep_view(),
        }
    }
}

/// Starting a command's program: it is told the name that was typed, and gets the other words.
pub open spec fn call_of(
    program: Seq<char>,
    args: Seq<Seq<char>>,
    redirect: RedirectView,
) -> ProgramCallView {
    ProgramCallView { program, arg0: args[0], args: args.skip(1), stdio: redirect.stdio() }
}

fn program_call(program: String, args: &Vec<String>, redirect: &Redirect) -> (r: ProgramCall)
    requires
        args.len() > 0,
    ensures
        r.deep_view() == call_of(program@, args.deep_view(), redirect.deep_view()),
{
    let ghost all = args.deep_view();
    let mut rest: Vec<String> = Vec::new();
    let mut i: usize = 1;
    assert(rest.deep_view() == all.subrange(1, 1));
    while i < args.len()
        invariant
            1 <= i <= args.len(),
            all == args.deep_view(),
            rest.deep_view() == all.subrange(1, i as int),
        decreases args.len() - i,
    {
        let ghost done = rest.deep_view();
        rest.push(args[i].clone());
        proof {
            assert(all[i as int] == args@[i as int]@);
            assert(rest.deep_view() == done.push(all[i as int]));
            assert(all.subrange(1, i + 1) == done.push(all[i as int]));
        }
        i += 1;
    }
    assert(all.subrange(1, i as int) == all.skip(1));
    assert(all[0] == args@[0]@);
    ProgramCall { program, arg0: args[0].clone(), args: rest, stdio: apply_redirect(redirect) }
}

/// What comes of a command that is no builtin.
#[derive(Debug)]
pub enum Launch {
    /// Start the program.
    Start(ProgramCall),
    /// There is no such program.
    Missing(Message),
}

/// What a [`Launch`] holds.
pub enum LaunchView {
    Start(ProgramCallView),
    Missing(MessageView),
}

impl DeepView for Launch {
    type V = LaunchView;

    open spec fn deep_view(&self) -> LaunchView {
        match self {
            Launch::Start(call) => LaunchView::Start(call.deep_view()),
            Launch::Missing(message) => LaunchView::Missing(message.deep_view()),
        }
    }
}

/// What comes of a command, where `found` is the program that the search path gives for its first
/// word, and `complaints` says where it is told that there is none.
pub open spec fn launch_of(
    args: Seq<Seq<char>>,
    found: Option<Seq<char>>,
    redirect: RedirectView,
    complaints: RedirectView,
) -> LaunchView {
    match found {
        Some(program) => LaunchView::Start(call_of(program, args, redirect)),
        None => LaunchView::Missing(
            error_line(
                (if args.len() > 0 {
                    args[0]
                } else {
                    seq![]
                }) + ": command not found"@,
                complaints,
            ),
        ),
    }
}

/// What comes of a command that is no builtin, where `found` is the program that the search path
/// gives for its first word.
pub fn execute_external(args: &Vec<String>, found: Option<String>, redirect: &Redirect) -> (r: Launch)
    requires
        args.len() > 0,
    ensures
        r.deep_view() == launch_of(
            args.deep_view(),
            found.deep_view(),
            redirect.deep_view(),
            redirect.deep_view(),
        ),
{
    match found {
        Some(program) => Launch::Start(program_call(program, args, redirect)),
        None => {
            assert(args.deep_view()[0] == args@[0]@);
            let mut text = args[0].clone();
            text.append(": command not found");
            Launch::Missing(write_error(text.as_str(), redirect))
        },
    }
}

/// What is told where a program could not be started.
pub open spec fn execution_failure(target: Seq<char>, redirect: RedirectView) -> MessageView {
    error_line(target + ": exec error"@, redirect)
}

/// The message that tells that a program could not be started.
pub fn execution_failed(target: &str, redirect: &Redirect) -> (r: Message)
    ensures
        r.deep_view() == error_line(target@ + ": exec error"@, redirect.deep_view()),
        r.deep_view() == execution_failure(target@, redirect.deep_view()),
{
    let mut text = target.to_owned();
    text.append(": exec error");
    write_error(text.as_str(), redirect)
}

/// What comes of a command in a background process, where `found` is the program that the search
/// path gives for its first word. That there is none is told on the standard error of the shell.
pub fn launch_in_background(args: &Vec<String>, found: Option<String>, redirect: &Redirect) -> (r:
    Launch)
    requires
        args.len() > 0 || found is None,
    ensures
        r.deep_view() == launch_of(
            args.deep_view(),
            found.deep_view(),
            redirect.deep_view(),
            RedirectView::none(),
        ),
{
    match found {
        Some(program) => Launch::Start(program_call(program, args, redirect)),
        None => {
            let mut text = if args.len() > 0 {
                assert(args.deep_view()[0] == args@[0]@);
                args[0].clone()
            } else {
                String::new()
            };
            text.append(": command not found");
            let plain: Redirect = Default::default();
            Launch::Missing(write_error(text.as_str(), &plain))
        },
    }
}

/// How a process of the shell ends that was to become another program.
#[derive(Clone, Copy, Debug, PartialEq, Eq, Structural)]
pub enum ChildEnd {
    /// It did what it had to.
    Done,
    /// The program could not be started.
    NotStarted,
    /// There is no such program.
    NotFound,
}

/// The status of a process that ends in this way.
pub open spec fn end_status(end: ChildEnd) -> i32 {
    match end {
        ChildEnd::Done => 0,
        ChildEnd::NotStarted => 1,
        ChildEnd::NotFound => 127,
    }
}

/// The status of a process that ends in this way.
pub fn exit_status(end: ChildEnd) -> (r: i32)
    ensures
        r == end_status(end),
{
    match end {
        ChildEnd::Done => 0,
        ChildEnd::NotStarted => 1,
        ChildEnd::NotFound => 127,
    }
}

/// How a process ends that was to become the program of a command, where it is still there after
/// that: the program could not be started, or there is none.
pub open spec fn end_of_launch(launch: LaunchView) -> ChildEnd {
    match launch {
        LaunchView::Start(_) => ChildEnd::NotStarted,
        LaunchView::Missing(_) => ChildEnd::NotFound,
    }
}

/// How a process ends that was to become the program of a command, where it is still there after
/// that.
pub fn launch_end(launch: &Launch) -> (r: ChildEnd)
    ensures
        r == end_of_launch(launch.deep_view()),
{
    match launch {
        Launch::Start(_) => ChildEnd::NotStarted,
        Launch::Missing(_) => ChildEnd::NotFound,
    }
}

/// The status with which the process of a segment ends once it has done its step. One that becomes
/// a program gets its status from elsewhere.
pub open spec fn status_after_step(step: StepView) -> Option<i32> {
    match step {
        StepView::Exit(status) => Some(status),
        StepView::StartProgram(_) => None,
        _ => Some(end_status(ChildEnd::Done)),
    }
}

/// The status with which the process of a segment ends once it has done its step; `None` where it
/// becomes a program.
pub fn segment_end(step: &Step) -> (r: Option<i32>)
    ensures
        r == status_after_step(step.deep_view()),
{
    match step {
        Step::Exit(status) => Some(*status),
        Step::StartProgram(_) => None,
        _ => Some(exit_status(ChildEnd::Done)),
    }
}

/// What a segment of a pipeline does in its own process. Apart from starting a program, which takes
/// the process over, the process ends after it.
pub open spec fn segment_step(args: Seq<Seq<char>>, redirect: RedirectView) -> StepView {
    if args.len() == 0 {
        StepView::Exit(end_status(ChildEnd::Done))
    } else if args[0] == "echo"@ {
        StepView::Say(output_line(joined(args.skip(1), ' '), redirect))
    } else if args[0] == "type"@ {
        if args.len() > 1 {
            StepView::DescribeType(args[1])
        } else {
            StepView::Exit(end_status(ChildEnd::Done))
        }
    } else if args[0] == "pwd"@ {
        StepView::ShowDirectory
    } else if args[0] == "history"@ {
        StepView::ManageHistory(args.skip(1))
    } else if args[0] == "exit"@ {
        StepView::Exit(end_status(ChildEnd::Done))
    } else {
        StepView::StartProgram(args)
    }
}

/// Decides what a segment of a pipeline does in its own process. The builtin commands `cd`,
/// `complete` and `jobs`, which need the state of the shell, are not among its commands.
pub fn exec_segment_in_child(args: Vec<String>, redirect: &Redirect) -> (r: Step)
    ensures
        r.deep_view() == segment_step(args.deep_view(), redirect.deep_view()),
{
    if args.len() == 0 {
        return Step::Exit(exit_status(ChildEnd::Done));
    }
    let name = args[0].clone();
    let cmd = name.as_str();
    assert(args.deep_view()[0] == cmd@);
    if same_text(cmd, "echo") {
        Step::Say(echo(&args, redirect))
    } else if same_text(cmd, "type") {
        if args.len() > 1 {
            assert(args.deep_view()[1] == args@[1]@);
            Step::DescribeType(args[1].clone())
        } else {
            Step::Exit(exit_status(ChildEnd::Done))
        }
    } else if same_text(cmd, "pwd") {
        Step::ShowDirectory
    } else if same_text(cmd, "history") {
        Step::ManageHistory(words_behind(args))
    } else if same_text(cmd, "exit") {
        Step::Exit(exit_status(ChildEnd::Done))
    } else {
        Step::StartProgram(args)
    }
}

/// A command is looked for among the programs exactly when it is not builtin, so that `type` tells
/// the truth about builtin commands.
pub proof fn law_builtins_start_no_program(args: Seq<Seq<char>>, redirect: RedirectView)
    requires
        args.len() > 0,
    ensures
        command_step(args, redirect) is StartProgram <==> !builtin(args[0]),
{
    law_builtin_commands(args[0]);
}

/// A segment of a pipeline does what the same command does when it stands alone, and ends where
/// that would do nothing. Only `cd`, `complete` and `jobs`, which need the state of the shell, are
/// looked for among the programs instead.
pub proof fn law_segment_acts_alike(args: Seq<Seq<char>>, redirect: RedirectView)
    ensures
        match command_step(args, redirect) {
            StepView::Nothing => segment_step(args, redirect) == StepView::Exit(0),
            StepView::ChangeDirectory(_) => segment_step(args, redirect) == StepView::StartProgram(args),
            StepView::ManageCompletions(_) => segment_step(args, redirect) == StepView::StartProgram(
                args,
            ),
            StepView::ListJobs => segment_step(args, redirect) == StepView::StartProgram(args),
            same => segment_step(args, redirect) == same,
        },
{
    reveal_strlit("echo");
    reveal_strlit("exit");
    reveal_strlit("type");
    reveal_strlit("pwd");
    reveal_strlit("history");
    reveal_strlit("cd");
    reveal_strlit("complete");
    reveal_strlit("jobs");
    assert("exit"@[1] != "echo"@[1]);
    assert("exit"@[0] != "type"@[0]);
    assert("exit"@.len() != "pwd"@.len());
    assert("history"@.len() == 7);
}

/// A segment of a pipeline that does not become a program always ends well.
pub proof fn law_segment_ends_well(args: Seq<Seq<char>>, redirect: RedirectView)
    ensures
        status_after_step(segment_step(args, redirect)) == (if segment_step(
            args,
            redirect,
        ) is StartProgram {
            None
        } else {
            Some(0i32)
        }),
{
}

/// A program that is found is started as it was called: under the name that was typed, with the
/// other words as its arguments, and with the streams that its command is redirected to. It reads
/// from the pipe before it where there is one. Its output goes to the file where there is one, else
/// to the pipe behind it where there is one; its errors go to their file where there is one.
pub proof fn law_program_is_started_as_called(
    args: Seq<Seq<char>>,
    program: Seq<char>,
    redirect: RedirectView,
    complaints: RedirectView,
)
    requires
        args.len() > 0,
    ensures
        launch_of(args, Some(program), redirect, complaints) matches LaunchView::Start(call) && {
            &&& call.program == program
            &&& seq![call.arg0] + call.args == args
            &&& call.stdio.stdin == redirect.pipe_read_fd
            &&& redirect.stdout matches Some(path) ==> call.stdio.stdout == ChannelView::File(
                FileTargetView { path, append: redirect.stdout_append },
            )
            &&& redirect.stdout is None && redirect.pipe_write_fd is Some ==> call.stdio.stdout
                == ChannelView::Fd(redirect.pipe_write_fd->0)
            &&& redirect.stdout is None && redirect.pipe_write_fd is None ==> call.stdio.stdout
                == ChannelView::Inherit
            &&& redirect.stderr matches Some(path) ==> call.stdio.stderr == ChannelView::File(
                FileTargetView { path, append: redirect.stderr_append },
            )
            &&& redirect.stderr is None ==> call.stdio.stderr == ChannelView::Inherit
        },
{
    assert(seq![args[0]] + args.skip(1) == args);
}

/// Where there is no program, nothing is started, and the command is told to be missing by the name
/// that was typed, on the standard error.
pub proof fn law_missing_program_is_told(
    args: Seq<Seq<char>>,
    redirect: RedirectView,
    complaints: RedirectView,
)
    requires
        args.len() > 0,
    ensures
        launch_of(args, None, redirect, complaints) matches LaunchView::Missing(message) && {
            &&& message.stream == Stream::Stderr
            &&& message.text == args[0] + ": command not found"@ + seq!['\n']
            &&& complaints.stderr is None ==> message.channel == ChannelView::Inherit
            &&& complaints.stderr matches Some(path) ==> message.channel == ChannelView::File(
                FileTargetView { path, append: complaints.stderr_append },
            )
        },
{
    let text = args[0] + ": command not found"@;
    assert(text.push('\n') == text + seq!['\n']);
}

/// A process that was to become a program and is still there ends with a status that tells why.
pub proof fn law_failed_launches_are_told_apart(call: ProgramCallView, message: MessageView)
    ensures
        end_status(end_of_launch(LaunchView::Start(call))) == 1,
        end_status(end_of_launch(LaunchView::Missing(message))) == 127,
{
}

/// Each builtin command does what it is there for, with the words behind its name; and nothing but
/// its name decides which it is.
pub proof fn law_builtins_do_their_work(words: Seq<Seq<char>>, redirect: RedirectView)
    ensures
        command_step(seq!["exit"@] + words, redirect) == StepView::Exit(0),
        command_step(seq!["echo"@] + words, redirect) matches StepView::Say(message) && {
            &&& message.stream == Stream::Stdout
            &&& message.text == joined(words, ' ') + seq!['\n']
            &&& message.channel == redirect.stdio().stdout
        },
        words.len() > 0 ==> command_step(seq!["type"@] + words, redirect) == StepView::DescribeType(
            words[0],
        ),
        command_step(seq!["type"@], redirect) is Nothing,
        command_step(seq!["pwd"@] + words, redirect) is ShowDirectory,
        command_step(seq!["cd"@] + words, redirect) == StepView::ChangeDirectory(words),
        command_step(seq!["jobs"@] + words, redirect) is ListJobs,
        command_step(seq!["complete"@] + words, redirect) == StepView::ManageCompletions(words),
        command_step(seq!["history"@] + words, redirect) == StepView::ManageHistory(words),
        words.len() > 0 && !builtin(words[0]) ==> command_step(words, redirect)
            == StepView::StartProgram(words),
        command_step(seq![], redirect) is Nothing,
{
    lemma_builtins_apart();
    if words.len() > 0 {
        law_builtin_commands(words[0]);
    }
    assert((seq!["exit"@] + words)[0] == "exit"@);
    let echo = seq!["echo"@] + words;
    assert(echo[0] == "echo"@ && echo.skip(1) == words);
    assert(joined(words, ' ').push('\n') == joined(words, ' ') + seq!['\n']);
    let kind = seq!["type"@] + words;
    assert(kind[0] == "type"@ && (words.len() > 0 ==> kind[1] == words[0]));
    assert(seq!["type"@][0] == "type"@);
    assert((seq!["pwd"@] + words)[0] == "pwd"@);
    let cd = seq!["cd"@] + words;
    assert(cd[0] == "cd"@ && cd.skip(1) == words);
    assert((seq!["jobs"@] + words)[0] == "jobs"@);
    let complete = seq!["complete"@] + words;
    assert(complete[0] == "complete"@ && complete.skip(1) == words);
    let history = seq!["history"@] + words;
    assert(history[0] == "history"@ && history.skip(1) == words);
}

proof fn lemma_builtins_apart()
    ensures
        "echo"@ != "exit"@,
        "type"@ != "exit"@ && "type"@ != "echo"@,
        "jobs"@ != "exit"@ && "jobs"@ != "echo"@ && "jobs"@ != "type"@,
        "pwd"@.len() == 3,
        "cd"@.len() == 2,
        "complete"@.len() == 8,
        "history"@.len() == 7,
        "exit"@.len() == 4 && "echo"@.len() == 4 && "type"@.len() == 4 && "jobs"@.len() == 4,
{
    reveal_strlit("echo");
    reveal_strlit("exit");
    reveal_strlit("type");
    reveal_strlit("pwd");
    reveal_strlit("history");
    reveal_strlit("cd");
    reveal_strlit("complete");
    reveal_strlit("jobs");
    assert("echo"@[1] == 'c' && "exit"@[1] == 'x' && "type"@[1] == 'y' && "jobs"@[1] == 'o');
}

/// The files of a command come into being before it is carried out, whatever the command is, as long
/// as there is one.
pub proof fn law_files_are_made_for_every_command(args: Seq<Seq<char>>, redirect: RedirectView)
    ensures
        args.len() > 0 && redirect.stdout is Some ==> command_files(args, redirect).contains(
            FileTargetView { path: redirect.stdout->0, append: redirect.stdout_append },
        ),
        args.len() > 0 && redirect.stderr is Some ==> command_files(args, redirect).contains(
            FileTargetView { path: redirect.stderr->0, append: redirect.stderr_append },
        ),
        args.len() == 0 || (redirect.stdout is None && redirect.stderr is None) ==> command_files(
            args,
            redirect,
        ).len() == 0,
{
    law_redirected_files_are_made(redirect);
    let files = redirect.files();
    if redirect.stdout is Some {
        assert(files.contains(files[0]));
    }
    if redirect.stderr is Some {
        assert(files.contains(files[files.len() - 1]));
    }
}

/// A program that could not be started is named, on the standard error of its command.
pub proof fn law_failed_program_is_named(target: Seq<char>, redirect: RedirectView)
    ensures
        execution_failure(target, redirect).stream == Stream::Stderr,
        execution_failure(target, redirect).text == target + ": exec error"@ + seq!['\n'],
        execution_failure(target, redirect).channel == redirect.stdio().stderr,
{
    let text = target + ": exec error"@;
    assert(text.push('\n') == text + seq!['\n']);
}

} // verus!
