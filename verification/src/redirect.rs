//! Where a command reads from and writes to.

use vstd::prelude::*;
use vstd::string::*;

use crate::text::same_text;

verus! {

/// One of the two output streams of a command.
#[derive(Clone, Copy, Debug, PartialEq, Eq, Structural)]
pub enum Stream {
    Stdout,
    Stderr,
}

/// An operator that redirects an output stream to a file.
#[derive(Clone, Copy, Debug, PartialEq, Eq, Structural)]
pub struct Operator {
    pub stream: Stream,
    pub append: bool,
}

/// The operator that a word is: `>` and `1>` write the standard output to a file, `2>` the
/// standard error; a doubled `>` appends.
pub open spec fn operator_of(word: Seq<char>) -> Option<Operator> {
    if word == seq!['>'] || word == seq!['1', '>'] {
        Some(Operator { stream: Stream::Stdout, append: false })
    } else if word == seq!['>', '>'] || word == seq!['1', '>', '>'] {
        Some(Operator { stream: Stream::Stdout, append: true })
    } else if word == seq!['2', '>'] {
        Some(Operator { stream: Stream::Stderr, append: false })
    } else if word == seq!['2', '>', '>'] {
        Some(Operator { stream: Stream::Stderr, append: true })
    } else {
        None
    }
}

/// The operator that the word is, if it is one.
pub fn read_operator(word: &str) -> (r: Option<Operator>)
    ensures
        r == operator_of(word@),
{
    proof {
        reveal_strlit(">");
        reveal_strlit("1>");
        reveal_strlit(">>");
        reveal_strlit("1>>");
        reveal_strlit("2>");
        reveal_strlit("2>>");
        assert(">"@ == seq!['>']);
        assert("1>"@ == seq!['1', '>']);
        assert(">>"@ == seq!['>', '>']);
        assert("1>>"@ == seq!['1', '>', '>']);
        assert("2>"@ == seq!['2', '>']);
        assert("2>>"@ == seq!['2', '>', '>']);
    }
    if same_text(word, ">") || same_text(word, "1>") {
        Some(Operator { stream: Stream::Stdout, append: false })
    } else if same_text(word, ">>") || same_text(word, "1>>") {
        Some(Operator { stream: Stream::Stdout, append: true })
    } else if same_text(word, "2>") {
        Some(Operator { stream: Stream::Stderr, append: false })
    } else if same_text(word, "2>>") {
        Some(Operator { stream: Stream::Stderr, append: true })
    } else {
        None
    }
}

/// The redirections of one command: files by their paths, pipes by their descriptors.
#[derive(Debug)]
pub struct Redirect {
    pub stdout: Option<String>,
    pub stdout_append: bool,
    pub stderr: Option<String>,
    pub stderr_append: bool,
    pub pipe_read_fd: Option<i32>,
    pub pipe_write_fd: Option<i32>,
}

/// What a [`Redirect`] holds.
#[verifier::ext_equal]
pub struct RedirectView {
    pub stdout: Option<Seq<char>>,
    pub stdout_append: bool,
    pub stderr: Option<Seq<char>>,
    pub stderr_append: bool,
    pub pipe_read_fd: Option<i32>,
    pub pipe_write_fd: Option<i32>,
}

impl DeepView for Redirect {
    type V = RedirectView;

    open spec fn deep_view(&self) -> RedirectView {
        RedirectView {
            stdout: self.stdout.deep_view(),
            stdout_append: self.stdout_append,
            stderr: self.stderr.deep_view(),
            stderr_append: self.stderr_append,
            pipe_read_fd: self.pipe_read_fd,
            pipe_write_fd: self.pipe_write_fd,
        }
    }
}

impl RedirectView {
    /// No redirection at all.
    pub open spec fn none() -> RedirectView {
        RedirectView {
            stdout: None,
            stdout_append: false,
            stderr: None,
            stderr_append: false,
            pipe_read_fd: None,
            pipe_write_fd: None,
        }
    }

    /// The same, with one more redirection to a file.
    pub open spec fn with_file(self, operator: Operator, path: Seq<char>) -> RedirectView {
        match operator.stream {
            Stream::Stdout => RedirectView {
                stdout: Some(path),
                stdout_append: operator.append,
                ..self
            },
            Stream::Stderr => RedirectView {
                stderr: Some(path),
                stderr_append: operator.append,
                ..self
            },
        }
    }
}

impl Default for Redirect {
    fn default() -> (r: Redirect)
        ensures
            r.deep_view() == RedirectView::none(),
    {
        Redirect {
            stdout: None,
            stdout_append: false,
            stderr: None,
            stderr_append: false,
            pipe_read_fd: None,
            pipe_write_fd: None,
        }
    }
}

/// An operator with the path that follows it.
pub struct Redirection {
    pub operator: Operator,
    pub path: Seq<char>,
}

/// The words from position `i` on that belong to the command itself: those that are neither
/// operators nor the paths right after them.
pub open spec fn words_from(args: Seq<Seq<char>>, i: int) -> Seq<Seq<char>>
    decreases args.len() + 1 - i,
{
    if i >= args.len() {
        seq![]
    } else if operator_of(args[i]) is Some {
        words_from(args, i + 2)
    } else {
        seq![args[i]] + words_from(args, i + 1)
    }
}

/// The redirections from position `i` on. An operator that nothing follows redirects nothing.
pub open spec fn redirections_from(args: Seq<Seq<char>>, i: int) -> Seq<Redirection>
    decreases args.len() - i,
{
    if i >= args.len() {
        seq![]
    } else {
        match operator_of(args[i]) {
            Some(operator) => if i + 1 < args.len() {
                seq![Redirection { operator, path: args[i + 1] }] + redirections_from(args, i + 2)
            } else {
                seq![]
            },
            None => redirections_from(args, i + 1),
        }
    }
}

/// The outcome of redirections that are made one after the other.
pub open spec fn redirected(list: Seq<Redirection>) -> RedirectView
    decreases list.len(),
{
    if list.len() == 0 {
        RedirectView::none()
    } else {
        redirected(list.drop_last()).with_file(list.last().operator, list.last().path)
    }
}

/// Parts the words of a command from its redirections to files. Of several redirections of one
/// stream the last one holds.
pub fn split_redirect(args: Vec<String>) -> (r: (Vec<String>, Redirect))
    ensures
        r.0.deep_view() == words_from(args.deep_view(), 0),
        r.1.deep_view() == redirected(redirections_from(args.deep_view(), 0)),
{
    let mut cmd_args: Vec<String> = Vec::new();
    let mut redirect: Redirect = Default::default();
    let mut i: usize = 0;
    let ghost all = args.deep_view();
    let ghost mut made = Seq::<Redirection>::empty();
    proof {
        assert(cmd_args.deep_view() + words_from(all, 0) == words_from(all, 0));
        assert(made + redirections_from(all, 0) == redirections_from(all, 0));
    }
    while i < args.len()
        invariant
            i <= args.len(),
            all == args.deep_view(),
            cmd_args.deep_view() + words_from(all, i as int) == words_from(all, 0),
            made + redirections_from(all, i as int) == redirections_from(all, 0),
            redirect.deep_view() == redirected(made),
        decreases args.len() - i,
    {
        assert(all[i as int] == args@[i as int]@);
        match read_operator(args[i].as_str()) {
            None => {
                let ghost done = cmd_args.deep_view();
                cmd_args.push(args[i].clone());
                proof {
                    assert(cmd_args.deep_view() == done.push(all[i as int]));
                    assert(done + (seq![all[i as int]] + words_from(all, i + 1)) == done.push(
                        all[i as int],
                    ) + words_from(all, i + 1));
                }
                i += 1;
            },
            Some(operator) => {
                if i + 1 < args.len() {
                    let path = args[i + 1].clone();
                    proof {
                        let next = Redirection { operator, path: path@ };
                        assert(path@ == all[i + 1]);
                        assert(made + (seq![next] + redirections_from(all, i + 2)) == made.push(next)
                            + redirections_from(all, i + 2));
                        assert(made.push(next).drop_last() == made);
                        made = made.push(next);
                    }
                    match operator.stream {
                        Stream::Stdout => {
                            redirect.stdout = Some(path);
                            redirect.stdout_append = operator.append;
                        },
                        Stream::Stderr => {
                            redirect.stderr = Some(path);
                            redirect.stderr_append = operator.append;
                        },
                    }
                    i += 2;
                } else {
                    assert(words_from(all, i + 2) == words_from(all, i + 1));
                    assert(redirections_from(all, i + 1) == redirections_from(all, i as int));
                    i += 1;
                }
            },
        }
    }
    assert(cmd_args.deep_view() + Seq::<Seq<char>>::empty() == cmd_args.deep_view());
    assert(made + Seq::<Redirection>::empty() == made);
    (cmd_args, redirect)
}

/// How a file is opened to be written.
#[derive(Clone, Copy, Debug, PartialEq, Eq, Structural)]
pub struct OpenMode {
    pub create: bool,
    pub write: bool,
    pub append: bool,
    pub truncate: bool,
}

/// A file is created where there is none; one that is not appended to loses what it held.
pub fn open_file_for_write(append: bool) -> (r: OpenMode)
    ensures
        r == (OpenMode { create: true, write: true, append, truncate: !append }),
{
    OpenMode { create: true, write: true, append, truncate: !append }
}

/// A file to be written.
#[derive(Debug)]
pub struct FileTarget {
    pub path: String,
    pub append: bool,
}

/// What a [`FileTarget`] holds.
#[verifier::ext_equal]
pub struct FileTargetView {
    pub path: Seq<char>,
    pub append: bool,
}

impl DeepView for FileTarget {
    type V = FileTargetView;

    open spec fn deep_view(&self) -> FileTargetView {
        FileTargetView { path: self.path@, append: self.append }
    }
}

/// Where an output stream goes.
#[derive(Debug)]
pub enum Channel {
    /// Where that of the shell goes.
    Inherit,
    /// To an open descriptor.
    Fd(i32),
    /// To a file.
    File(FileTarget),
}

/// What a [`Channel`] holds.
pub enum ChannelView {
    Inherit,
    Fd(i32),
    File(FileTargetView),
}

impl DeepView for Channel {
    type V = ChannelView;

    open spec fn deep_view(&self) -> ChannelView {
        match self {
            Channel::Inherit => ChannelView::Inherit,
            Channel::Fd(fd) => ChannelView::Fd(*fd),
            Channel::File(target) => ChannelView::File(target.deep_view()),
        }
    }
}

impl RedirectView {
    /// The standard output goes to the file if there is one, else to the pipe if there is one.
    pub open spec fn stdout_channel(self) -> ChannelView {
        match self.stdout {
            Some(path) => ChannelView::File(FileTargetView { path, append: self.stdout_append }),
            None => match self.pipe_write_fd {
                Some(fd) => ChannelView::Fd(fd),
                None => ChannelView::Inherit,
            },
        }
    }

    /// The standard error goes to the file if there is one.
    pub open spec fn stderr_channel(self) -> ChannelView {
        match self.stderr {
            Some(path) => ChannelView::File(FileTargetView { path, append: self.stderr_append }),
            None => ChannelView::Inherit,
        }
    }

    /// The files that the command writes to, the standard output's first.
    pub open spec fn files(self) -> Seq<FileTargetView> {
        let out = match self.stdout {
            Some(path) => seq![FileTargetView { path, append: self.stdout_append }],
            None => seq![],
        };
        let err = match self.stderr {
            Some(path) => seq![FileTargetView { path, append: self.stderr_append }],
            None => seq![],
        };
        out + err
    }
}

impl Redirect {
    fn stdout_channel(&self) -> (r: Channel)
        ensures
            r.deep_view() == self.deep_view().stdout_channel(),
    {
        match &self.stdout {
            Some(path) => Channel::File(
                FileTarget { path: path.clone(), append: self.stdout_append },
            ),
            None => match self.pipe_write_fd {
                Some(fd) => Channel::Fd(fd),
                None => Channel::Inherit,
            },
        }
    }

    fn stderr_channel(&self) -> (r: Channel)
        ensures
            r.deep_view() == self.deep_view().stderr_channel(),
    {
        match &self.stderr {
            Some(path) => Channel::File(
                FileTarget { path: path.clone(), append: self.stderr_append },
            ),
            None => Channel::Inherit,
        }
    }
}

/// A text that the shell itself writes on behalf of a command.
#[derive(Debug)]
pub struct Message {
    pub stream: Stream,
    pub channel: Channel,
    pub text: String,
}

/// What a [`Message`] holds.
pub struct MessageView {
    pub stream: Stream,
    pub channel: ChannelView,
    pub text: Seq<char>,
}

impl DeepView for Message {
    type V = MessageView;

    open spec fn deep_view(&self) -> MessageView {
        MessageView {
            stream: self.stream,
            channel: self.channel.deep_view(),
            text: self.text@,
        }
    }
}

/// A line of standard output, under the given redirections.
pub open spec fn output_line(text: Seq<char>, redirect: RedirectView) -> MessageView {
    MessageView {
        stream: Stream::Stdout,
        channel: redirect.stdout_channel(),
        text: text.push('\n'),
    }
}

/// A line of standard error, under the given redirections.
pub open spec fn error_line(text: Seq<char>, redirect: RedirectView) -> MessageView {
    MessageView {
        stream: Stream::Stderr,
        channel: redirect.stderr_channel(),
        text: text.push('\n'),
    }
}

/// The message that writes `text` as a line of standard output.
pub fn write_output(text: &str, redirect: &Redirect) -> (r: Message)
    ensures
        r.deep_view() == output_line(text@, redirect.deep_view()),
{
    let mut line = text.to_owned();
    line.push('\n');
    Message { stream: Stream::Stdout, channel: redirect.stdout_channel(), text: line }
}

/// The message that writes `text` as a line of standard error.
pub fn write_error(text: &str, redirect: &Redirect) -> (r: Message)
    ensures
        r.deep_view() == error_line(text@, redirect.deep_view()),
{
    let mut line = text.to_owned();
    line.push('\n');
    Message { stream: Stream::Stderr, channel: redirect.stderr_channel(), text: line }
}

/// The three streams that a program is started with.
#[derive(Debug)]
pub struct StdioPlan {
    pub stdin: Option<i32>,
    pub stdout: Channel,
    pub stderr: Channel,
}

/// What a [`StdioPlan`] holds.
pub struct StdioPlanView {
    pub stdin: Option<i32>,
    pub stdout: ChannelView,
    pub stderr: ChannelView,
}

impl DeepView for StdioPlan {
    type V = StdioPlanView;

    open spec fn deep_view(&self) -> StdioPlanView {
        StdioPlanView {
            stdin: self.stdin,
            stdout: self.stdout.deep_view(),
            stderr: self.stderr.deep_view(),
        }
    }
}

impl RedirectView {
    /// The streams of a program that is started with these redirections.
    pub open spec fn stdio(self) -> StdioPlanView {
        StdioPlanView {
            stdin: self.pipe_read_fd,
            stdout: self.stdout_channel(),
            stderr: self.stderr_channel(),
        }
    }
}

/// The streams that a program is started with.
pub fn apply_redirect(redirect: &Redirect) -> (r: StdioPlan)
    ensures
        r.deep_view() == redirect.deep_view().stdio(),
{
    StdioPlan {
        stdin: redirect.pipe_read_fd,
        stdout: redirect.stdout_channel(),
        stderr: redirect.stderr_channel(),
    }
}

/// The files that are opened before a command runs: they come into being even if nothing is
/// written to them.
pub fn ensure_redirect_files(redirect: &Redirect) -> (r: Vec<FileTarget>)
    ensures
        r.deep_view() == redirect.deep_view().files(),
{
    let mut r: Vec<FileTarget> = Vec::new();
    if let Some(path) = &redirect.stdout {
        r.push(FileTarget { path: path.clone(), append: redirect.stdout_append });
    }
    if let Some(path) = &redirect.stderr {
        r.push(FileTarget { path: path.clone(), append: redirect.stderr_append });
    }
    assert(r.deep_view() == redirect.deep_view().files());
    r
}

/// A command with no operator among its words is left as it is, and is not redirected.
pub proof fn law_no_operator_no_redirect(args: Seq<Seq<char>>)
    requires
        forall|k: int| 0 <= k < args.len() ==> operator_of(#[trigger] args[k]) is None,
    ensures
        words_from(args, 0) == args,
        redirected(redirections_from(args, 0)) == RedirectView::none(),
{
    lemma_no_operator(args, 0);
    assert(args.skip(0) == args);
}

proof fn lemma_no_operator(args: Seq<Seq<char>>, i: int)
    requires
        0 <= i <= args.len(),
        forall|k: int| 0 <= k < args.len() ==> operator_of(#[trigger] args[k]) is None,
    ensures
        words_from(args, i) == args.skip(i),
        redirections_from(args, i).len() == 0,
    decreases args.len() - i,
{
    if i < args.len() {
        lemma_no_operator(args, i + 1);
        assert(args.skip(i) == seq![args[i]] + args.skip(i + 1));
    } else {
        assert(args.skip(i) == Seq::<Seq<char>>::empty());
    }
}

/// No operator is ever handed to a command as one of its words.
pub proof fn law_words_are_no_operators(args: Seq<Seq<char>>, i: int)
    ensures
        forall|k: int|
            0 <= k < words_from(args, i).len() ==> operator_of(#[trigger] words_from(args, i)[k]) is None,
    decreases args.len() + 1 - i,
{
    if i < args.len() {
        law_words_are_no_operators(args, i + 1);
        law_words_are_no_operators(args, i + 2);
    }
}

/// Whether the last word is an operator that lacks its path.
pub open spec fn dangling_from(args: Seq<Seq<char>>, i: int) -> bool
    decreases args.len() - i,
{
    if i >= args.len() {
        false
    } else if operator_of(args[i]) is Some {
        i + 1 >= args.len() || dangling_from(args, i + 2)
    } else {
        dangling_from(args, i + 1)
    }
}

proof fn lemma_append_redirection(args: Seq<Seq<char>>, word: Seq<char>, path: Seq<char>, i: int)
    requires
        0 <= i <= args.len(),
        !dangling_from(args, i),
        operator_of(word) is Some,
    ensures
        words_from(args.push(word).push(path), i) == words_from(args, i),
        redirections_from(args.push(word).push(path), i) == redirections_from(args, i).push(
            Redirection { operator: operator_of(word)->0, path },
        ),
    decreases args.len() - i,
{
    let longer = args.push(word).push(path);
    if i == args.len() {
        assert(longer[i] == word);
        assert(longer[i + 1] == path);
        assert(words_from(longer, i + 2) == Seq::<Seq<char>>::empty());
        assert(redirections_from(longer, i + 2) == Seq::<Redirection>::empty());
        let one = Redirection { operator: operator_of(word)->0, path };
        assert(seq![one] + Seq::<Redirection>::empty() == Seq::<Redirection>::empty().push(one));
    } else if operator_of(args[i]) is Some {
        lemma_append_redirection(args, word, path, i + 2);
        let one = Redirection { operator: operator_of(word)->0, path };
        let first = Redirection { operator: operator_of(args[i])->0, path: args[i + 1] };
        assert(seq![first] + redirections_from(args, i + 2).push(one) == (seq![first]
            + redirections_from(args, i + 2)).push(one));
    } else {
        lemma_append_redirection(args, word, path, i + 1);
    }
}

/// One more redirection at the end of a command adds no word to it, and replaces what the command
/// said before of that stream; the other stream is left alone.
pub proof fn law_last_redirection_wins(args: Seq<Seq<char>>, word: Seq<char>, path: Seq<char>)
    requires
        !dangling_from(args, 0),
        operator_of(word) is Some,
    ensures
        words_from(args.push(word).push(path), 0) == words_from(args, 0),
        redirected(redirections_from(args.push(word).push(path), 0)) == redirected(
            redirections_from(args, 0),
        ).with_file(operator_of(word)->0, path),
{
    lemma_append_redirection(args, word, path, 0);
    let list = redirections_from(args, 0);
    let one = Redirection { operator: operator_of(word)->0, path };
    assert(list.push(one).drop_last() == list);
}

/// What the shell writes for a command, and what a program that runs in its place writes, go to
/// the same place.
pub proof fn law_shell_and_program_agree(text: Seq<char>, redirect: RedirectView)
    ensures
        output_line(text, redirect).channel == redirect.stdio().stdout,
        error_line(text, redirect).channel == redirect.stdio().stderr,
{
}

/// Which words are operators, and what they say: a `>`, which may stand behind the number of its
/// stream, redirects the standard output, or the standard error where that number is two; a second
/// `>` appends. No other word is an operator.
pub proof fn law_operators_are_spelled_out(word: Seq<char>)
    ensures
        operator_of(word) matches Some(operator) ==> {
            &&& operator.stream == Stream::Stdout ==> word[0] == '>' || word[0] == '1'
            &&& operator.stream == Stream::Stderr ==> word[0] == '2'
            &&& word.last() == '>'
            &&& operator.append <==> word.len() > 1 && word[word.len() - 2] == '>'
            &&& word.len() == (if word[0] == '>' {
                1int
            } else {
                2int
            }) + (if operator.append {
                1int
            } else {
                0int
            })
        },
        forall|number: char, append: bool|
            (number == '1' || number == '2') ==> #[trigger] operator_of(
                numbered_operator(number, append),
            ) == Some(
                Operator {
                    stream: if number == '2' {
                        Stream::Stderr
                    } else {
                        Stream::Stdout
                    },
                    append,
                },
            ),
        operator_of(seq!['>']) == Some(Operator { stream: Stream::Stdout, append: false }),
        operator_of(seq!['>', '>']) == Some(Operator { stream: Stream::Stdout, append: true }),
{
    assert(seq!['>', '>'].len() == 2 && seq!['>'].len() == 1 && seq!['1', '>'][0] == '1');
    assert forall|number: char, append: bool| (number == '1' || number == '2') implies #[trigger] operator_of(
        numbered_operator(number, append),
    ) == Some(
        Operator {
            stream: if number == '2' {
                Stream::Stderr
            } else {
                Stream::Stdout
            },
            append,
        },
    ) by {
        let w = numbered_operator(number, append);
        assert(w[0] == number);
        assert(seq!['>'][0] == '>' && seq!['>', '>'][0] == '>' && seq!['1', '>'][0] == '1'
            && seq!['1', '>', '>'][0] == '1');
        assert(seq!['1', '>'].len() == 2 && seq!['1', '>', '>'].len() == 3 && seq!['2', '>'].len() == 2
            && seq!['2', '>', '>'].len() == 3);
    }
}

/// An operator that starts with the number of its stream.
pub open spec fn numbered_operator(number: char, append: bool) -> Seq<char> {
    if append {
        seq![number, '>', '>']
    } else {
        seq![number, '>']
    }
}

/// A stream that is not redirected goes to no file.
pub proof fn law_other_streams_are_left_alone(list: Seq<Redirection>, stream: Stream)
    requires
        forall|k: int| 0 <= k < list.len() ==> (#[trigger] list[k]).operator.stream != stream,
    ensures
        stream == Stream::Stdout ==> redirected(list).stdout is None,
        stream == Stream::Stderr ==> redirected(list).stderr is None,
    decreases list.len(),
{
    if list.len() > 0 {
        let front = list.drop_last();
        assert(list[list.len() - 1].operator.stream != stream);
        assert forall|k: int| 0 <= k < front.len() implies (#[trigger] front[k]).operator.stream
            != stream by {
            assert(front[k] == list[k]);
        }
        law_other_streams_are_left_alone(front, stream);
    }
}

/// A redirection to a file is no pipe.
pub proof fn law_files_are_no_pipes(list: Seq<Redirection>)
    ensures
        redirected(list).pipe_read_fd is None,
        redirected(list).pipe_write_fd is None,
    decreases list.len(),
{
    if list.len() > 0 {
        law_files_are_no_pipes(list.drop_last());
    }
}

/// Of the redirections of a stream the last one holds, with its own path and its own way to write.
pub proof fn law_last_of_a_stream_holds(list: Seq<Redirection>, k: int)
    requires
        0 <= k < list.len(),
        is_last_of_its_stream(list, k),
    ensures
        list[k].operator.stream == Stream::Stdout ==> redirected(list).stdout == Some(list[k].path)
            && redirected(list).stdout_append == list[k].operator.append,
        list[k].operator.stream == Stream::Stderr ==> redirected(list).stderr == Some(list[k].path)
            && redirected(list).stderr_append == list[k].operator.append,
    decreases list.len(),
{
    let n = list.len() - 1;
    if k < n {
        let front = list.drop_last();
        assert(list[n].operator.stream != list[k].operator.stream);
        assert forall|j: int| k < j < front.len() implies (#[trigger] front[j]).operator.stream
            != front[k].operator.stream by {
            assert(front[j] == list[j]);
        }
        law_last_of_a_stream_holds(front, k);
    }
}

/// Whether no later redirection is of the same stream.
pub open spec fn is_last_of_its_stream(list: Seq<Redirection>, k: int) -> bool {
    forall|j: int|
        k < j < list.len() ==> (#[trigger] list[j]).operator.stream != list[k].operator.stream
}

proof fn lemma_split_joined(a: Seq<Seq<char>>, b: Seq<Seq<char>>, i: int)
    requires
        0 <= i <= a.len(),
        !dangling_from(a, i),
    ensures
        words_from(a + b, i) == words_from(a, i) + words_from(a + b, a.len() as int),
        redirections_from(a + b, i) == redirections_from(a, i) + redirections_from(
            a + b,
            a.len() as int,
        ),
    decreases a.len() - i,
{
    let s = a + b;
    let n = a.len() as int;
    if i < n {
        assert(s[i] == a[i]);
        if operator_of(a[i]) is Some {
            assert(s[i + 1] == a[i + 1]);
            lemma_split_joined(a, b, i + 2);
            let one = Redirection { operator: operator_of(a[i])->0, path: a[i + 1] };
            assert(seq![one] + (redirections_from(a, i + 2) + redirections_from(s, n)) == seq![one]
                + redirections_from(a, i + 2) + redirections_from(s, n));
        } else {
            lemma_split_joined(a, b, i + 1);
            assert(seq![a[i]] + (words_from(a, i + 1) + words_from(s, n)) == seq![a[i]] + words_from(
                a,
                i + 1,
            ) + words_from(s, n));
        }
    } else {
        assert(words_from(a, i) + words_from(s, n) == words_from(s, n));
        assert(redirections_from(a, i) + redirections_from(s, n) == redirections_from(s, n));
    }
}

proof fn lemma_split_shifted(a: Seq<Seq<char>>, b: Seq<Seq<char>>, i: int)
    requires
        0 <= i <= b.len() + 1,
    ensures
        words_from(a + b, a.len() + i) == words_from(b, i),
        redirections_from(a + b, a.len() + i) == redirections_from(b, i),
    decreases b.len() + 1 - i,
{
    if i < b.len() {
        assert((a + b)[a.len() + i] == b[i]);
        if operator_of(b[i]) is Some {
            lemma_split_shifted(a, b, i + 2);
            if i + 1 < b.len() {
                assert((a + b)[a.len() + i + 1] == b[i + 1]);
            }
        } else {
            lemma_split_shifted(a, b, i + 1);
        }
    }
}

/// Words one after the other are parted one after the other: where the first ones do not end with an
/// operator that lacks its path, the words and the redirections of both come in order.
pub proof fn law_words_are_parted_in_order(a: Seq<Seq<char>>, b: Seq<Seq<char>>)
    requires
        !dangling_from(a, 0),
    ensures
        words_from(a + b, 0) == words_from(a, 0) + words_from(b, 0),
        redirections_from(a + b, 0) == redirections_from(a, 0) + redirections_from(b, 0),
{
    lemma_split_joined(a, b, 0);
    lemma_split_shifted(a, b, 0);
}

/// An operator takes the word behind it, whatever that is, as its path; an operator with nothing
/// behind it redirects nothing and is no word of the command; and any other word is one.
pub proof fn law_operator_takes_the_next_word(word: Seq<char>, path: Seq<char>)
    ensures
        operator_of(word) matches Some(operator) ==> {
            &&& words_from(seq![word, path], 0).len() == 0
            &&& redirections_from(seq![word, path], 0) == seq![Redirection { operator, path }]
            &&& words_from(seq![word], 0).len() == 0
            &&& redirections_from(seq![word], 0).len() == 0
        },
        operator_of(word) is None ==> words_from(seq![word], 0) == seq![word] && redirections_from(
            seq![word],
            0,
        ).len() == 0,
{
    reveal_with_fuel(words_from, 3);
    reveal_with_fuel(redirections_from, 3);
    let two = seq![word, path];
    assert(two[0] == word && two[1] == path);
    assert(seq![word] + Seq::<Seq<char>>::empty() == seq![word]);
    if let Some(operator) = operator_of(word) {
        let one = Redirection { operator, path };
        assert(seq![one] + Seq::<Redirection>::empty() == seq![one]);
    }
}

/// What the shell writes is a line: the text and a newline. It goes to the file that its stream is
/// redirected to, written as that redirection says; the standard output goes to the pipe where there
/// is no file but a pipe; else it goes where that of the shell goes.
pub proof fn law_messages_go_where_they_are_sent(text: Seq<char>, redirect: RedirectView)
    ensures
        output_line(text, redirect).text == text + seq!['\n'],
        error_line(text, redirect).text == text + seq!['\n'],
        output_line(text, redirect).stream == Stream::Stdout,
        error_line(text, redirect).stream == Stream::Stderr,
        redirect.stdout matches Some(path) ==> output_line(text, redirect).channel
            == ChannelView::File(FileTargetView { path, append: redirect.stdout_append }),
        redirect.stdout is None && redirect.pipe_write_fd is Some ==> output_line(
            text,
            redirect,
        ).channel == ChannelView::Fd(redirect.pipe_write_fd->0),
        redirect.stdout is None && redirect.pipe_write_fd is None ==> output_line(
            text,
            redirect,
        ).channel == ChannelView::Inherit,
        redirect.stderr matches Some(path) ==> error_line(text, redirect).channel
            == ChannelView::File(FileTargetView { path, append: redirect.stderr_append }),
        redirect.stderr is None ==> error_line(text, redirect).channel == ChannelView::Inherit,
{
    assert(text.push('\n') == text + seq!['\n']);
}

/// The files that come into being for a command are those that its streams are redirected to, each
/// written as its redirection says.
pub proof fn law_redirected_files_are_made(redirect: RedirectView)
    ensures
        redirect.stdout matches Some(path) ==> redirect.files().len() > 0 && redirect.files()[0]
            == (FileTargetView { path, append: redirect.stdout_append }),
        redirect.stderr matches Some(path) ==> redirect.files().len() > 0 && redirect.files().last()
            == (FileTargetView { path, append: redirect.stderr_append }),
        redirect.files().len() == (if redirect.stdout is Some {
            1int
        } else {
            0int
        }) + (if redirect.stderr is Some {
            1int
        } else {
            0int
        }),
{
}

/// Without redirections nothing is redirected.
pub proof fn law_none_redirects_nothing(text: Seq<char>)
    ensures
        RedirectView::none().stdio().stdin is None,
        RedirectView::none().stdio().stdout == ChannelView::Inherit,
        RedirectView::none().stdio().stderr == ChannelView::Inherit,
        RedirectView::none().files().len() == 0,
        output_line(text, RedirectView::none()).channel == ChannelView::Inherit,
        error_line(text, RedirectView::none()).channel == ChannelView::Inherit,
        redirected(Seq::empty()) == RedirectView::none(),
{
}

/// A part of a command: a word of it, or a redirection, written as an operator and a path.
pub enum Item {
    Word(Seq<char>),
    Redirection(Seq<char>, Seq<char>),
}

impl Item {
    /// Whether the item can be written down: a word must not be an operator, and an operator has to
    /// be one.
    pub open spec fn writable(self) -> bool {
        match self {
            Item::Word(word) => operator_of(word) is None,
            Item::Redirection(word, path) => operator_of(word) is Some,
        }
    }
}

/// A command, written down from its items.
pub open spec fn items_written(items: Seq<Item>) -> Seq<Seq<char>>
    decreases items.len(),
{
    if items.len() == 0 {
        seq![]
    } else {
        let before = items_written(items.drop_last());
        match items.last() {
            Item::Word(word) => before.push(word),
            Item::Redirection(word, path) => before.push(word).push(path),
        }
    }
}

/// The words among the items.
pub open spec fn item_words(items: Seq<Item>) -> Seq<Seq<char>>
    decreases items.len(),
{
    if items.len() == 0 {
        seq![]
    } else {
        let before = item_words(items.drop_last());
        match items.last() {
            Item::Word(word) => before.push(word),
            Item::Redirection(word, path) => before,
        }
    }
}

/// The redirections among the items.
pub open spec fn item_redirections(items: Seq<Item>) -> Seq<Redirection>
    decreases items.len(),
{
    if items.len() == 0 {
        seq![]
    } else {
        let before = item_redirections(items.drop_last());
        match items.last() {
            Item::Word(word) => before,
            Item::Redirection(word, path) => before.push(
                Redirection { operator: operator_of(word)->0, path },
            ),
        }
    }
}

proof fn lemma_nothing_dangles_behind(a: Seq<Seq<char>>, item: Item, i: int)
    requires
        0 <= i <= a.len(),
        !dangling_from(a, i),
        item.writable(),
    ensures
        item matches Item::Word(word) ==> !dangling_from(a.push(word), i),
        item matches Item::Redirection(word, path) ==> !dangling_from(a.push(word).push(path), i),
    decreases a.len() - i,
{
    let n = a.len() as int;
    let s = match item {
        Item::Word(word) => a.push(word),
        Item::Redirection(word, path) => a.push(word).push(path),
    };
    if i == n {
        reveal_with_fuel(dangling_from, 3);
        match item {
            Item::Word(word) => {
                assert(s[n] == word);
            },
            Item::Redirection(word, path) => {
                assert(s[n] == word);
            },
        }
    } else if operator_of(a[i]) is Some {
        assert(s[i] == a[i]);
        lemma_nothing_dangles_behind(a, item, i + 2);
    } else {
        assert(s[i] == a[i]);
        lemma_nothing_dangles_behind(a, item, i + 1);
    }
}

proof fn lemma_items(items: Seq<Item>)
    requires
        forall|i: int| 0 <= i < items.len() ==> (#[trigger] items[i]).writable(),
    ensures
        !dangling_from(items_written(items), 0),
        words_from(items_written(items), 0) == item_words(items),
        redirections_from(items_written(items), 0) == item_redirections(items),
    decreases items.len(),
{
    if items.len() > 0 {
        let front = items.drop_last();
        let item = items.last();
        assert(items[items.len() - 1] == item);
        assert forall|i: int| 0 <= i < front.len() implies (#[trigger] front[i]).writable() by {
            assert(front[i] == items[i]);
        }
        lemma_items(front);
        let a = items_written(front);
        lemma_nothing_dangles_behind(a, item, 0);
        match item {
            Item::Word(word) => {
                law_words_are_parted_in_order(a, seq![word]);
                law_operator_takes_the_next_word(word, word);
                assert(a + seq![word] == a.push(word));
                assert(item_words(front) + seq![word] == item_words(front).push(word));
                let none = redirections_from(seq![word], 0);
                assert(item_redirections(front) + none == item_redirections(front));
            },
            Item::Redirection(word, path) => {
                law_words_are_parted_in_order(a, seq![word, path]);
                law_operator_takes_the_next_word(word, path);
                assert(a + seq![word, path] == a.push(word).push(path));
                let none = words_from(seq![word, path], 0);
                assert(item_words(front) + none == item_words(front));
                let one = Redirection { operator: operator_of(word)->0, path };
                assert(item_redirections(front) + seq![one] == item_redirections(front).push(one));
            },
        }
    }
}

/// A command is what its items mean: it has the words among them, in their order, and it is
/// redirected as the redirections among them say, in their order. An operator with nothing behind it
/// at the end adds nothing.
pub proof fn law_command_is_what_is_meant(items: Seq<Item>, operator: Seq<char>)
    requires
        forall|i: int| 0 <= i < items.len() ==> (#[trigger] items[i]).writable(),
        operator_of(operator) is Some,
    ensures
        words_from(items_written(items), 0) == item_words(items),
        redirections_from(items_written(items), 0) == item_redirections(items),
        words_from(items_written(items).push(operator), 0) == item_words(items),
        redirections_from(items_written(items).push(operator), 0) == item_redirections(items),
{
    lemma_items(items);
    let a = items_written(items);
    law_words_are_parted_in_order(a, seq![operator]);
    law_operator_takes_the_next_word(operator, operator);
    assert(a + seq![operator] == a.push(operator));
    let no_words = words_from(seq![operator], 0);
    let no_redirections = redirections_from(seq![operator], 0);
    assert(item_words(items) + no_words == item_words(items));
    assert(item_redirections(items) + no_redirections == item_redirections(items));
}

} // verus!
