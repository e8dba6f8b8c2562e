use shell_core::lexer::{parse_args, parse_pipeline, Quoting, Role};
use shell_core::pipeline::{
    child_closes, connect_stage, parent_closes, parent_closes_last, parse_line, parse_stage,
    pipe_count, plan_line, status_after, Pipe, Plan, ReadFailure,
};
use shell_core::redirect::{
    apply_redirect, ensure_redirect_files, open_file_for_write, read_operator, split_redirect,
    write_error, write_output, Channel, Operator, Redirect, Stream,
};

fn owned(words: &[&str]) -> Vec<String> {
    words.iter().map(|w| w.to_string()).collect()
}

#[test]
fn pipeline_is_split_at_bars() {
    assert_eq!(parse_pipeline("ls -l | wc"), vec!["ls -l", "wc"]);
    assert_eq!(parse_pipeline("a|b|c"), vec!["a", "b", "c"]);
    assert_eq!(parse_pipeline("cat"), vec!["cat"]);
}

#[test]
fn quoted_and_escaped_bars_do_not_split() {
    assert_eq!(parse_pipeline("echo 'a|b' | wc"), vec!["echo 'a|b'", "wc"]);
    assert_eq!(parse_pipeline("echo \"a|b\""), vec!["echo \"a|b\""]);
    assert_eq!(parse_pipeline(r"echo a\|b"), vec![r"echo a\|b"]);
    assert_eq!(parse_pipeline(r"echo '\' | wc"), vec![r"echo '\'", "wc"]);
    assert_eq!(parse_pipeline("echo \"'\" | wc"), vec!["echo \"'\"", "wc"]);
}

#[test]
fn blank_segments() {
    assert!(parse_pipeline("").is_empty());
    assert!(parse_pipeline("   ").is_empty());
    assert_eq!(parse_pipeline("a ||b"), vec!["a", "", "b"]);
    assert_eq!(parse_pipeline("|a"), vec!["", "a"]);
    assert_eq!(parse_pipeline("a | "), vec!["a"]);
    assert_eq!(parse_pipeline("'a | b"), vec!["'a | b"]);
}

#[test]
fn words_of_a_command() {
    assert_eq!(parse_args("echo  hello\tworld "), owned(&["echo", "hello", "world"]));
    assert_eq!(parse_args(""), owned(&[]));
    assert_eq!(parse_args("a\u{3000}b"), owned(&["a\u{3000}b"]));
    assert_eq!(parse_args("''"), owned(&[]));
    assert_eq!(parse_args("a'' b"), owned(&["a", "b"]));
}

#[test]
fn quotes_and_escapes() {
    assert_eq!(parse_args("echo 'a  b' c"), owned(&["echo", "a  b", "c"]));
    assert_eq!(parse_args("echo \"a 'b' c\""), owned(&["echo", "a 'b' c"]));
    assert_eq!(parse_args(r"a\ b \\ \'"), owned(&["a b", r"\", "'"]));
    assert_eq!(parse_args(r"'a\b'"), owned(&[r"a\b"]));
    assert_eq!(parse_args(r#""a\"b\n""#), owned(&["a\"bn"]));
    assert_eq!(parse_args("a'b'\"c\"d"), owned(&["abcd"]));
    assert_eq!(parse_args(r"a\"), owned(&["a"]));
}

#[test]
fn quoted_text_comes_back() {
    let text = "a | b > c & \\ \"x\"\t";
    assert_eq!(parse_args(&format!("'{}'", text)), owned(&[text]));
    assert_eq!(parse_args("\"a | 'b' > c\""), owned(&["a | 'b' > c"]));
    let escaped: String = text.chars().flat_map(|c| ['\\', c]).collect();
    assert_eq!(parse_args(&escaped), owned(&[text]));
    assert_eq!(parse_pipeline(&escaped).len(), 1);
}

#[test]
fn plain_words_and_segments_come_back() {
    let words = owned(&["tar", "-xf", "a.tgz", "é|x"]);
    assert_eq!(parse_args(&words.join(" ")), words);
    assert_eq!(parse_pipeline("a b||c d"), vec!["a b", "", "c d"]);
}

#[test]
fn quoting_states() {
    let start = Quoting::new();
    assert!(start.role_of(' ') == Role::Separator);
    assert!(start.role_of('"') == Role::Mark);
    assert!(start.role_of('x') == Role::Literal);
    let quoted = start.step('\'');
    assert!(quoted.single && !quoted.double && !quoted.escaped);
    assert!(quoted.role_of('\\') == Role::Literal);
    assert!(start.step('\\').role_of(' ') == Role::Literal);
}

#[test]
fn operators() {
    let op = |w: &str| read_operator(w);
    assert_eq!(op(">"), Some(Operator { stream: Stream::Stdout, append: false }));
    assert_eq!(op("1>"), Some(Operator { stream: Stream::Stdout, append: false }));
    assert_eq!(op(">>"), Some(Operator { stream: Stream::Stdout, append: true }));
    assert_eq!(op("1>>"), Some(Operator { stream: Stream::Stdout, append: true }));
    assert_eq!(op("2>"), Some(Operator { stream: Stream::Stderr, append: false }));
    assert_eq!(op("2>>"), Some(Operator { stream: Stream::Stderr, append: true }));
    assert_eq!(op("3>"), None);
    assert_eq!(op("<"), None);
}

#[test]
fn redirects_are_parted_from_words() {
    let (args, r) = split_redirect(owned(&["ls", ">", "out", "-l", "2>>", "err"]));
    assert_eq!(args, owned(&["ls", "-l"]));
    assert_eq!(r.stdout.as_deref(), Some("out"));
    assert!(!r.stdout_append);
    assert_eq!(r.stderr.as_deref(), Some("err"));
    assert!(r.stderr_append);
    assert_eq!(r.pipe_read_fd, None);
    assert_eq!(r.pipe_write_fd, None);
}

#[test]
fn last_redirect_wins() {
    let (args, r) = split_redirect(owned(&["a", ">>", "x", ">", "y"]));
    assert_eq!(args, owned(&["a"]));
    assert_eq!(r.stdout.as_deref(), Some("y"));
    assert!(!r.stdout_append);
}

#[test]
fn dangling_operator_redirects_nothing() {
    let (args, r) = split_redirect(owned(&["a", ">"]));
    assert_eq!(args, owned(&["a"]));
    assert_eq!(r.stdout, None);
    let (args, r) = split_redirect(owned(&[">", ">", "b"]));
    assert_eq!(args, owned(&["b"]));
    assert_eq!(r.stdout.as_deref(), Some(">"));
}

#[test]
fn no_operator_no_redirect() {
    let (args, r) = split_redirect(owned(&["a", "b"]));
    assert_eq!(args, owned(&["a", "b"]));
    assert_eq!(r.stdout, None);
    assert_eq!(r.stderr, None);
}

fn to_file(path: &str, append: bool) -> Redirect {
    let mut r = Redirect::default();
    r.stdout = Some(path.to_string());
    r.stdout_append = append;
    r
}

#[test]
fn output_goes_to_file_before_pipe() {
    let mut r = to_file("f", true);
    r.pipe_write_fd = Some(7);
    let m = write_output("hi", &r);
    assert_eq!(m.text, "hi\n");
    assert!(matches!(&m.channel, Channel::File(t) if t.path == "f" && t.append));
    assert!(matches!(&apply_redirect(&r).stdout, Channel::File(t) if t.path == "f" && t.append));
    r.stdout = None;
    assert!(matches!(write_output("hi", &r).channel, Channel::Fd(7)));
    assert!(matches!(apply_redirect(&r).stdout, Channel::Fd(7)));
    r.pipe_write_fd = None;
    assert!(matches!(write_output("hi", &r).channel, Channel::Inherit));
}

#[test]
fn errors_go_to_file_or_shell() {
    let mut r = Redirect::default();
    r.pipe_write_fd = Some(7);
    r.pipe_read_fd = Some(3);
    let m = write_error("no", &r);
    assert_eq!(m.text, "no\n");
    assert_eq!(m.stream, Stream::Stderr);
    assert!(matches!(m.channel, Channel::Inherit));
    r.stderr = Some("e".to_string());
    assert!(matches!(&write_error("no", &r).channel, Channel::File(t) if t.path == "e" && !t.append));
    let plan = apply_redirect(&r);
    assert_eq!(plan.stdin, Some(3));
    assert!(matches!(&plan.stderr, Channel::File(t) if t.path == "e"));
}

#[test]
fn redirect_files_are_opened() {
    let mut r = to_file("o", false);
    r.stderr = Some("e".to_string());
    r.stderr_append = true;
    let files = ensure_redirect_files(&r);
    assert_eq!(files.len(), 2);
    assert_eq!(files[0].path, "o");
    assert!(!files[0].append);
    assert_eq!(files[1].path, "e");
    assert!(files[1].append);
    assert!(ensure_redirect_files(&Redirect::default()).is_empty());
}

#[test]
fn open_modes() {
    let m = open_file_for_write(true);
    assert!(m.create && m.write && m.append && !m.truncate);
    let m = open_file_for_write(false);
    assert!(m.create && m.write && !m.append && m.truncate);
}

#[test]
fn stages_of_a_line() {
    let stages = parse_line("cat f 2> e | grep 'x y' >> out &");
    assert_eq!(stages.len(), 2);
    assert_eq!(stages[0].args, owned(&["cat", "f"]));
    assert_eq!(stages[0].redirect.stderr.as_deref(), Some("e"));
    assert!(!stages[0].background);
    assert_eq!(stages[1].args, owned(&["grep", "x y"]));
    assert_eq!(stages[1].redirect.stdout.as_deref(), Some("out"));
    assert!(stages[1].redirect.stdout_append);
    assert!(stages[1].background);
}

#[test]
fn background_commands() {
    let stage = parse_stage("sleep 10 &");
    assert!(stage.background);
    assert_eq!(stage.args, owned(&["sleep", "10"]));
    let stage = parse_stage("sleep 10&");
    assert!(!stage.background);
    assert_eq!(stage.args, owned(&["sleep", "10&"]));
    let stage = parse_stage("&");
    assert!(stage.background);
    assert!(stage.args.is_empty());
}

#[test]
fn plans() {
    assert!(matches!(plan_line("  "), Plan::Nothing));
    assert!(matches!(plan_line("cd /"), Plan::Alone(s) if s.args == owned(&["cd", "/"])));
    assert!(matches!(plan_line("a | b | c"), Plan::Connected(v) if v.len() == 3));
}

fn three_pipes() -> Vec<Pipe> {
    vec![
        Pipe { read_fd: 3, write_fd: 4 },
        Pipe { read_fd: 5, write_fd: 6 },
        Pipe { read_fd: 7, write_fd: 8 },
    ]
}

#[test]
fn pipes_connect_neighbours() {
    assert_eq!(pipe_count(0), 0);
    assert_eq!(pipe_count(1), 0);
    assert_eq!(pipe_count(4), 3);
    let pipes = three_pipes();
    let first = connect_stage(Redirect::default(), &pipes, 0);
    assert_eq!((first.pipe_read_fd, first.pipe_write_fd), (None, Some(4)));
    let second = connect_stage(Redirect::default(), &pipes, 1);
    assert_eq!((second.pipe_read_fd, second.pipe_write_fd), (Some(3), Some(6)));
    let last = connect_stage(Redirect::default(), &pipes, 3);
    assert_eq!((last.pipe_read_fd, last.pipe_write_fd), (Some(7), None));
}

#[test]
fn children_close_what_is_not_theirs() {
    let pipes = three_pipes();
    assert_eq!(child_closes(&pipes, 0), vec![6, 8]);
    assert_eq!(child_closes(&pipes, 1), vec![4, 5, 8, 7]);
    assert_eq!(child_closes(&pipes, 3), vec![4, 3, 6, 5, 8]);
}

#[test]
fn the_shell_closes_pipes() {
    let pipes = three_pipes();
    assert_eq!(parent_closes(&pipes, 1), Some(6));
    assert_eq!(parent_closes(&pipes, 3), None);
    assert_eq!(parent_closes_last(&pipes), vec![3, 5, 7]);
}

#[test]
fn end_of_input_is_no_failure() {
    assert_eq!(status_after(ReadFailure::EndOfInput), 0);
    assert_eq!(status_after(ReadFailure::Interrupted), 0);
    assert_eq!(status_after(ReadFailure::Other), 1);
}

#[test]
fn lines_and_words_are_joined() {
    assert_eq!(parse_pipeline("a '|' |b |c"), vec!["a '|'", "b", "c"]);
    assert_eq!(parse_pipeline("a '|' | b")[..1], parse_pipeline("a '|'")[..]);
    for segment in parse_pipeline(r"  x\| y '|' |z\ |w") {
        assert_eq!(parse_pipeline(segment), vec![segment]);
    }
    assert_eq!(parse_args("'a b'\tc"), owned(&["a b", "c"]));
    assert_eq!(parse_args(r"\a\ \| \'"), owned(&["a |", "'"]));
}
