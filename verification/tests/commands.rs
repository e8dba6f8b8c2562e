use shell_core::builtins::{
    builtins_with_prefix, cd_target, handle_cd, handle_type, is_builtin, list_builtins, CdFailure,
};
use shell_core::command::{
    execute_external, execution_failed, exec_segment_in_child, exit_status, handle_command,
    launch_end, launch_in_background, segment_end, ChildEnd, Launch, Step,
};
use shell_core::completions::{handle_complete, Completions};
use shell_core::history::{
    add_to_history, handle_history, list_history, read_history, History, HistoryStep,
};
use shell_core::jobs::{
    add_job, enter_background, handle_jobs, reap_children, run_background, JobTable,
};
use shell_core::pipeline::parse_stage;
use shell_core::redirect::{Channel, Message, Redirect, Stream};

fn owned(words: &[&str]) -> Vec<String> {
    words.iter().map(|w| w.to_string()).collect()
}

fn texts(messages: &[Message]) -> Vec<String> {
    messages.iter().map(|m| m.text.clone()).collect()
}

fn plain() -> Redirect {
    Redirect::default()
}

#[test]
fn builtin_commands() {
    assert_eq!(
        list_builtins(),
        vec!["echo", "exit", "type", "pwd", "cd", "complete", "jobs", "history"]
    );
    assert!(is_builtin("history"));
    assert!(!is_builtin("ls"));
    assert!(!is_builtin(""));
    assert_eq!(builtins_with_prefix("e"), owned(&["echo", "exit"]));
    assert!(builtins_with_prefix("x").is_empty());
}

#[test]
fn type_of_a_command() {
    let m = handle_type("cd", Some("/bin/cd".to_string()), &plain());
    assert_eq!((m.stream, m.text.as_str()), (Stream::Stdout, "cd is a shell builtin\n"));
    let m = handle_type("ls", Some("/bin/ls".to_string()), &plain());
    assert_eq!((m.stream, m.text.as_str()), (Stream::Stdout, "ls is /bin/ls\n"));
    let m = handle_type("nope", None, &plain());
    assert_eq!((m.stream, m.text.as_str()), (Stream::Stderr, "nope: not found\n"));
}

#[test]
fn destination_of_cd() {
    let home = || Some("/home/u".to_string());
    assert_eq!(cd_target(&[], home()).as_deref(), Some("/home/u"));
    assert_eq!(cd_target(&owned(&["~"]), home()).as_deref(), Some("/home/u"));
    assert_eq!(cd_target(&owned(&["~/a/b"]), home()).as_deref(), Some("/home/u/a/b"));
    assert_eq!(cd_target(&owned(&["~x"]), home()).as_deref(), Some("~x"));
    assert_eq!(cd_target(&owned(&["/tmp", "x"]), None).as_deref(), Some("/tmp"));
    assert_eq!(cd_target(&[], None), None);
    assert_eq!(cd_target(&owned(&["~/a"]), None), None);
}

#[test]
fn failures_of_cd() {
    let m = handle_cd("/x", CdFailure::NotFound);
    assert_eq!(m.text, "cd: /x: No such file or directory\n");
    assert_eq!(m.stream, Stream::Stderr);
    assert!(matches!(m.channel, Channel::Inherit));
    assert_eq!(handle_cd("/x", CdFailure::PermissionDenied).text, "cd: /x: Permission denied\n");
    assert_eq!(handle_cd("/x", CdFailure::Other).text, "cd: /x: Error\n");
}

#[test]
fn dispatch_of_commands() {
    let step = |words: &[&str]| handle_command(owned(words), &plain()).1;
    assert!(matches!(step(&[]), Step::Nothing));
    assert!(matches!(step(&["exit"]), Step::Exit(0)));
    assert!(matches!(step(&["echo", "a", "b"]), Step::Say(m) if m.text == "a b\n"));
    assert!(matches!(step(&["echo"]), Step::Say(m) if m.text == "\n"));
    assert!(matches!(step(&["type", "ls", "x"]), Step::DescribeType(t) if t == "ls"));
    assert!(matches!(step(&["type"]), Step::Nothing));
    assert!(matches!(step(&["pwd"]), Step::ShowDirectory));
    assert!(matches!(step(&["cd", "/tmp"]), Step::ChangeDirectory(w) if w == owned(&["/tmp"])));
    assert!(matches!(step(&["jobs"]), Step::ListJobs));
    assert!(matches!(
        step(&["complete", "-p", "git"]),
        Step::ManageCompletions(w) if w == owned(&["-p", "git"])
    ));
    assert!(matches!(step(&["history"]), Step::ManageHistory(w) if w.is_empty()));
    assert!(matches!(step(&["ls", "-l"]), Step::StartProgram(w) if w == owned(&["ls", "-l"])));
    for name in list_builtins() {
        assert!(!matches!(step(&[name]), Step::StartProgram(_)));
    }
}

#[test]
fn files_are_opened_only_for_a_command() {
    let stage = parse_stage("> f");
    assert!(stage.args.is_empty());
    assert!(handle_command(stage.args, &stage.redirect).0.is_empty());
    let stage = parse_stage("cd > f");
    assert_eq!(handle_command(stage.args, &stage.redirect).0[0].path, "f");
}

#[test]
fn echo_repeats_its_words() {
    let stage = parse_stage("echo a b  c");
    let (_, step) = handle_command(stage.args, &stage.redirect);
    assert!(matches!(step, Step::Say(m) if m.text == "a b c\n"));
}

#[test]
fn segments_in_their_own_process() {
    let step = |words: &[&str]| exec_segment_in_child(owned(words), &plain());
    assert!(matches!(step(&[]), Step::Exit(0)));
    assert!(matches!(step(&["exit"]), Step::Exit(0)));
    assert!(matches!(step(&["echo", "a", "b"]), Step::Say(m) if m.text == "a b\n"));
    assert!(matches!(step(&["type", "ls"]), Step::DescribeType(t) if t == "ls"));
    assert!(matches!(step(&["type"]), Step::Exit(0)));
    assert!(matches!(step(&["pwd"]), Step::ShowDirectory));
    assert!(matches!(step(&["history", "5"]), Step::ManageHistory(w) if w == owned(&["5"])));
    for name in ["cd", "jobs", "complete", "ls"] {
        assert!(matches!(step(&[name, "x"]), Step::StartProgram(w) if w == owned(&[name, "x"])));
    }
}

#[test]
fn starting_programs() {
    let args = owned(&["ls", "-l", "x"]);
    match execute_external(&args, Some("/bin/ls".to_string()), &plain()) {
        Launch::Start(call) => {
            assert_eq!(call.program, "/bin/ls");
            assert_eq!(call.arg0, "ls");
            assert_eq!(call.args, owned(&["-l", "x"]));
            assert!(matches!(call.stdio.stdout, Channel::Inherit));
        }
        Launch::Missing(_) => panic!("found"),
    }
    let stage = parse_stage("nope 2> err");
    match execute_external(&stage.args, None, &stage.redirect) {
        Launch::Missing(m) => {
            assert_eq!(m.text, "nope: command not found\n");
            assert!(matches!(&m.channel, Channel::File(t) if t.path == "err"));
        }
        Launch::Start(_) => panic!("missing"),
    }
    assert_eq!(execution_failed("ls", &plain()).text, "ls: exec error\n");
}

#[test]
fn missing_programs_in_the_background() {
    let stage = parse_stage("nope 2> err &");
    match launch_in_background(&stage.args, None, &stage.redirect) {
        Launch::Missing(m) => {
            assert_eq!(m.text, "nope: command not found\n");
            assert!(matches!(m.channel, Channel::Inherit));
        }
        Launch::Start(_) => panic!("missing"),
    }
    assert!(matches!(
        launch_in_background(&vec![], None, &plain()),
        Launch::Missing(m) if m.text == ": command not found\n"
    ));
    assert!(matches!(
        launch_in_background(&owned(&["ls"]), Some("/bin/ls".to_string()), &plain()),
        Launch::Start(c) if c.program == "/bin/ls" && c.args.is_empty()
    ));
}

#[test]
fn statuses_of_children() {
    assert_eq!(exit_status(ChildEnd::Done), 0);
    assert_eq!(exit_status(ChildEnd::NotStarted), 1);
    assert_eq!(exit_status(ChildEnd::NotFound), 127);
}

#[test]
fn completion_scripts_are_registered() {
    let mut c = Completions::new();
    let mut run = |words: &[&str]| {
        handle_complete(&mut c, &owned(words), &Redirect::default()).map(|m| (m.stream, m.text))
    };
    let missing = Some((Stream::Stderr, "complete: git: no completion specification\n".to_string()));
    let usage = Some((Stream::Stderr, "complete: invalid usage\n".to_string()));
    assert_eq!(run(&["-p", "git"]), missing);
    assert_eq!(run(&["-C", "/s/git", "git"]), None);
    assert_eq!(
        run(&["-p", "git"]),
        Some((Stream::Stdout, "complete -C '/s/git' git\n".to_string()))
    );
    assert_eq!(run(&["-C", "/s/other", "git"]), None);
    assert_eq!(run(&["-C", "/s/tar", "tar"]), None);
    assert_eq!(
        run(&["-p", "git"]),
        Some((Stream::Stdout, "complete -C '/s/other' git\n".to_string()))
    );
    assert_eq!(run(&["-C", "/s/x"]), None);
    assert_eq!(run(&["-r", "git"]), None);
    assert_eq!(run(&["-p", "git"]), missing);
    assert_eq!(
        run(&["-p", "tar"]),
        Some((Stream::Stdout, "complete -C '/s/tar' tar\n".to_string()))
    );
    assert_eq!(run(&["-p"]), None);
    assert_eq!(run(&["-r"]), None);
    assert_eq!(run(&[]), usage);
    assert_eq!(run(&["-x"]), usage);
    assert_eq!(c.get("tar").as_deref(), Some("/s/tar"));
    assert_eq!(c.get("git"), None);
}

fn history_of(lines: &[&str]) -> History {
    let mut h = History::new();
    for l in lines {
        add_to_history(&mut h, l.to_string());
    }
    h
}

#[test]
fn history_is_listed() {
    let h = history_of(&["ls", "cd", "pwd"]);
    assert_eq!(
        texts(&list_history(&h, -1, &plain())),
        owned(&["   1  ls\n", "   2  cd\n", "   3  pwd\n"])
    );
    assert_eq!(
        texts(&list_history(&h, 2, &plain())),
        owned(&["   2  cd\n", "   3  pwd\n"])
    );
    assert_eq!(texts(&list_history(&h, 9, &plain())).len(), 3);
    assert!(list_history(&h, 0, &plain()).is_empty());
}

#[test]
fn history_command_lists() {
    let mut h = history_of(&["ls", "history"]);
    let step = handle_history(&mut h, &[], &plain());
    assert!(matches!(step, HistoryStep::Show(m) if m.len() == 2));
    let step = handle_history(&mut h, &owned(&["1"]), &plain());
    assert!(matches!(step, HistoryStep::Show(m) if texts(&m) == owned(&["   2  history\n"])));
    let step = handle_history(&mut h, &owned(&["-5"]), &plain());
    assert!(matches!(step, HistoryStep::Show(m) if m.len() == 2));
    let step = handle_history(&mut h, &owned(&["-a", "b", "c"]), &plain());
    assert!(matches!(
        step,
        HistoryStep::Show(m) if m[0].text == "arg num not invalid\n" && m[0].stream == Stream::Stderr
    ));
    assert!(matches!(handle_history(&mut h, &owned(&["-x", "f"]), &plain()), HistoryStep::Nothing));
}

#[test]
fn history_is_written_and_read_back() {
    let mut h = history_of(&["echo a", "", "cat é"]);
    let step = handle_history(&mut h, &owned(&["-w", "f"]), &plain());
    let text = match step {
        HistoryStep::WriteFile(target, text) => {
            assert_eq!(target.path, "f");
            assert!(!target.append);
            text
        }
        _ => panic!("no write"),
    };
    assert_eq!(text, "echo a\n\ncat é\n");
    assert!(matches!(
        handle_history(&mut h, &owned(&["-r", "g"]), &plain()),
        HistoryStep::ReadFile(p) if p == "g"
    ));
    let mut other = History::new();
    read_history(&mut other, &text);
    assert_eq!(
        texts(&list_history(&other, -1, &plain())),
        texts(&list_history(&h, -1, &plain()))
    );
}

#[test]
fn history_is_appended_once() {
    let mut h = history_of(&["a", "b"]);
    let mut appended = |h: &mut History| match handle_history(h, &owned(&["-a", "f"]), &plain()) {
        HistoryStep::WriteFile(target, text) => {
            assert!(target.append);
            text
        }
        _ => panic!("no write"),
    };
    assert_eq!(appended(&mut h), "a\nb\n");
    assert_eq!(appended(&mut h), "");
    add_to_history(&mut h, "c".to_string());
    read_history(&mut h, "d\r\ne");
    assert_eq!(appended(&mut h), "c\nd\ne\n");
}

#[test]
fn jobs_take_the_least_free_number() {
    let mut jobs = JobTable::new();
    assert_eq!(add_job(&mut jobs, "a".to_string()), 1);
    assert_eq!(add_job(&mut jobs, "b".to_string()), 2);
    assert_eq!(add_job(&mut jobs, "c".to_string()), 3);
    jobs.remove(2);
    assert_eq!(jobs.len(), 2);
    assert_eq!(add_job(&mut jobs, "d".to_string()), 2);
    let job = jobs.get(1).unwrap();
    assert_eq!((job.id, job.pid, job.command.as_str(), job.running), (2, 0, "d", true));
    assert!(jobs.get(3).is_none());
}

#[test]
fn background_jobs_are_announced() {
    let mut jobs = JobTable::new();
    let id = enter_background(&mut jobs, &owned(&["sleep", "10"]));
    let m = run_background(&mut jobs, id, 4321, &plain()).unwrap();
    assert_eq!(m.text, "[1] 4321\n");
    assert_eq!(jobs.get(0).unwrap().pid, 4321);
    assert_eq!(jobs.get(0).unwrap().command, "sleep 10");
    let id = enter_background(&mut jobs, &owned(&["x"]));
    assert_eq!(id, 2);
    assert!(run_background(&mut jobs, id, -1, &plain()).is_none());
    assert_eq!(jobs.len(), 1);
}

fn three_jobs() -> JobTable {
    let mut jobs = JobTable::new();
    for (name, pid) in [("a", 11), ("b", 12), ("c", 13)] {
        let id = add_job(&mut jobs, name.to_string());
        jobs.set_pid(id, pid);
    }
    jobs
}

#[test]
fn jobs_are_listed_and_dropped() {
    let mut jobs = three_jobs();
    let shown = handle_jobs(&mut jobs, &vec![12, 99], &plain());
    assert_eq!(
        texts(&shown),
        vec![
            format!("[1]   {:<24}a &\n", "Running"),
            format!("[2]-  {:<24}b\n", "Done"),
            format!("[3]+  {:<24}c &\n", "Running"),
        ]
    );
    assert_eq!(jobs.len(), 2);
    let shown = handle_jobs(&mut jobs, &vec![], &plain());
    assert_eq!(
        texts(&shown),
        vec![
            format!("[1]-  {:<24}a &\n", "Running"),
            format!("[3]+  {:<24}c &\n", "Running"),
        ]
    );
    assert!(handle_jobs(&mut JobTable::new(), &vec![1], &plain()).is_empty());
}

#[test]
fn ended_jobs_are_announced_once() {
    let mut jobs = three_jobs();
    let lines = reap_children(&mut jobs, &vec![11, 13, 77, 12]);
    assert_eq!(
        lines,
        vec![
            format!("[1]-  {:<24}a", "Done"),
            format!("[3]+  {:<24}c", "Done"),
            format!("[2]+  {:<24}b", "Done"),
        ]
    );
    assert_eq!(jobs.len(), 0);
    assert!(reap_children(&mut jobs, &vec![11]).is_empty());
}

#[test]
fn ends_of_launches() {
    let ls = owned(&["ls"]);
    let found = execute_external(&ls, Some("/bin/ls".to_string()), &plain());
    assert_eq!(exit_status(launch_end(&found)), 1);
    let missing = execute_external(&ls, None, &plain());
    assert_eq!(exit_status(launch_end(&missing)), 127);
    let missing = launch_in_background(&ls, None, &plain());
    assert_eq!(exit_status(launch_end(&missing)), 127);
}

#[test]
fn ends_of_segments() {
    let end = |words: &[&str]| segment_end(&exec_segment_in_child(owned(words), &plain()));
    assert_eq!(end(&[]), Some(0));
    for name in ["echo", "type", "pwd", "history", "exit"] {
        assert_eq!(end(&[name]), Some(0));
    }
    assert_eq!(end(&["type", "ls"]), Some(0));
    assert_eq!(end(&["ls"]), None);
    assert_eq!(end(&["cd"]), None);
    assert_eq!(segment_end(&Step::Exit(3)), Some(3));
}
