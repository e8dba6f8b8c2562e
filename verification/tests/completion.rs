use std::path::Path;

use shell_core::completer::{
    after_script, command_pairs, complete, context_of, directory_pairs, file_pairs,
    pairs_from_script, run_completion_script, script_call, CompletionStep, Pair,
};
use shell_core::completions::Completions;
use shell_core::paths::{
    completion_dir, completion_target_of, find_in_path, find_prefix_executables_in_path,
    find_prefix_file_in_cwd, find_prefix_file_in_dir, is_executable, join_path, name_paths,
    path_candidates, search_dirs, DirEntry, FileMeta,
};

fn owned(words: &[&str]) -> Vec<String> {
    words.iter().map(|w| w.to_string()).collect()
}

fn program() -> Option<FileMeta> {
    Some(FileMeta { is_file: true, is_dir: false, mode: 0o100755 })
}

fn document() -> Option<FileMeta> {
    Some(FileMeta { is_file: true, is_dir: false, mode: 0o100644 })
}

fn directory() -> Option<FileMeta> {
    Some(FileMeta { is_file: false, is_dir: true, mode: 0o40755 })
}

fn entry(name: &str, meta: Option<FileMeta>) -> DirEntry {
    DirEntry { name: name.to_string(), meta }
}

fn sample() -> Vec<DirEntry> {
    vec![
        entry("main.rs", document()),
        entry("make", program()),
        entry("maps", directory()),
        entry("lib.rs", document()),
        entry("mgone", None),
    ]
}

fn shown(pairs: &[Pair]) -> Vec<(String, String)> {
    pairs
        .iter()
        .map(|p| (p.display.clone(), p.replacement.clone()))
        .collect()
}

fn two(a: &str, b: &str) -> (String, String) {
    (a.to_string(), b.to_string())
}

#[test]
fn execute_bits() {
    for mode in [0o100, 0o010, 0o001, 0o755] {
        assert!(is_executable(Some(FileMeta { is_file: true, is_dir: false, mode })));
    }
    assert!(!is_executable(document()));
    assert!(!is_executable(directory()));
    assert!(!is_executable(None));
}

#[test]
fn joining_is_that_of_std() {
    for dir in ["", "/", "/bin", "/bin/", "a/b", "."] {
        for name in ["", "ls", "/ls", "x/y", "d/"] {
            let expected = Path::new(dir).join(name).to_string_lossy().to_string();
            assert_eq!(join_path(dir, name), expected, "{:?} {:?}", dir, name);
        }
    }
    assert_eq!(join_path("/usr/bin", "git"), "/usr/bin/git");
}

#[test]
fn search_path() {
    assert_eq!(search_dirs("/bin::/usr/bin"), owned(&["/bin", "", "/usr/bin"]));
    assert_eq!(search_dirs(""), owned(&[""]));
    assert_eq!(
        path_candidates("ls", "/bin:/usr/bin/:"),
        owned(&["/bin/ls", "/usr/bin/ls", "ls"])
    );
    assert_eq!(path_candidates("/x/ls", "/a:/b"), owned(&["/x/ls", "/x/ls"]));
}

#[test]
fn first_program_is_found() {
    let probes = vec![None, document(), program(), program()];
    assert_eq!(find_in_path("x", "/a:/b:/c:/d", &probes).as_deref(), Some("/c/x"));
    assert_eq!(find_in_path("x", "/a", &vec![directory()]), None);
}

#[test]
fn files_with_a_prefix() {
    assert_eq!(
        find_prefix_file_in_dir("ma", &sample(), false),
        owned(&["main.rs", "make", "maps/"])
    );
    assert_eq!(find_prefix_file_in_dir("m", &sample(), true), owned(&["make"]));
    assert_eq!(find_prefix_file_in_dir("", &sample(), false).len(), 5);
    assert!(find_prefix_file_in_dir("ma", &vec![], false).is_empty());
    assert_eq!(
        find_prefix_executables_in_path("m", &vec![sample(), vec![], vec![entry("mv", program())]]),
        owned(&["make", "mv"])
    );
}

#[test]
fn where_a_path_is_completed() {
    for (prefix, dir) in [
        ("", "."),
        ("ma", "."),
        ("src/", "src/"),
        ("src/ma", "src"),
        ("/et", "/"),
        ("/", "/"),
        ("./ma", "."),
        ("a//b", "a"),
        ("a/.", "."),
        ("..", "."),
        ("../x", ".."),
        ("a/./b", "a"),
    ] {
        assert_eq!(completion_dir(prefix), dir, "{:?}", prefix);
    }
}

#[test]
fn target_from_parts() {
    let some = |s: &str| Some(s.to_string());
    assert_eq!(completion_target_of("src/ma", some("src"), some("ma")), two("src", "ma"));
    assert_eq!(completion_target_of("ma", some(""), some("ma")), two(".", "ma"));
    assert_eq!(completion_target_of("", None, None), two(".", ""));
    assert_eq!(completion_target_of("a/b/", some("a"), some("b")), two("a/b/", ""));
    assert_eq!(name_paths("d", true, owned(&["x"])), owned(&["x"]));
    assert_eq!(name_paths("d", false, owned(&["x", "y/"])), owned(&["d/x", "d/y/"]));
}

#[test]
fn paths_are_completed() {
    let run = |prefix: &str| find_prefix_file_in_cwd(prefix, &sample());
    assert_eq!(run("mak"), owned(&["make"]));
    assert_eq!(run("src/mai"), owned(&["src/main.rs"]));
    assert_eq!(run("src/map"), owned(&["src/maps/"]));
    assert_eq!(run("/mai"), owned(&["/main.rs"]));
    assert_eq!(run("src/").len(), 5);
    assert_eq!(run("src/")[2], "src/maps/");
    assert_eq!(run("./mai"), owned(&["main.rs"]));
    assert_eq!(run("./")[0], "main.rs");
    assert_eq!(run("../mai"), owned(&["../main.rs"]));
    assert_eq!(run("..").len(), 5);
    assert_eq!(run("src//mai"), owned(&["src/main.rs"]));
    assert_eq!(run("make/."), owned(&["make"]));
    assert_eq!(run("").len(), 5);
}

#[test]
fn context_before_the_cursor() {
    let c = context_of("git com x", 7);
    assert_eq!(c.before, "git com");
    assert_eq!(c.parts, owned(&["git", "com"]));
    assert_eq!((c.current.as_str(), c.arg_index, c.start), ("com", 1, 4));
    let c = context_of("git ", 4);
    assert_eq!((c.current.as_str(), c.arg_index, c.start), ("", 1, 4));
    let c = context_of("", 0);
    assert_eq!((c.current.as_str(), c.arg_index, c.start), ("", 0, 0));
    let c = context_of("  ec", 4);
    assert_eq!((c.current.as_str(), c.arg_index, c.start), ("ec", 0, 2));
    let c = context_of("ls é", 5);
    assert_eq!((c.current.as_str(), c.arg_index, c.start), ("é", 1, 3));
    let c = context_of("ls\u{3000}", 5);
    assert_eq!((c.current.as_str(), c.arg_index, c.start), ("ls", 0, 3));
    let c = context_of("\n", 1);
    assert_eq!((c.current.as_str(), c.arg_index, c.start), ("", 0, 1));
}

fn git_scripts() -> Completions {
    let mut c = Completions::new();
    c.insert("git".to_string(), "/s/git".to_string());
    c
}

#[test]
fn script_is_asked() {
    let scripts = git_scripts();
    let call = script_call(&context_of("git cömmit ma", 14), &scripts).unwrap();
    assert_eq!(call.program, "/s/git");
    assert_eq!(call.command, "git");
    assert_eq!(call.current, "ma");
    assert_eq!(call.previous, "cömmit");
    assert_eq!(call.comp_line, "git cömmit ma");
    assert_eq!(call.comp_point, "14");
    let call = script_call(&context_of("git add ", 8), &scripts).unwrap();
    assert_eq!((call.current.as_str(), call.previous.as_str()), ("", "add"));
    assert!(script_call(&context_of("gi", 2), &scripts).is_none());
    assert!(script_call(&context_of("ls a", 4), &scripts).is_none());
}

#[test]
fn output_of_a_script() {
    assert_eq!(
        run_completion_script(&Some(b"add\ncommit\r\n".to_vec())),
        owned(&["add", "commit"])
    );
    assert_eq!(
        run_completion_script(&Some(vec![b'a', 0xff, b'\n', 0xc3, 0xa9])),
        owned(&["a\u{fffd}", "é"])
    );
    assert!(run_completion_script(&None).is_empty());
}

#[test]
fn pairs_from_a_script() {
    let offered = owned(&["commit", "checkout", "add"]);
    assert_eq!(
        shown(&pairs_from_script("c", &offered).unwrap()),
        vec![two("commit", "commit"), two("checkout", "checkout")]
    );
    assert_eq!(
        shown(&pairs_from_script("ad", &offered).unwrap()),
        vec![two("add", "add ")]
    );
    assert!(pairs_from_script("x", &offered).is_none());
}

#[test]
fn commands_are_completed() {
    let listings = vec![
        vec![entry("expr", program()), entry("echo", program()), entry("ex", document())],
        vec![entry("env", program()), entry("expr", program())],
    ];
    assert_eq!(
        shown(&command_pairs("e", &listings)),
        vec![
            two("echo", "echo "),
            two("env", "env "),
            two("exit", "exit "),
            two("expr", "expr "),
        ]
    );
    assert!(command_pairs("zz", &listings).is_empty());
    assert_eq!(command_pairs("", &vec![]).len(), 8);
}

#[test]
fn files_are_completed() {
    assert_eq!(
        shown(&file_pairs(owned(&["maps/", "main.rs", "a", "a"]))),
        vec![two("a", "a "), two("a", "a "), two("main.rs", "main.rs "), two("maps/", "maps/")]
    );
    assert_eq!(
        shown(&directory_pairs("src/ma", &sample())),
        vec![
            two("src/main.rs", "src/main.rs "),
            two("src/make", "src/make "),
            two("src/maps/", "src/maps/"),
        ]
    );
}

#[test]
fn steps_of_a_completion() {
    let scripts = git_scripts();
    let (context, step) = complete("git ch", 6, &scripts);
    assert_eq!(context.start, 4);
    assert!(matches!(step, CompletionStep::RunScript(c) if c.program == "/s/git"));
    assert!(matches!(
        after_script(&context, &Some(b"checkout\n".to_vec())),
        CompletionStep::Offer(p) if shown(&p) == vec![two("checkout", "checkout ")]
    ));
    assert!(matches!(
        after_script(&context, &Some(b"other\n".to_vec())),
        CompletionStep::ListDirectory(d) if d == "."
    ));
    assert!(matches!(after_script(&context, &None), CompletionStep::ListDirectory(_)));
    assert!(matches!(complete("gi", 2, &scripts).1, CompletionStep::ListPrograms));
    assert!(matches!(
        complete("ls src/m", 8, &scripts).1,
        CompletionStep::ListDirectory(d) if d == "src"
    ));
}

#[test]
fn completions_start_with_the_word() {
    for pair in directory_pairs("src/m", &sample()) {
        assert!(pair.display.starts_with("src/m"));
    }
    for pair in command_pairs("c", &vec![sample()]) {
        assert!(pair.display.starts_with("c"));
    }
}

fn tidied(path: &str) -> &str {
    let mut p = path;
    while p.len() > 1 && (p.ends_with('/') || p.ends_with("/.")) {
        p = &p[..p.len() - 1];
    }
    p
}

fn parts(path: &str) -> (bool, bool, Vec<&str>) {
    let pieces: Vec<&str> = path.split('/').collect();
    let names = pieces.iter().copied().filter(|p| !p.is_empty() && *p != ".").collect();
    (path.starts_with('/'), pieces[0] == ".", names)
}

fn typed_texts() -> Vec<String> {
    let mut texts = vec![String::new()];
    let mut from = 0;
    for _ in 0..7 {
        let to = texts.len();
        for k in from..to {
            for c in ['/', '.', 'a'] {
                texts.push(format!("{}{}", texts[k], c));
            }
        }
        from = to;
    }
    texts
}

#[test]
fn components_are_those_of_std() {
    for text in typed_texts() {
        let path = Path::new(&text);
        let p = tidied(&text);
        let name = &p[p.rfind('/').map_or(0, |i| i + 1)..];
        let parent = if p.is_empty() || p == "/" {
            None
        } else {
            Some(tidied(&p[..p.len() - name.len()]))
        };
        assert_eq!(path.parent().map(|q| q.to_str().unwrap()), parent, "{:?}", text);
        let file_name = if ["", ".", ".."].contains(&name) { None } else { Some(name) };
        assert_eq!(path.file_name().map(|q| q.to_str().unwrap()), file_name, "{:?}", text);
        for other in [".", "./", "a", "/a", "a/a", ".."] {
            assert_eq!(path == Path::new(other), parts(&text) == parts(other), "{:?}", text);
        }
    }
}

#[test]
fn typed_paths_are_placed_by_std() {
    for text in typed_texts() {
        let path = Path::new(&text);
        let dir = if text.ends_with('/') {
            path
        } else {
            path.parent().filter(|p| !p.as_os_str().is_empty()).unwrap_or(Path::new("."))
        };
        assert_eq!(completion_dir(&text), dir.to_str().unwrap(), "{:?}", text);
        let entries = vec![entry("ab", document()), entry("aaaaaaaa", directory())];
        let found = find_prefix_file_in_cwd(&text, &entries);
        if dir == Path::new(".") {
            assert!(found.iter().all(|f| !f.starts_with('.')), "{:?}", text);
        } else {
            assert!(found.iter().all(|f| f.starts_with(dir.to_str().unwrap())), "{:?}", text);
        }
    }
}

#[test]
fn leading_dot_changes_nothing() {
    for name in ["", "ma", "mak", ".", "..", "zz"] {
        assert_eq!(
            find_prefix_file_in_cwd(&format!("./{}", name), &sample()),
            find_prefix_file_in_cwd(name, &sample())
        );
    }
    assert_eq!(find_prefix_file_in_cwd(".../ma", &sample())[0], ".../main.rs");
}

#[test]
fn order_of_a_listing_is_irrelevant() {
    let mut turned = sample();
    turned.reverse();
    let mut found = find_prefix_file_in_dir("m", &turned, false);
    found.reverse();
    assert_eq!(found, find_prefix_file_in_dir("m", &sample(), false));
}

#[test]
fn search_paths_are_joined() {
    let first = "/bin:/sbin";
    let second = "/usr/bin";
    let both = format!("{}:{}", first, second);
    let mut candidates = path_candidates("x", first);
    candidates.extend(path_candidates("x", second));
    assert_eq!(path_candidates("x", &both), candidates);
    assert_eq!(
        find_in_path("x", &both, &vec![None, None, program()]),
        find_in_path("x", second, &vec![program()])
    );
    let found = find_prefix_executables_in_path("m", &vec![sample(), vec![entry("mv", program())]]);
    assert!(found.iter().all(|f| !f.ends_with('/')));
}
