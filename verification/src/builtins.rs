//! The commands that the shell itself carries out.

use vstd::prelude::*;
use vstd::string::*;

use crate::redirect::{
    error_line, output_line, write_error, write_output, Message, MessageView, Redirect,
    RedirectView, Stream,
};
use crate::text::{has_prefix, lemma_starting_with_once, same_text, starting_with};

verus! {

/// The names of the builtin commands.
pub open spec fn builtin_names() -> Seq<Seq<char>> {
    seq![
        "echo"@,
        "exit"@,
        "type"@,
        "pwd"@,
        "cd"@,
        "complete"@,
        "jobs"@,
        "history"@,
    ]
}

/// Whether a command is builtin.
pub open spec fn builtin(name: Seq<char>) -> bool {
    builtin_names().contains(name)
}

/// The names of the builtin commands.
pub fn list_builtins() -> (r: Vec<&'static str>)
    ensures
        r.deep_view() == builtin_names(),
{
    let mut r: Vec<&'static str> = Vec::new();
    r.push("echo");
    r.push("exit");
    r.push("type");
    r.push("pwd");
    r.push("cd");
    r.push("complete");
    r.push("jobs");
    r.push("history");
    assert(r.deep_view() == builtin_names());
    r
}

/// Whether a command is builtin.
pub fn is_builtin(name: &str) -> (r: bool)
    ensures
        r == builtin(name@),
{
    let names = list_builtins();
    let mut i: usize = 0;
    while i < names.len()
        invariant
            i <= names.len(),
            names.deep_view() == builtin_names(),
            forall|k: int| 0 <= k < i ==> builtin_names()[k] != name@,
        decreases names.len() - i,
    {
        assert(names.deep_view()[i as int] == names@[i as int]@);
        if same_text(names[i], name) {
            return true;
        }
        i += 1;
    }
    false
}

/// The builtin commands that start with `prefix`, each once.
pub fn builtins_with_prefix(prefix: &str) -> (r: Vec<String>)
    ensures
        r.deep_view() == starting_with(builtin_names(), prefix@),
        r.deep_view().no_duplicates(),
{
    let names = list_builtins();
    let ghost all = builtin_names();
    let mut r: Vec<String> = Vec::new();
    let mut i: usize = 0;
    assert(r.deep_view() == starting_with(all.take(0), prefix@));
    while i < names.len()
        invariant
            i <= names.len(),
            all == builtin_names(),
            names.deep_view() == all,
            r.deep_view() == starting_with(all.take(i as int), prefix@),
        decreases names.len() - i,
    {
        let ghost done = r.deep_view();
        proof {
            assert(all[i as int] == names@[i as int]@);
            assert(all.take(i + 1).drop_last() == all.take(i as int));
        }
        if has_prefix(names[i], prefix) {
            r.push(names[i].to_owned());
            assert(r.deep_view() == done.push(all[i as int]));
        }
        i += 1;
    }
    proof {
        assert(all.take(i as int) == all);
        lemma_builtins_differ();
        lemma_starting_with_once(all, prefix@);
    }
    r
}

proof fn lemma_builtins_differ()
    ensures
        builtin_names().no_duplicates(),
{
    reveal_strlit("echo");
    reveal_strlit("exit");
    reveal_strlit("type");
    reveal_strlit("pwd");
    reveal_strlit("cd");
    reveal_strlit("complete");
    reveal_strlit("jobs");
    reveal_strlit("history");
    assert("echo"@.len() == 4 && "exit"@.len() == 4 && "type"@.len() == 4 && "jobs"@.len() == 4);
    assert("echo"@[1] == 'c' && "exit"@[1] == 'x' && "type"@[1] == 'y' && "jobs"@[1] == 'o');
    assert("pwd"@.len() == 3 && "cd"@.len() == 2 && "complete"@.len() == 8 && "history"@.len() == 7);
}

/// What the `type` command says of `target`, where `found` is the program that the search path
/// gives for it.
pub open spec fn type_reply(
    target: Seq<char>,
    found: Option<Seq<char>>,
    redirect: RedirectView,
) -> MessageView {
    if builtin(target) {
        output_line(target + " is a shell builtin"@, redirect)
    } else if found is Some {
        output_line(target + " is "@ + found->0, redirect)
    } else {
        error_line(target + ": not found"@, redirect)
    }
}

/// What the `type` command says of `target`, where `found` is the program that the search path
/// gives for it. A builtin command comes before a program.
pub fn handle_type(target: &str, found: Option<String>, redirect: &Redirect) -> (r: Message)
    ensures
        r.deep_view() == type_reply(target@, found.deep_view(), redirect.deep_view()),
{
    let mut text = target.to_owned();
    if is_builtin(target) {
        text.append(" is a shell builtin");
        return write_output(text.as_str(), redirect);
    }
    match found {
        Some(path) => {
            text.append(" is ");
            text.append(path.as_str());
            write_output(text.as_str(), redirect)
        },
        None => {
            text.append(": not found");
            write_error(text.as_str(), redirect)
        },
    }
}

/// Why the working directory could not be changed.
#[derive(Clone, Copy, Debug, PartialEq, Eq, Structural)]
pub enum CdFailure {
    NotFound,
    PermissionDenied,
    Other,
}

/// The directory that the `cd` command changes to: the home directory without an argument or for
/// `~`, a path within it for one that starts with `~/`, else the argument. `None` where the home
/// directory is needed and there is none.
pub open spec fn cd_destination(args: Seq<Seq<char>>, home: Option<Seq<char>>) -> Option<
    Seq<char>,
> {
    if args.len() == 0 || args[0] == seq!['~'] {
        home
    } else if seq!['~', '/'].is_prefix_of(args[0]) {
        match home {
            Some(h) => Some(h.push('/') + args[0].skip(2)),
            None => None,
        }
    } else {
        Some(args[0])
    }
}

/// The directory that the `cd` command changes to.
pub fn cd_target(args: &[String], home: Option<String>) -> (r: Option<String>)
    ensures
        r.deep_view() == cd_destination(args.deep_view(), home.deep_view()),
{
    proof {
        reveal_strlit("~");
        reveal_strlit("~/");
        assert("~"@ == seq!['~']);
        assert("~/"@ == seq!['~', '/']);
    }
    if args.len() == 0 {
        return home;
    }
    let arg = args[0].as_str();
    assert(args.deep_view()[0] == arg@);
    if same_text(arg, "~") {
        return home;
    }
    if has_prefix(arg, "~/") {
        match home {
            Some(h) => {
                let mut r = h;
                r.push('/');
                let n: usize = arg.unicode_len();
                let rest = arg.substring_char(2, n);
                assert(rest@ == arg@.skip(2));
                r.append(rest);
                Some(r)
            },
            None => None,
        }
    } else {
        Some(arg.to_owned())
    }
}

/// The line that tells why the working directory could not be changed to `target`.
pub open spec fn cd_failure_line(target: Seq<char>, failure: CdFailure) -> Seq<char> {
    "cd: "@ + target + ": "@ + match failure {
        CdFailure::NotFound => "No such file or directory"@,
        CdFailure::PermissionDenied => "Permission denied"@,
        CdFailure::Other => "Error"@,
    }
}

/// The message that tells why the working directory could not be changed to `target`. It goes to
/// the standard error of the shell, whatever the command's redirections are.
pub fn handle_cd(target: &str, failure: CdFailure) -> (r: Message)
    ensures
        r.deep_view() == error_line(cd_failure_line(target@, failure), RedirectView::none()),
{
    let mut text = "cd: ".to_owned();
    text.append(target);
    text.append(": ");
    text.append(
        match failure {
            CdFailure::NotFound => "No such file or directory",
            CdFailure::PermissionDenied => "Permission denied",
            CdFailure::Other => "Error",
        },
    );
    let redirect: Redirect = Default::default();
    write_error(text.as_str(), &redirect)
}

/// Which commands are builtin.
pub proof fn law_builtin_commands(name: Seq<char>)
    ensures
        builtin(name) <==> {
            ||| name == "echo"@
            ||| name == "exit"@
            ||| name == "type"@
            ||| name == "pwd"@
            ||| name == "cd"@
            ||| name == "complete"@
            ||| name == "jobs"@
            ||| name == "history"@
        },
{
    let names = builtin_names();
    assert(names[0] == "echo"@);
    assert(names[1] == "exit"@);
    assert(names[2] == "type"@);
    assert(names[3] == "pwd"@);
    assert(names[4] == "cd"@);
    assert(names[5] == "complete"@);
    assert(names[6] == "jobs"@);
    assert(names[7] == "history"@);
}

/// What `type` says of a name: that it is builtin where it is, whatever programs there are; else the
/// program that it stands for; and that it was not found where there is none, as an error.
pub proof fn law_type_tells_what_runs(
    target: Seq<char>,
    found: Option<Seq<char>>,
    redirect: RedirectView,
)
    ensures
        ({
            let reply = type_reply(target, found, redirect);
            &&& builtin(target) ==> reply.stream == Stream::Stdout && reply.text == target
                + " is a shell builtin"@ + seq!['\n']
            &&& !builtin(target) && found is Some ==> reply.stream == Stream::Stdout && reply.text
                == target + " is "@ + found->0 + seq!['\n']
            &&& !builtin(target) && found is None ==> reply.stream == Stream::Stderr && reply.text
                == target + ": not found"@ + seq!['\n']
            &&& reply.channel == (if reply.stream == Stream::Stdout {
                redirect.stdio().stdout
            } else {
                redirect.stdio().stderr
            })
        }),
{
    let a = target + " is a shell builtin"@;
    let c = target + ": not found"@;
    assert(a.push('\n') == a + seq!['\n']);
    assert(c.push('\n') == c + seq!['\n']);
    if let Some(path) = found {
        let b = target + " is "@ + path;
        assert(b.push('\n') == b + seq!['\n']);
    }
}

/// Where `cd` leads: home without an argument, or for a tilde; into home for what stands behind a
/// tilde and a slash; and for anything else there itself. Further arguments count for nothing.
pub proof fn law_cd_leads_there(
    words: Seq<Seq<char>>,
    home: Option<Seq<char>>,
    path: Seq<char>,
)
    ensures
        cd_destination(seq![], home) == home,
        cd_destination(seq![seq!['~']] + words, home) == home,
        home matches Some(h) ==> cd_destination(seq![seq!['~', '/'] + path] + words, home) == Some(
            h + seq!['/'] + path,
        ),
        home is None ==> cd_destination(seq![seq!['~', '/'] + path] + words, home) is None,
        path.len() == 0 || path[0] != '~' || (path.len() > 1 && path[1] != '/') ==> cd_destination(
            seq![path] + words,
            home,
        ) == Some(path),
{
    let tilde = seq!['~'];
    let start = seq!['~', '/'];
    let inside = start + path;
    assert((seq![tilde] + words)[0] == tilde);
    assert((seq![inside] + words)[0] == inside);
    assert((seq![path] + words)[0] == path);
    assert(inside.len() >= 2 && inside != tilde);
    assert(inside.subrange(0, 2) == start);
    assert(inside.skip(2) == path);
    if let Some(h) = home {
        assert(h.push('/') + path == h + seq!['/'] + path);
    }
    if path.len() == 0 || path[0] != '~' || (path.len() > 1 && path[1] != '/') {
        assert(path != tilde) by {
            assert(tilde.len() == 1 && tilde[0] == '~');
        }
        if start.is_prefix_of(path) {
            assert(path.subrange(0, 2)[0] == path[0]);
            assert(path.subrange(0, 2)[1] == path[1]);
        }
    }
}

/// A directory that could not be entered is named, with the reason.
pub proof fn law_cd_names_the_reason(target: Seq<char>)
    ensures
        cd_failure_line(target, CdFailure::NotFound) == "cd: "@ + target + ": "@
            + "No such file or directory"@,
        cd_failure_line(target, CdFailure::PermissionDenied) == "cd: "@ + target + ": "@
            + "Permission denied"@,
        cd_failure_line(target, CdFailure::Other) == "cd: "@ + target + ": "@ + "Error"@,
{
}

} // verus!
