//! The scripts that are registered to complete the arguments of commands.

use vstd::prelude::*;
use vstd::string::*;

use crate::redirect::{
    error_line, output_line, write_error, write_output, Message, MessageView, Redirect,
    RedirectView, Stream,
};
use crate::text::same_text;

verus! {

#[derive(Debug)]
struct Registration {
    command: String,
    script: String,
}

/// The scripts that are registered to complete commands, one for a command at most.
#[derive(Debug)]
pub struct Completions {
    entries: Vec<Registration>,
}

spec fn registered(entries: Seq<Registration>) -> Map<Seq<char>, Seq<char>>
    decreases entries.len(),
{
    if entries.len() == 0 {
        Map::empty()
    } else {
        registered(entries.drop_last()).insert(entries.last().command@, entries.last().script@)
    }
}

impl DeepView for Completions {
    type V = Map<Seq<char>, Seq<char>>;

    /// The script of each command that has one.
    closed spec fn deep_view(&self) -> Map<Seq<char>, Seq<char>> {
        registered(self.entries@)
    }
}

impl Completions {
    /// No scripts.
    pub fn new() -> (r: Completions)
        ensures
            r.deep_view() == Map::<Seq<char>, Seq<char>>::empty(),
    {
        Completions { entries: Vec::new() }
    }

    /// The script of a command, if it has one.
    pub fn get(&self, command: &str) -> (r: Option<String>)
        ensures
            r.deep_view() == (if self.deep_view().contains_key(command@) {
                Some(self.deep_view()[command@])
            } else {
                None
            }),
    {
        let ghost all = self.entries@;
        let mut i: usize = self.entries.len();
        assert(all.take(i as int) == all);
        while i > 0
            invariant
                i <= self.entries.len(),
                all == self.entries@,
                self.deep_view().contains_key(command@) == registered(
                    all.take(i as int),
                ).contains_key(command@),
                self.deep_view()[command@] == registered(all.take(i as int))[command@],
            decreases i,
        {
            i -= 1;
            proof {
                assert(all.take(i + 1).drop_last() == all.take(i as int));
                assert(all.take(i + 1).last() == all[i as int]);
            }
            if same_text(self.entries[i].command.as_str(), command) {
                return Some(self.entries[i].script.clone());
            }
        }
        None
    }

    /// Takes the script of a command away, if it has one.
    pub fn remove(&mut self, command: &str)
        ensures
            final(self).deep_view() == old(self).deep_view().remove(command@),
    {
        let ghost before = self.entries@;
        let n: usize = self.entries.len();
        let mut kept: Vec<Registration> = Vec::new();
        let mut i: usize = 0;
        assert(registered(kept@) == registered(before.take(0)).remove(command@));
        while i < n
            invariant
                i <= n == self.entries.len(),
                before == self.entries@,
                registered(kept@) == registered(before.take(i as int)).remove(command@),
            decreases n - i,
        {
            let entry = &self.entries[i];
            let ghost done = kept@;
            let ghost map = registered(before.take(i as int));
            proof {
                assert(before.take(i + 1).drop_last() == before.take(i as int));
                assert(before.take(i + 1).last() == before[i as int]);
            }
            if !same_text(entry.command.as_str(), command) {
                kept.push(
                    Registration { command: entry.command.clone(), script: entry.script.clone() },
                );
                proof {
                    assert(kept@.drop_last() == done);
                    assert(map.remove(command@).insert(entry.command@, entry.script@) == map.insert(
                        entry.command@,
                        entry.script@,
                    ).remove(command@));
                }
            } else {
                assert(map.insert(command@, entry.script@).remove(command@) == map.remove(command@));
            }
            i += 1;
        }
        assert(before.take(i as int) == before);
        self.entries = kept;
    }

    /// Registers a script for a command, in place of the one that it had.
    pub fn insert(&mut self, command: String, script: String)
        ensures
            final(self).deep_view() == old(self).deep_view().insert(command@, script@),
    {
        let ghost before = self.deep_view();
        self.remove(command.as_str());
        let ghost cleared = self.entries@;
        let ghost key = command@;
        let ghost value = script@;
        self.entries.push(Registration { command, script });
        proof {
            assert(self.entries@.drop_last() == cleared);
            assert(before.remove(key).insert(key, value) == before.insert(key, value));
        }
    }
}

/// What the `complete` command answers: `-p` prints the script of a command, or an error where it
/// has none; `-C` and `-r` say nothing; anything else is an error.
pub open spec fn complete_reply(
    scripts: Map<Seq<char>, Seq<char>>,
    args: Seq<Seq<char>>,
    redirect: RedirectView,
) -> Option<MessageView> {
    if args.len() > 0 && args[0] == seq!['-', 'p'] {
        if args.len() == 1 {
            None
        } else if scripts.contains_key(args[1]) {
            Some(
                output_line("complete -C '"@ + scripts[args[1]] + "' "@ + args[1], redirect),
            )
        } else {
            Some(error_line("complete: "@ + args[1] + ": no completion specification"@, redirect))
        }
    } else if args.len() > 0 && (args[0] == seq!['-', 'C'] || args[0] == seq!['-', 'r']) {
        None
    } else {
        Some(error_line("complete: invalid usage"@, redirect))
    }
}

/// The registered scripts after the `complete` command: `-C` with a script and a command registers,
/// `-r` with a command takes away.
pub open spec fn complete_after(
    scripts: Map<Seq<char>, Seq<char>>,
    args: Seq<Seq<char>>,
) -> Map<Seq<char>, Seq<char>> {
    if args.len() == 3 && args[0] == seq!['-', 'C'] {
        scripts.insert(args[2], args[1])
    } else if args.len() >= 2 && args[0] == seq!['-', 'r'] {
        scripts.remove(args[1])
    } else {
        scripts
    }
}

/// Carries out the `complete` command.
pub fn handle_complete(completions: &mut Completions, args: &[String], redirect: &Redirect) -> (r:
    Option<Message>)
    ensures
        r.deep_view() == complete_reply(
            old(completions).deep_view(),
            args.deep_view(),
            redirect.deep_view(),
        ),
        final(completions).deep_view() == complete_after(
            old(completions).deep_view(),
            args.deep_view(),
        ),
{
    let ghost all = args.deep_view();
    proof {
        reveal_strlit("-p");
        reveal_strlit("-C");
        reveal_strlit("-r");
        assert("-p"@ == seq!['-', 'p']);
        assert("-C"@ == seq!['-', 'C']);
        assert("-r"@ == seq!['-', 'r']);
    }
    if args.len() == 0 {
        return Some(write_error("complete: invalid usage", redirect));
    }
    let option = args[0].as_str();
    assert(all[0] == option@);
    if same_text(option, "-p") {
        if args.len() < 2 {
            return None;
        }
        let command = args[1].as_str();
        assert(all[1] == command@);
        match completions.get(command) {
            Some(script) => {
                let mut text = "complete -C '".to_owned();
                text.append(script.as_str());
                text.append("' ");
                text.append(command);
                Some(write_output(text.as_str(), redirect))
            },
            None => {
                let mut text = "complete: ".to_owned();
                text.append(command);
                text.append(": no completion specification");
                Some(write_error(text.as_str(), redirect))
            },
        }
    } else if same_text(option, "-C") {
        if args.len() == 3 {
            assert(all[1] == args@[1]@);
            assert(all[2] == args@[2]@);
            completions.insert(args[2].clone(), args[1].clone());
        }
        None
    } else if same_text(option, "-r") {
        if args.len() >= 2 {
            assert(all[1] == args@[1]@);
            completions.remove(args[1].as_str());
        }
        None
    } else {
        Some(write_error("complete: invalid usage", redirect))
    }
}

/// A script that was registered for a command is the one that is printed for it, whatever was
/// registered before; other commands keep theirs.
pub proof fn law_register_then_print(
    scripts: Map<Seq<char>, Seq<char>>,
    command: Seq<char>,
    script: Seq<char>,
    other: Seq<char>,
    redirect: RedirectView,
)
    ensures
        ({
            let after = complete_after(scripts, seq![seq!['-', 'C'], script, command]);
            &&& complete_reply(after, seq![seq!['-', 'p'], command], redirect) == Some(
                output_line("complete -C '"@ + script + "' "@ + command, redirect),
            )
            &&& other != command ==> complete_reply(after, seq![seq!['-', 'p'], other], redirect)
                == complete_reply(scripts, seq![seq!['-', 'p'], other], redirect)
        }),
{
    let register = seq![seq!['-', 'C'], script, command];
    assert(register[0] == seq!['-', 'C']);
    assert(seq!['-', 'r'][1] != seq!['-', 'C'][1]);
    assert(seq!['-', 'p'][1] != seq!['-', 'C'][1]);
}

/// After the script of a command was taken away, there is none to be printed.
pub proof fn law_remove_then_print(
    scripts: Map<Seq<char>, Seq<char>>,
    command: Seq<char>,
    redirect: RedirectView,
)
    ensures
        complete_reply(
            complete_after(scripts, seq![seq!['-', 'r'], command]),
            seq![seq!['-', 'p'], command],
            redirect,
        ) == Some(error_line("complete: "@ + command + ": no completion specification"@, redirect)),
{
    assert(seq!['-', 'r'][1] != seq!['-', 'C'][1]);
}

/// Taking the script of a command away leaves those of the others.
pub proof fn law_remove_leaves_others(
    scripts: Map<Seq<char>, Seq<char>>,
    command: Seq<char>,
    other: Seq<char>,
)
    requires
        other != command,
    ensures
        ({
            let after = complete_after(scripts, seq![seq!['-', 'r'], command]);
            &&& !after.contains_key(command)
            &&& after.contains_key(other) <==> scripts.contains_key(other)
            &&& scripts.contains_key(other) ==> after[other] == scripts[other]
        }),
{
    assert(seq!['-', 'r'][1] != seq!['-', 'C'][1]);
}

/// Printing changes nothing, and neither does an option that is not known or lacks its arguments.
/// Only an option that is not known, or missing, is an error.
pub proof fn law_wrong_usage_changes_nothing(
    scripts: Map<Seq<char>, Seq<char>>,
    args: Seq<Seq<char>>,
    redirect: RedirectView,
)
    ensures
        args.len() > 0 && args[0] == seq!['-', 'p'] ==> complete_after(scripts, args) == scripts,
        args.len() == 1 && args[0] == seq!['-', 'p'] ==> complete_reply(scripts, args, redirect) is None,
        args.len() > 0 && args[0] == seq!['-', 'C'] ==> complete_reply(scripts, args, redirect) is None,
        args.len() > 0 && args[0] == seq!['-', 'r'] ==> complete_reply(scripts, args, redirect) is None,
        args.len() > 0 && args[0] == seq!['-', 'C'] && args.len() != 3 ==> complete_after(
            scripts,
            args,
        ) == scripts,
        args.len() == 1 ==> complete_after(scripts, args) == scripts,
        args.len() == 0 || (args[0] != seq!['-', 'p'] && args[0] != seq!['-', 'C'] && args[0]
            != seq!['-', 'r']) ==> {
            &&& complete_after(scripts, args) == scripts
            &&& complete_reply(scripts, args, redirect) matches Some(reply) && {
                &&& reply.stream == Stream::Stderr
                &&& reply.text == "complete: invalid usage"@ + seq!['\n']
                &&& reply.channel == redirect.stdio().stderr
            }
        },
{
    assert(seq!['-', 'r'][1] == 'r' && seq!['-', 'C'][1] == 'C' && seq!['-', 'p'][1] == 'p');
    let text = "complete: invalid usage"@;
    assert(text.push('\n') == text + seq!['\n']);
}

/// To print or take away the script of a command, only that command is read; further arguments count
/// for nothing.
pub proof fn law_further_arguments_count_for_nothing(
    scripts: Map<Seq<char>, Seq<char>>,
    command: Seq<char>,
    more: Seq<Seq<char>>,
    redirect: RedirectView,
)
    ensures
        complete_reply(scripts, seq![seq!['-', 'p'], command] + more, redirect) == complete_reply(
            scripts,
            seq![seq!['-', 'p'], command],
            redirect,
        ),
        complete_after(scripts, seq![seq!['-', 'r'], command] + more) == complete_after(
            scripts,
            seq![seq!['-', 'r'], command],
        ),
{
    let p = seq![seq!['-', 'p'], command];
    let r = seq![seq!['-', 'r'], command];
    assert((p + more)[0] == p[0] && (p + more)[1] == command);
    assert((r + more)[0] == r[0] && (r + more)[1] == command);
    assert(seq!['-', 'r'][1] == 'r' && seq!['-', 'C'][1] == 'C');
}

} // verus!
