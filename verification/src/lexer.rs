//! Reading a command line: quotes and escapes, the segments of a pipeline, the words of a command.

use vstd::prelude::*;
use vstd::string::*;

use crate::text::{chars_of, non_empty, trim, trimmed};

verus! {

/// What the characters read so far say about the next one: whether it stands in single quotes, in
/// double quotes, or right after a backslash.
#[derive(Clone, Copy)]
pub struct Quoting {
    pub single: bool,
    pub double: bool,
    pub escaped: bool,
}

/// What a character is to the words of a command.
#[derive(Clone, Copy, PartialEq, Eq, Structural)]
pub enum Role {
    /// It is part of a word.
    Literal,
    /// It opens or closes quotes, or escapes the next character; it is part of no word.
    Mark,
    /// It separates words.
    Separator,
}

impl Quoting {
    /// Outside of quotes, and not after a backslash.
    pub open spec fn plain() -> Quoting {
        Quoting { single: false, double: false, escaped: false }
    }

    /// Whether a character that separates commands or words does so here.
    pub open spec fn bare(self) -> bool {
        !self.single && !self.double && !self.escaped
    }

    /// Whether `c` opens or closes quotes here, or is a backslash that escapes.
    pub open spec fn marks(self, c: char) -> bool {
        &&& !self.escaped
        &&& {
            ||| c == '\\' && !self.single
            ||| c == '"' && !self.single
            ||| c == '\'' && !self.double
        }
    }

    /// The state after reading `c`. A backslash has no meaning within single quotes.
    pub open spec fn after(self, c: char) -> Quoting {
        if self.escaped {
            Quoting { escaped: false, ..self }
        } else if c == '\\' && !self.single {
            Quoting { escaped: true, ..self }
        } else if c == '"' && !self.single {
            Quoting { double: !self.double, ..self }
        } else if c == '\'' && !self.double {
            Quoting { single: !self.single, ..self }
        } else {
            self
        }
    }

    /// What `c` is to the words of a command, when it is read in this state.
    pub open spec fn role(self, c: char) -> Role {
        if self.marks(c) {
            Role::Mark
        } else if self.bare() && (c == ' ' || c == '\t') {
            Role::Separator
        } else {
            Role::Literal
        }
    }

    /// The state at the start of a line.
    pub fn new() -> (r: Quoting)
        ensures
            r == Quoting::plain(),
    {
        Quoting { single: false, double: false, escaped: false }
    }

    /// The state after reading `c`.
    pub fn step(self, c: char) -> (r: Quoting)
        ensures
            r == self.after(c),
    {
        if self.escaped {
            Quoting { single: self.single, double: self.double, escaped: false }
        } else if c == '\\' && !self.single {
            Quoting { single: self.single, double: self.double, escaped: true }
        } else if c == '"' && !self.single {
            Quoting { single: self.single, double: !self.double, escaped: self.escaped }
        } else if c == '\'' && !self.double {
            Quoting { single: !self.single, double: self.double, escaped: self.escaped }
        } else {
            self
        }
    }

    /// What `c` is to the words of a command, when it is read in this state.
    pub fn role_of(self, c: char) -> (r: Role)
        ensures
            r == self.role(c),
    {
        if !self.escaped && ((c == '\\' && !self.single) || (c == '"' && !self.single) || (c == '\''
            && !self.double)) {
            Role::Mark
        } else if !self.escaped && !self.single && !self.double && (c == ' ' || c == '\t') {
            Role::Separator
        } else {
            Role::Literal
        }
    }
}

/// The state in which the character at position `n` is read.
pub open spec fn quoting_at(s: Seq<char>, n: int) -> Quoting
    decreases n,
{
    if n <= 0 {
        Quoting::plain()
    } else {
        quoting_at(s, n - 1).after(s[n - 1])
    }
}

/// Whether the character at position `i` is a bar that separates two commands.
pub open spec fn splits_at(s: Seq<char>, i: int) -> bool {
    s[i] == '|' && quoting_at(s, i).bare()
}

/// The stretches of text between the bars that separate commands, up to position `n`.
pub open spec fn bar_pieces(s: Seq<char>, n: int) -> Seq<Seq<char>>
    decreases n,
{
    if n <= 0 {
        seq![Seq::<char>::empty()]
    } else {
        let before = bar_pieces(s, n - 1);
        if splits_at(s, n - 1) {
            before.push(Seq::<char>::empty())
        } else {
            before.drop_last().push(before.last().push(s[n - 1]))
        }
    }
}

/// Every text of `pieces` without the white space at its ends.
pub open spec fn all_trimmed(pieces: Seq<Seq<char>>) -> Seq<Seq<char>> {
    Seq::new(pieces.len(), |i: int| trimmed(pieces[i]))
}

/// The segments of a pipeline: what stands between the separating bars, trimmed. One that is empty
/// counts, unless it is the last.
pub open spec fn pipeline_segments(s: Seq<char>) -> Seq<Seq<char>> {
    let segments = all_trimmed(bar_pieces(s, s.len() as int));
    if segments.last().len() == 0 {
        segments.drop_last()
    } else {
        segments
    }
}

/// The words of a command, up to position `n`: each the literal characters between two separators.
/// Separators that touch have an empty one between them.
pub open spec fn arg_pieces(s: Seq<char>, n: int) -> Seq<Seq<char>>
    decreases n,
{
    if n <= 0 {
        seq![Seq::<char>::empty()]
    } else {
        let before = arg_pieces(s, n - 1);
        match quoting_at(s, n - 1).role(s[n - 1]) {
            Role::Separator => before.push(Seq::<char>::empty()),
            Role::Literal => before.drop_last().push(before.last().push(s[n - 1])),
            Role::Mark => before,
        }
    }
}

/// The words of a command: what is left of the pieces between separators, without those that
/// are empty.
pub open spec fn command_words(s: Seq<char>) -> Seq<Seq<char>> {
    non_empty(arg_pieces(s, s.len() as int))
}

proof fn lemma_bar_pieces_last(s: Seq<char>, n: int, start: int)
    requires
        0 <= start <= n <= s.len(),
        start > 0 ==> splits_at(s, start - 1),
        forall|j: int| start <= j < n ==> !splits_at(s, j),
    ensures
        bar_pieces(s, n).len() > 0,
        bar_pieces(s, n).last() == s.subrange(start, n),
        bar_pieces(s, n).drop_last() == (if start == 0 {
            Seq::<Seq<char>>::empty()
        } else {
            bar_pieces(s, start - 1)
        }),
    decreases n,
{
    if n == start {
        if start > 0 {
            let before = bar_pieces(s, start - 1);
            assert(before.push(Seq::<char>::empty()).drop_last() == before);
        }
        assert(s.subrange(start, n) == Seq::<char>::empty());
        assert(start == 0 ==> bar_pieces(s, n).drop_last() == Seq::<Seq<char>>::empty());
    } else {
        lemma_bar_pieces_last(s, n - 1, start);
        let before = bar_pieces(s, n - 1);
        assert(before.drop_last().push(before.last().push(s[n - 1])).drop_last()
            == before.drop_last());
        assert(s.subrange(start, n) == s.subrange(start, n - 1).push(s[n - 1]));
    }
}

/// Splits a line into the segments of a pipeline at each `|` that stands outside of quotes and is
/// not escaped.
pub fn parse_pipeline(input: &str) -> (r: Vec<&str>)
    ensures
        r.deep_view() == pipeline_segments(input@),
{
    let v = chars_of(input);
    let mut segments: Vec<&str> = Vec::new();
    let mut start: usize = 0;
    let mut state = Quoting::new();
    let mut i: usize = 0;
    assert(segments.deep_view() == all_trimmed(Seq::<Seq<char>>::empty()));
    while i < v.len()
        invariant
            start <= i <= v.len(),
            v@ == input@,
            state == quoting_at(input@, i as int),
            start > 0 ==> splits_at(input@, start - 1),
            forall|j: int| start <= j < i ==> !splits_at(input@, j),
            segments.deep_view() == all_trimmed(
                if start == 0 {
                    Seq::<Seq<char>>::empty()
                } else {
                    bar_pieces(input@, start - 1)
                },
            ),
        decreases v.len() - i,
    {
        let c = v[i];
        if c == '|' && !state.single && !state.double && !state.escaped {
            let ghost done = segments.deep_view();
            let segment = trim(input.substring_char(start, i));
            segments.push(segment);
            proof {
                lemma_bar_pieces_last(input@, i as int, start as int);
                let all = bar_pieces(input@, i as int);
                assert(segments.deep_view() == done.push(segment@));
                assert(all == all.drop_last().push(all.last()));
                assert(done.push(segment@) == all_trimmed(all));
            }
            start = i + 1;
        }
        state = state.step(c);
        i += 1;
    }
    let last = trim(input.substring_char(start, v.len()));
    let ghost done = segments.deep_view();
    proof {
        lemma_bar_pieces_last(input@, i as int, start as int);
        let all = bar_pieces(input@, i as int);
        assert(all == all.drop_last().push(all.last()));
        assert(done.push(last@) == all_trimmed(all));
        assert(done == all_trimmed(all).drop_last());
        assert(last@ == all_trimmed(all).last());
    }
    if !last.is_empty() {
        segments.push(last);
        assert(segments.deep_view() == done.push(last@));
    }
    segments
}

/// Splits a command into its words at each space or tab that stands outside of quotes and is not
/// escaped, and takes quotes and escaping backslashes out.
pub fn parse_args(input: &str) -> (r: Vec<String>)
    ensures
        r.deep_view() == command_words(input@),
{
    let v = chars_of(input);
    let mut args: Vec<String> = Vec::new();
    let mut current = String::new();
    let mut state = Quoting::new();
    let mut i: usize = 0;
    proof {
        assert(arg_pieces(input@, 0).drop_last() == Seq::<Seq<char>>::empty());
        assert(args.deep_view() == non_empty(arg_pieces(input@, 0).drop_last()));
    }
    while i < v.len()
        invariant
            i <= v.len(),
            v@ == input@,
            state == quoting_at(input@, i as int),
            arg_pieces(input@, i as int).len() > 0,
            args.deep_view() == non_empty(arg_pieces(input@, i as int).drop_last()),
            current@ == arg_pieces(input@, i as int).last(),
        decreases v.len() - i,
    {
        let c = v[i];
        let ghost pieces = arg_pieces(input@, i as int);
        let ghost done = args.deep_view();
        match state.role_of(c) {
            Role::Separator => {
                assert(pieces.push(Seq::<char>::empty()).drop_last() == pieces);
                if !current.as_str().is_empty() {
                    let ghost word = current@;
                    args.push(current);
                    assert(args.deep_view() == done.push(word));
                }
                current = String::new();
            },
            Role::Literal => {
                current.push(c);
                assert(pieces.drop_last().push(current@).drop_last() == pieces.drop_last());
            },
            Role::Mark => {},
        }
        state = state.step(c);
        i += 1;
    }
    if !current.as_str().is_empty() {
        let ghost done = args.deep_view();
        let ghost word = current@;
        args.push(current);
        assert(args.deep_view() == done.push(word));
    }
    args
}

} // verus!
