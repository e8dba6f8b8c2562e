//! What a command line means, part by part: a line is written down from its parts, and what is read
//! from it is what the parts mean.

use vstd::prelude::*;

use crate::lexer::{
    all_trimmed, arg_pieces, bar_pieces, command_words, pipeline_segments, quoting_at, Quoting, Role,
};
use crate::lexer_laws::{
    lemma_args_of_prefix, lemma_bars_of_prefix, lemma_quoting_of_prefix, ordinary,
};
use crate::text::{law_trim_takes_white_space_off, non_empty, trimmed, white_space};

verus! {

/// A character within double quotes, which may be escaped.
pub struct Letter {
    pub escaped: bool,
    pub c: char,
}

/// A part of a line.
pub enum Part {
    /// A character that stands for itself.
    Plain(char),
    /// A space or a tab.
    Blank(char),
    /// A character behind a backslash.
    Escaped(char),
    /// A text in single quotes.
    Single(Seq<char>),
    /// A text in double quotes.
    Double(Seq<Letter>),
}

/// How characters within double quotes are written.
pub open spec fn inner_text(inner: Seq<Letter>) -> Seq<char>
    decreases inner.len(),
{
    if inner.len() == 0 {
        seq![]
    } else if inner.last().escaped {
        inner_text(inner.drop_last()) + seq!['\\', inner.last().c]
    } else {
        inner_text(inner.drop_last()).push(inner.last().c)
    }
}

/// Whether characters can stand within double quotes: a double quote and a backslash only where they
/// are escaped.
pub open spec fn inner_writable(inner: Seq<Letter>) -> bool {
    forall|i: int|
        0 <= i < inner.len() ==> (#[trigger] inner[i]).escaped || (inner[i].c != '"' && inner[i].c
            != '\\')
}

/// What characters within double quotes mean.
pub open spec fn inner_value(inner: Seq<Letter>) -> Seq<char> {
    Seq::new(inner.len(), |i: int| inner[i].c)
}

impl Part {
    /// Whether the part can be written down: what is not escaped means nothing else where it stands.
    pub open spec fn writable(self) -> bool {
        match self {
            Part::Plain(c) => ordinary(c),
            Part::Blank(c) => c == ' ' || c == '\t',
            Part::Escaped(c) => true,
            Part::Single(t) => !t.contains('\''),
            Part::Double(inner) => inner_writable(inner),
        }
    }

    /// How the part is written.
    pub open spec fn text(self) -> Seq<char> {
        match self {
            Part::Plain(c) => seq![c],
            Part::Blank(c) => seq![c],
            Part::Escaped(c) => seq!['\\', c],
            Part::Single(t) => seq!['\''] + t + seq!['\''],
            Part::Double(inner) => seq!['"'] + inner_text(inner) + seq!['"'],
        }
    }

    /// What the part adds to the word that it stands in; a blank adds nothing.
    pub open spec fn value(self) -> Seq<char> {
        match self {
            Part::Plain(c) => seq![c],
            Part::Blank(c) => seq![],
            Part::Escaped(c) => seq![c],
            Part::Single(t) => t,
            Part::Double(inner) => inner_value(inner),
        }
    }
}

/// A line, written down from its parts.
pub open spec fn line_text(parts: Seq<Part>) -> Seq<char>
    decreases parts.len(),
{
    if parts.len() == 0 {
        seq![]
    } else {
        line_text(parts.drop_last()) + parts.last().text()
    }
}

/// What parts mean as words: the words that are complete, and what there is of the next one.
pub open spec fn words_meant(parts: Seq<Part>) -> (Seq<Seq<char>>, Seq<char>)
    decreases parts.len(),
{
    if parts.len() == 0 {
        (seq![], seq![])
    } else {
        let (words, rest) = words_meant(parts.drop_last());
        if parts.last() is Blank {
            (with_word(words, rest), seq![])
        } else {
            (words, rest + parts.last().value())
        }
    }
}

/// Words with one more, unless that is empty.
pub open spec fn with_word(words: Seq<Seq<char>>, word: Seq<char>) -> Seq<Seq<char>> {
    if word.len() > 0 {
        words.push(word)
    } else {
        words
    }
}

/// What parts mean as commands: the text of those before each bar, and what stands behind the last
/// bar.
pub open spec fn commands_meant(parts: Seq<Part>) -> (Seq<Seq<char>>, Seq<char>)
    decreases parts.len(),
{
    if parts.len() == 0 {
        (seq![], seq![])
    } else {
        let (commands, rest) = commands_meant(parts.drop_last());
        if parts.last() == Part::Plain('|') {
            (commands.push(rest), seq![])
        } else {
            (commands, rest + parts.last().text())
        }
    }
}

spec fn extended(pieces: Seq<Seq<char>>, more: Seq<char>) -> Seq<Seq<char>> {
    pieces.drop_last().push(pieces.last() + more)
}

spec fn state_of(s: Seq<char>) -> Quoting {
    quoting_at(s, s.len() as int)
}

spec fn args_of(s: Seq<char>) -> Seq<Seq<char>> {
    arg_pieces(s, s.len() as int)
}

spec fn bars_of(s: Seq<char>) -> Seq<Seq<char>> {
    bar_pieces(s, s.len() as int)
}

proof fn lemma_pieces_some(s: Seq<char>, n: int)
    ensures
        arg_pieces(s, n).len() > 0,
        bar_pieces(s, n).len() > 0,
    decreases n,
{
    if n > 0 {
        lemma_pieces_some(s, n - 1);
    }
}

proof fn lemma_step(p: Seq<char>, c: char)
    ensures
        args_of(p).len() > 0,
        bars_of(p).len() > 0,
        state_of(p.push(c)) == state_of(p).after(c),
        args_of(p.push(c)) == (match state_of(p).role(c) {
            Role::Separator => args_of(p).push(Seq::<char>::empty()),
            Role::Literal => extended(args_of(p), seq![c]),
            Role::Mark => args_of(p),
        }),
        bars_of(p.push(c)) == (if c == '|' && state_of(p).bare() {
            bars_of(p).push(Seq::<char>::empty())
        } else {
            extended(bars_of(p), seq![c])
        }),
{
    let s = p.push(c);
    let n = p.len() as int;
    assert(s == p + seq![c]);
    lemma_pieces_some(p, n);
    lemma_quoting_of_prefix(p, seq![c], n);
    lemma_args_of_prefix(p, seq![c], n);
    lemma_bars_of_prefix(p, seq![c], n);
    assert(s[n] == c);
    assert(args_of(p).last().push(c) == args_of(p).last() + seq![c]);
    assert(bars_of(p).last().push(c) == bars_of(p).last() + seq![c]);
}

proof fn lemma_extended_twice(pieces: Seq<Seq<char>>, a: Seq<char>, b: Seq<char>)
    ensures
        extended(extended(pieces, a), b) == extended(pieces, a + b),
{
    assert(extended(pieces, a).drop_last() == pieces.drop_last());
    assert(pieces.last() + a + b == pieces.last() + (a + b));
}

proof fn lemma_in_single(p: Seq<char>, t: Seq<char>)
    requires
        state_of(p) == Quoting::plain(),
        !t.contains('\''),
    ensures
        state_of(p.push('\'') + t) == (Quoting { single: true, double: false, escaped: false }),
        args_of(p.push('\'') + t) == extended(args_of(p), t),
        bars_of(p.push('\'') + t) == extended(bars_of(p), seq!['\''] + t),
    decreases t.len(),
{
    let s = p.push('\'') + t;
    lemma_step(p, '\'');
    if t.len() == 0 {
        assert(s == p.push('\''));
        assert(args_of(p).last() + t == args_of(p).last());
        assert(extended(args_of(p), t) == args_of(p));
        assert(seq!['\''] + t == seq!['\'']);
    } else {
        let front = t.drop_last();
        let c = t.last();
        assert(!front.contains('\'')) by {
            if front.contains('\'') {
                let k = choose|k: int| 0 <= k < front.len() && front[k] == '\'';
                assert(t[k] == '\'');
            }
        }
        assert(t[t.len() - 1] != '\'');
        lemma_in_single(p, front);
        let q = p.push('\'') + front;
        assert(s == q.push(c));
        lemma_step(q, c);
        lemma_extended_twice(args_of(p), front, seq![c]);
        lemma_extended_twice(bars_of(p), seq!['\''] + front, seq![c]);
        assert(front + seq![c] == t);
        assert(seq!['\''] + front + seq![c] == seq!['\''] + t);
    }
}

proof fn lemma_in_double(p: Seq<char>, inner: Seq<Letter>)
    requires
        state_of(p) == Quoting::plain(),
        Part::Double(inner).writable(),
    ensures
        state_of(p.push('"') + inner_text(inner)) == (Quoting {
            single: false,
            double: true,
            escaped: false,
        }),
        args_of(p.push('"') + inner_text(inner)) == extended(args_of(p), inner_value(inner)),
        bars_of(p.push('"') + inner_text(inner)) == extended(
            bars_of(p),
            seq!['"'] + inner_text(inner),
        ),
    decreases inner.len(),
{
    let t = inner_text(inner);
    let s = p.push('"') + t;
    lemma_step(p, '"');
    if inner.len() == 0 {
        assert(s == p.push('"'));
        assert(inner_value(inner) == Seq::<char>::empty());
        assert(args_of(p).last() + Seq::<char>::empty() == args_of(p).last());
        assert(extended(args_of(p), inner_value(inner)) == args_of(p));
        assert(seq!['"'] + t == seq!['"']);
    } else {
        let front = inner.drop_last();
        let c = inner.last().c;
        assert(inner[inner.len() - 1] == inner.last());
        assert forall|i: int| 0 <= i < front.len() implies (#[trigger] front[i]).escaped || (
        front[i].c != '"' && front[i].c != '\\') by {
            assert(front[i] == inner[i]);
        }
        lemma_in_double(p, front);
        let q = p.push('"') + inner_text(front);
        lemma_extended_twice(args_of(p), inner_value(front), seq![c]);
        assert(inner_value(front) + seq![c] == inner_value(inner));
        if inner.last().escaped {
            assert(s == q.push('\\').push(c));
            lemma_step(q, '\\');
            lemma_step(q.push('\\'), c);
            lemma_extended_twice(bars_of(q), seq!['\\'], seq![c]);
            lemma_extended_twice(bars_of(p), seq!['"'] + inner_text(front), seq!['\\'] + seq![c]);
            assert(seq!['"'] + inner_text(front) + (seq!['\\'] + seq![c]) == seq!['"'] + t);
        } else {
            assert(s == q.push(c));
            lemma_step(q, c);
            lemma_extended_twice(bars_of(p), seq!['"'] + inner_text(front), seq![c]);
            assert(seq!['"'] + inner_text(front) + seq![c] == seq!['"'] + t);
        }
    }
}

proof fn lemma_part(p: Seq<char>, part: Part)
    requires
        state_of(p) == Quoting::plain(),
        part.writable(),
    ensures
        state_of(p + part.text()) == Quoting::plain(),
        args_of(p + part.text()) == (if part is Blank {
            args_of(p).push(Seq::<char>::empty())
        } else {
            extended(args_of(p), part.value())
        }),
        bars_of(p + part.text()) == (if part == Part::Plain('|') {
            bars_of(p).push(Seq::<char>::empty())
        } else {
            extended(bars_of(p), part.text())
        }),
{
    let s = p + part.text();
    match part {
        Part::Plain(c) => {
            assert(s == p.push(c));
            lemma_step(p, c);
        },
        Part::Blank(c) => {
            assert(s == p.push(c));
            lemma_step(p, c);
        },
        Part::Escaped(c) => {
            assert(s == p.push('\\').push(c));
            lemma_step(p, '\\');
            lemma_step(p.push('\\'), c);
            lemma_extended_twice(bars_of(p), seq!['\\'], seq![c]);
            assert(seq!['\\'] + seq![c] == seq!['\\', c]);
        },
        Part::Single(t) => {
            let q = p.push('\'') + t;
            assert(s == q.push('\''));
            lemma_in_single(p, t);
            lemma_step(q, '\'');
            lemma_extended_twice(bars_of(p), seq!['\''] + t, seq!['\'']);
        },
        Part::Double(inner) => {
            let t = inner_text(inner);
            let q = p.push('"') + t;
            assert(s == q.push('"'));
            lemma_in_double(p, inner);
            lemma_step(q, '"');
            lemma_extended_twice(bars_of(p), seq!['"'] + t, seq!['"']);
        },
    }
}

proof fn lemma_parts(parts: Seq<Part>)
    requires
        forall|i: int| 0 <= i < parts.len() ==> (#[trigger] parts[i]).writable(),
    ensures
        state_of(line_text(parts)) == Quoting::plain(),
        args_of(line_text(parts)).len() > 0,
        non_empty(args_of(line_text(parts)).drop_last()) == words_meant(parts).0,
        args_of(line_text(parts)).last() == words_meant(parts).1,
        bars_of(line_text(parts)) == commands_meant(parts).0.push(commands_meant(parts).1),
    decreases parts.len(),
{
    let empty = Seq::<char>::empty();
    if parts.len() == 0 {
        assert(args_of(line_text(parts)).drop_last() == Seq::<Seq<char>>::empty());
        assert(bars_of(line_text(parts)) == Seq::<Seq<char>>::empty().push(empty));
    } else {
        let front = parts.drop_last();
        let part = parts.last();
        assert(parts[parts.len() - 1] == part);
        assert forall|i: int| 0 <= i < front.len() implies (#[trigger] front[i]).writable() by {
            assert(front[i] == parts[i]);
        }
        lemma_parts(front);
        let p = line_text(front);
        lemma_part(p, part);
        let args = args_of(p);
        let bars = bars_of(p);
        assert(args.push(empty).drop_last() == args);
        assert(extended(args, part.value()).drop_last() == args.drop_last());
        let (commands, rest) = commands_meant(front);
        assert(bars.drop_last() == commands);
        assert(bars.last() == rest);
    }
}

/// The words of a line are what its parts mean: blanks end a word, and nothing else does; quotes and
/// backslashes are no part of a word, and what stands in quotes or behind a backslash means itself.
/// No word is empty.
pub proof fn law_words_are_what_is_meant(parts: Seq<Part>)
    requires
        forall|i: int| 0 <= i < parts.len() ==> (#[trigger] parts[i]).writable(),
    ensures
        command_words(line_text(parts)) == with_word(words_meant(parts).0, words_meant(parts).1),
{
    lemma_parts(parts);
}

/// The segments of a line are what its parts mean: a bar that stands for itself ends a command, and
/// nothing else does. Each segment is trimmed, and counts though it is empty, unless it is the last.
pub proof fn law_segments_are_what_is_meant(parts: Seq<Part>)
    requires
        forall|i: int| 0 <= i < parts.len() ==> (#[trigger] parts[i]).writable(),
    ensures
        ({
            let (commands, rest) = commands_meant(parts);
            let segments = pipeline_segments(line_text(parts));
            &&& segments.len() == commands.len() + (if trimmed(rest).len() > 0 {
                1int
            } else {
                0int
            })
            &&& forall|i: int|
                0 <= i < commands.len() ==> #[trigger] segments[i] == trimmed(commands[i])
            &&& trimmed(rest).len() > 0 ==> segments.last() == trimmed(rest)
        }),
{
    lemma_parts(parts);
    let (commands, rest) = commands_meant(parts);
    let all = all_trimmed(commands.push(rest));
    assert(all.last() == trimmed(rest));
    assert forall|i: int| 0 <= i < commands.len() implies #[trigger] pipeline_segments(
        line_text(parts),
    )[i] == trimmed(commands[i]) by {
        assert(all[i] == trimmed(commands[i]));
    }
}

/// Quotes that are still open at the end of a line end there: the words are those of the line with
/// the quotes closed.
pub proof fn law_open_quotes_end_with_the_line(parts: Seq<Part>, quoted: Part)
    requires
        forall|i: int| 0 <= i < parts.len() ==> (#[trigger] parts[i]).writable(),
        quoted is Single || quoted is Double,
        quoted.writable(),
    ensures
        command_words(line_text(parts) + quoted.text().drop_last()) == command_words(
            line_text(parts) + quoted.text(),
        ),
{
    let p = line_text(parts);
    lemma_parts(parts);
    lemma_part(p, quoted);
    match quoted {
        Part::Single(t) => {
            lemma_in_single(p, t);
            assert(p + quoted.text().drop_last() == p.push('\'') + t);
        },
        Part::Double(inner) => {
            lemma_in_double(p, inner);
            assert(p + quoted.text().drop_last() == p.push('"') + inner_text(inner));
        },
        _ => {},
    }
}

/// A backslash at the end of a line, with nothing to escape, means nothing.
pub proof fn law_last_backslash_means_nothing(parts: Seq<Part>)
    requires
        forall|i: int| 0 <= i < parts.len() ==> (#[trigger] parts[i]).writable(),
    ensures
        command_words(line_text(parts).push('\\')) == command_words(line_text(parts)),
{
    lemma_parts(parts);
    lemma_step(line_text(parts), '\\');
}

proof fn lemma_last_piece_in_words(pieces: Seq<Seq<char>>)
    requires
        pieces.len() > 0,
        pieces.last().len() > 0,
    ensures
        non_empty(pieces).len() > 0,
        non_empty(pieces).last() == pieces.last(),
        non_empty(pieces).drop_last() == non_empty(pieces.drop_last()),
{
    assert(non_empty(pieces.drop_last()).push(pieces.last()).drop_last() == non_empty(
        pieces.drop_last(),
    ));
}

/// Quotes do not end a word, nor start one: a text in quotes that stands right behind a character of
/// a word goes on with that word. What is in the quotes is added to it as it is.
pub proof fn law_quotes_go_on_with_the_word(a: Seq<char>, quote: char, t: Seq<char>)
    requires
        a.len() > 0,
        quoting_at(a, a.len() as int).bare(),
        quoting_at(a, a.len() - 1).role(a.last()) == Role::Literal,
        quote == '\'' || quote == '"',
        !t.contains(quote),
        quote == '"' ==> !t.contains('\\'),
    ensures
        command_words(a).len() > 0,
        command_words(a + seq![quote] + t + seq![quote]) == command_words(a).drop_last().push(
            command_words(a).last() + t,
        ),
{
    let front = a.drop_last();
    assert(front.push(a.last()) == a);
    assert(a == front + seq![a.last()]);
    lemma_quoting_of_prefix(front, seq![a.last()], front.len() as int);
    lemma_step(front, a.last());
    let args = args_of(a);
    lemma_last_piece_in_words(args);
    let part = if quote == '\'' {
        Part::Single(t)
    } else {
        Part::Double(unescaped(t))
    };
    if quote == '"' {
        lemma_unescaped(t);
    }
    lemma_part(a, part);
    assert(a + part.text() == a + seq![quote] + t + seq![quote]);
    let more = extended(args, t);
    assert(more.drop_last() == args.drop_last());
    lemma_last_piece_in_words(more);
}

spec fn unescaped_letter(c: char) -> Letter {
    Letter { escaped: false, c }
}

spec fn unescaped(t: Seq<char>) -> Seq<Letter>
    decreases t.len(),
{
    if t.len() == 0 {
        seq![]
    } else {
        unescaped(t.drop_last()).push(unescaped_letter(t.last()))
    }
}

proof fn lemma_unescaped(t: Seq<char>)
    requires
        !t.contains('"'),
        !t.contains('\\'),
    ensures
        inner_text(unescaped(t)) == t,
        inner_value(unescaped(t)) == t,
        inner_writable(unescaped(t)),
    decreases t.len(),
{
    let inner = unescaped(t);
    if t.len() > 0 {
        let front = t.drop_last();
        assert(t[t.len() - 1] == t.last());
        assert(!front.contains('"') && !front.contains('\\')) by {
            assert(forall|k: int| 0 <= k < front.len() ==> front[k] == t[k]);
        }
        lemma_unescaped(front);
        let letter = unescaped_letter(t.last());
        assert(inner == unescaped(front).push(letter));
        assert(inner.drop_last() == unescaped(front));
        assert(front.push(t.last()) == t);
        assert(inner_value(inner) == inner_value(unescaped(front)).push(t.last()));
    }
}

/// A text in which no space and no tab stands outside of quotes, unless it is escaped, is one word
/// at most.
pub proof fn law_only_bare_blanks_end_words(s: Seq<char>)
    requires
        forall|i: int|
            0 <= i < s.len() && (#[trigger] s[i] == ' ' || s[i] == '\t') ==> !quoting_at(s, i).bare(),
    ensures
        command_words(s).len() <= 1,
{
    lemma_one_piece(s, s.len() as int);
    let pieces = args_of(s);
    assert(pieces.drop_last() == Seq::<Seq<char>>::empty());
    assert(non_empty(pieces.drop_last()).len() == 0);
}

proof fn lemma_one_piece(s: Seq<char>, n: int)
    requires
        0 <= n <= s.len(),
        forall|i: int|
            0 <= i < s.len() && (#[trigger] s[i] == ' ' || s[i] == '\t') ==> !quoting_at(s, i).bare(),
    ensures
        arg_pieces(s, n).len() == 1,
    decreases n,
{
    if n > 0 {
        lemma_one_piece(s, n - 1);
        assert(quoting_at(s, n - 1).role(s[n - 1]) != Role::Separator) by {
            if s[n - 1] == ' ' || s[n - 1] == '\t' {
                assert(!quoting_at(s, n - 1).bare());
            }
        }
    }
}

proof fn lemma_not_blank(s: Seq<char>, i: int)
    requires
        0 <= i < s.len(),
        !white_space(s[i]),
    ensures
        trimmed(s).len() > 0,
{
    let (from, to) = law_trim_takes_white_space_off(s);
    if trimmed(s).len() == 0 {
        assert(i < from || to <= i);
    }
}

/// In quotes that are still open at the end of a line, a bar splits nothing: they are the end of the
/// last segment.
pub proof fn law_open_quotes_hold_bars(parts: Seq<Part>, quoted: Part)
    requires
        forall|i: int| 0 <= i < parts.len() ==> (#[trigger] parts[i]).writable(),
        quoted is Single || quoted is Double,
        quoted.writable(),
    ensures
        ({
            let (commands, rest) = commands_meant(parts);
            let open = quoted.text().drop_last();
            let segments = pipeline_segments(line_text(parts) + open);
            &&& segments.len() == commands.len() + 1
            &&& segments.last() == trimmed(rest + open)
            &&& forall|i: int|
                0 <= i < commands.len() ==> #[trigger] segments[i] == trimmed(commands[i])
        }),
{
    let p = line_text(parts);
    let (commands, rest) = commands_meant(parts);
    let open = quoted.text().drop_last();
    lemma_parts(parts);
    assert(bars_of(p).drop_last() == commands);
    assert(bars_of(p).last() == rest);
    match quoted {
        Part::Single(t) => {
            lemma_in_single(p, t);
            assert(open == seq!['\''] + t);
            assert(p + open == p.push('\'') + t);
        },
        Part::Double(inner) => {
            lemma_in_double(p, inner);
            assert(open == seq!['"'] + inner_text(inner));
            assert(p + open == p.push('"') + inner_text(inner));
        },
        _ => {},
    }
    assert((rest + open)[rest.len() as int] == open[0]);
    lemma_not_blank(rest + open, rest.len() as int);
    let all = all_trimmed(commands.push(rest + open));
    assert(all.last() == trimmed(rest + open));
    assert forall|i: int| 0 <= i < commands.len() implies #[trigger] pipeline_segments(p + open)[i]
        == trimmed(commands[i]) by {
        assert(all[i] == trimmed(commands[i]));
    }
}

} // verus!
