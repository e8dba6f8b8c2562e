//! What holds of reading command lines, whatever the line.

use vstd::prelude::*;

use crate::lexer::{
    all_trimmed, arg_pieces, bar_pieces, command_words, pipeline_segments, quoting_at, splits_at,
    Quoting, Role,
};
use crate::text::{
    joined, law_trim_takes_white_space_off, lemma_non_empty_concat, lemma_trimmed_fixed, non_empty,
    trimmed, white_space,
};

verus! {

/// A text in single quotes.
pub open spec fn in_single_quotes(t: Seq<char>) -> Seq<char> {
    seq!['\''] + t + seq!['\'']
}

/// A text in double quotes.
pub open spec fn in_double_quotes(t: Seq<char>) -> Seq<char> {
    seq!['"'] + t + seq!['"']
}

/// A text with a backslash before each of its characters.
pub open spec fn escaped(t: Seq<char>) -> Seq<char>
    decreases t.len(),
{
    if t.len() == 0 {
        seq![]
    } else {
        escaped(t.drop_last()).push('\\').push(t.last())
    }
}

/// Whether a character means nothing but itself to the words of a command.
pub open spec fn ordinary(c: char) -> bool {
    c != ' ' && c != '\t' && c != '\\' && c != '"' && c != '\''
}

/// Whether a text is a word that needs no quotes.
pub open spec fn plain_word(w: Seq<char>) -> bool {
    w.len() > 0 && forall|i: int| 0 <= i < w.len() ==> ordinary(#[trigger] w[i])
}

/// Whether a text can stand as a segment of a pipeline as it is: it has no quotes, backslashes or
/// bars, and no white space at its ends.
pub open spec fn plain_segment(t: Seq<char>) -> bool {
    &&& forall|i: int|
        0 <= i < t.len() ==> #[trigger] t[i] != '\\' && t[i] != '"' && t[i] != '\'' && t[i] != '|'
    &&& t.len() > 0 ==> !white_space(t.first()) && !white_space(t.last())
}

pub(crate) proof fn lemma_quoting_of_prefix(s: Seq<char>, t: Seq<char>, n: int)
    requires
        n <= s.len(),
    ensures
        quoting_at(s + t, n) == quoting_at(s, n),
    decreases n,
{
    if n > 0 {
        lemma_quoting_of_prefix(s, t, n - 1);
    }
}

pub(crate) proof fn lemma_args_of_prefix(s: Seq<char>, t: Seq<char>, n: int)
    requires
        n <= s.len(),
    ensures
        arg_pieces(s + t, n) == arg_pieces(s, n),
    decreases n,
{
    if n > 0 {
        lemma_args_of_prefix(s, t, n - 1);
        lemma_quoting_of_prefix(s, t, n - 1);
    }
}

pub(crate) proof fn lemma_bars_of_prefix(s: Seq<char>, t: Seq<char>, n: int)
    requires
        n <= s.len(),
    ensures
        bar_pieces(s + t, n) == bar_pieces(s, n),
    decreases n,
{
    if n > 0 {
        lemma_bars_of_prefix(s, t, n - 1);
        lemma_quoting_of_prefix(s, t, n - 1);
    }
}

/// Characters that are literal where they stand, and leave that as it is, extend the last word.
proof fn lemma_literal_run(s: Seq<char>, from: int, to: int, q: Quoting)
    requires
        0 <= from <= to <= s.len(),
        quoting_at(s, from) == q,
        arg_pieces(s, from).len() > 0,
        forall|j: int|
            from <= j < to ==> q.role(#[trigger] s[j]) == Role::Literal && q.after(s[j]) == q,
    ensures
        quoting_at(s, to) == q,
        arg_pieces(s, to) == arg_pieces(s, from).drop_last().push(
            arg_pieces(s, from).last() + s.subrange(from, to),
        ),
    decreases to - from,
{
    let first = arg_pieces(s, from);
    if from == to {
        assert(first.last() + s.subrange(from, to) == first.last());
        assert(first.drop_last().push(first.last()) == first);
    } else {
        lemma_literal_run(s, from, to - 1, q);
        let before = arg_pieces(s, to - 1);
        assert(q.role(s[to - 1]) == Role::Literal);
        assert(before.drop_last() == first.drop_last());
        assert((first.last() + s.subrange(from, to - 1)).push(s[to - 1]) == first.last()
            + s.subrange(from, to));
    }
}

/// Characters that neither split nor change the state extend the last segment.
proof fn lemma_bar_run(s: Seq<char>, from: int, to: int, q: Quoting)
    requires
        0 <= from <= to <= s.len(),
        quoting_at(s, from) == q,
        bar_pieces(s, from).len() > 0,
        forall|j: int|
            from <= j < to ==> q.after(#[trigger] s[j]) == q && !(s[j] == '|' && q.bare()),
    ensures
        quoting_at(s, to) == q,
        bar_pieces(s, to) == bar_pieces(s, from).drop_last().push(
            bar_pieces(s, from).last() + s.subrange(from, to),
        ),
    decreases to - from,
{
    let first = bar_pieces(s, from);
    if from == to {
        assert(first.last() + s.subrange(from, to) == first.last());
        assert(first.drop_last().push(first.last()) == first);
    } else {
        lemma_bar_run(s, from, to - 1, q);
        let before = bar_pieces(s, to - 1);
        assert(q.after(s[to - 1]) == q);
        assert(!splits_at(s, to - 1));
        assert(before.drop_last() == first.drop_last());
        assert((first.last() + s.subrange(from, to - 1)).push(s[to - 1]) == first.last()
            + s.subrange(from, to));
    }
}

proof fn lemma_non_empty_fixed(words: Seq<Seq<char>>)
    requires
        forall|i: int| 0 <= i < words.len() ==> (#[trigger] words[i]).len() > 0,
    ensures
        non_empty(words) == words,
    decreases words.len(),
{
    if words.len() > 0 {
        lemma_non_empty_fixed(words.drop_last());
        assert(words.drop_last().push(words.last()) == words);
    } else {
        assert(non_empty(words) == words);
    }
}

proof fn lemma_single_piece(t: Seq<char>)
    ensures
        non_empty(seq![t]) == (if t.len() == 0 {
            Seq::<Seq<char>>::empty()
        } else {
            seq![t]
        }),
{
    assert(seq![t].drop_last() == Seq::<Seq<char>>::empty());
    assert(non_empty(seq![t].drop_last()) == Seq::<Seq<char>>::empty());
    assert(Seq::<Seq<char>>::empty().push(t) == seq![t]);
}

/// One word, or none where it is empty.
pub open spec fn one_word(t: Seq<char>) -> Seq<Seq<char>> {
    if t.len() == 0 {
        seq![]
    } else {
        seq![t]
    }
}

proof fn lemma_quoted(quote: char, t: Seq<char>)
    requires
        quote == '\'' || quote == '"',
        !t.contains(quote),
        quote == '"' ==> !t.contains('\\'),
    ensures
        ({
            let s = seq![quote] + t + seq![quote];
            &&& quoting_at(s, s.len() as int) == Quoting::plain()
            &&& arg_pieces(s, s.len() as int) == seq![t]
            &&& bar_pieces(s, s.len() as int) == seq![s]
            &&& trimmed(s) == s
        }),
{
    let s = seq![quote] + t + seq![quote];
    let n = t.len() as int;
    let q = Quoting { single: quote == '\'', double: quote == '"', escaped: false };
    let empty = Seq::<char>::empty();
    assert(s.len() == n + 2 && s[0] == quote && s[n + 1] == quote);
    assert(quoting_at(s, 0) == Quoting::plain());
    assert(quoting_at(s, 1) == q);
    assert(arg_pieces(s, 0) == seq![empty]);
    assert(arg_pieces(s, 1) == seq![empty]);
    assert(bar_pieces(s, 0) == seq![empty]);
    assert(seq![empty].drop_last() == Seq::<Seq<char>>::empty());
    assert(empty.push(quote) == seq![quote]);
    assert(bar_pieces(s, 1) == seq![seq![quote]]);
    assert forall|j: int| 1 <= j < n + 1 implies q.role(#[trigger] s[j]) == Role::Literal && q.after(
        s[j],
    ) == q by {
        assert(s[j] == t[j - 1]);
    }
    lemma_literal_run(s, 1, n + 1, q);
    assert(s.subrange(1, n + 1) == t);
    assert(empty + t == t);
    assert(arg_pieces(s, n + 1) == seq![t]);
    assert(arg_pieces(s, n + 2) == seq![t]);
    lemma_bar_run(s, 1, n + 1, q);
    assert(seq![seq![quote]].drop_last() == Seq::<Seq<char>>::empty());
    assert(seq![quote] + s.subrange(1, n + 1) == s.take(n + 1));
    assert(bar_pieces(s, n + 1) == seq![s.take(n + 1)]);
    assert(seq![s.take(n + 1)].drop_last() == Seq::<Seq<char>>::empty());
    assert(s.take(n + 1).push(quote) == s);
    assert(bar_pieces(s, n + 2) == seq![s]);
    lemma_trimmed_fixed(s);
}

/// Within single quotes every character is literal: a text without single quotes comes back as one
/// word.
pub proof fn law_single_quotes(t: Seq<char>)
    requires
        !t.contains('\''),
    ensures
        command_words(in_single_quotes(t)) == one_word(t),
{
    lemma_quoted('\'', t);
    lemma_single_piece(t);
}

/// Within double quotes every character but a backslash is literal: a text without double quotes
/// and backslashes comes back as one word.
pub proof fn law_double_quotes(t: Seq<char>)
    requires
        !t.contains('"'),
        !t.contains('\\'),
    ensures
        command_words(in_double_quotes(t)) == one_word(t),
{
    lemma_quoted('"', t);
    lemma_single_piece(t);
}

proof fn lemma_escaped(t: Seq<char>)
    ensures
        quoting_at(escaped(t), escaped(t).len() as int) == Quoting::plain(),
        arg_pieces(escaped(t), escaped(t).len() as int) == seq![t],
        bar_pieces(escaped(t), escaped(t).len() as int) == seq![escaped(t)],
    decreases t.len(),
{
    let empty = Seq::<char>::empty();
    if t.len() == 0 {
        assert(t == empty);
        assert(escaped(t) == empty);
    } else {
        let front = t.drop_last();
        let p = escaped(front);
        let n = p.len() as int;
        let s = escaped(t);
        lemma_escaped(front);
        let tail = seq!['\\', t.last()];
        assert(s == p + tail);
        lemma_quoting_of_prefix(p, tail, n);
        lemma_args_of_prefix(p, tail, n);
        lemma_bars_of_prefix(p, tail, n);
        let q = Quoting { single: false, double: false, escaped: true };
        assert(s[n] == '\\' && s[n + 1] == t.last());
        assert(quoting_at(s, n + 1) == q);
        assert(arg_pieces(s, n + 1) == seq![front]);
        assert(seq![front].drop_last() == Seq::<Seq<char>>::empty());
        assert(arg_pieces(s, n + 2) == Seq::<Seq<char>>::empty().push(front.push(t.last())));
        assert(front.push(t.last()) == t);
        assert(arg_pieces(s, n + 2) == seq![t]);
        assert(!splits_at(s, n));
        assert(!splits_at(s, n + 1));
        assert(seq![p].drop_last() == Seq::<Seq<char>>::empty());
        assert(bar_pieces(s, n + 1) == seq![p.push('\\')]);
        assert(seq![p.push('\\')].drop_last() == Seq::<Seq<char>>::empty());
        assert(bar_pieces(s, n + 2) == seq![p.push('\\').push(t.last())]);
    }
}

/// A backslash makes the next character literal, whatever it is: a text whose characters are all
/// escaped comes back as one word.
pub proof fn law_escapes(t: Seq<char>)
    ensures
        command_words(escaped(t)) == one_word(t),
{
    lemma_escaped(t);
    lemma_single_piece(t);
}

proof fn lemma_plain_words(words: Seq<Seq<char>>)
    requires
        words.len() > 0,
        forall|i: int| 0 <= i < words.len() ==> plain_word(#[trigger] words[i]),
    ensures
        quoting_at(joined(words, ' '), joined(words, ' ').len() as int) == Quoting::plain(),
        arg_pieces(joined(words, ' '), joined(words, ' ').len() as int) == words,
    decreases words.len(),
{
    let s = joined(words, ' ');
    let n = s.len() as int;
    let q = Quoting::plain();
    let empty = Seq::<char>::empty();
    let w = words.last();
    assert(plain_word(words[words.len() - 1]));
    if words.len() == 1 {
        assert(quoting_at(s, 0) == q);
        assert(arg_pieces(s, 0) == seq![empty]);
        assert forall|j: int| 0 <= j < n implies q.role(#[trigger] s[j]) == Role::Literal
            && q.after(s[j]) == q by {
            assert(ordinary(w[j]));
        }
        lemma_literal_run(s, 0, n, q);
        assert(empty + s.subrange(0, n) == w);
        assert(seq![empty].drop_last().push(w) == words);
    } else {
        let front = words.drop_last();
        let p = joined(front, ' ');
        let m = p.len() as int;
        assert forall|i: int| 0 <= i < front.len() implies plain_word(#[trigger] front[i]) by {
            assert(front[i] == words[i]);
        }
        lemma_plain_words(front);
        let tail = seq![' '] + w;
        assert(s == p + tail);
        lemma_quoting_of_prefix(p, tail, m);
        lemma_args_of_prefix(p, tail, m);
        assert(s[m] == ' ');
        assert(quoting_at(s, m + 1) == q);
        assert(arg_pieces(s, m + 1) == front.push(empty));
        assert forall|j: int| m + 1 <= j < n implies q.role(#[trigger] s[j]) == Role::Literal
            && q.after(s[j]) == q by {
            assert(s[j] == w[j - m - 1]);
            assert(ordinary(w[j - m - 1]));
        }
        lemma_literal_run(s, m + 1, n, q);
        assert(empty + s.subrange(m + 1, n) == w);
        assert(front.push(empty).drop_last() == front);
        assert(front.push(w) == words);
    }
}

/// Words that need no quotes come back as they were, when a space is set between them.
pub proof fn law_plain_words_come_back(words: Seq<Seq<char>>)
    requires
        forall|i: int| 0 <= i < words.len() ==> plain_word(#[trigger] words[i]),
    ensures
        command_words(joined(words, ' ')) == words,
{
    if words.len() == 0 {
        lemma_single_piece(Seq::<char>::empty());
        assert(words == Seq::<Seq<char>>::empty());
    } else {
        lemma_plain_words(words);
        assert forall|i: int| 0 <= i < words.len() implies (#[trigger] words[i]).len() > 0 by {
            assert(plain_word(words[i]));
        }
        lemma_non_empty_fixed(words);
    }
}

proof fn lemma_no_split(s: Seq<char>, n: int)
    requires
        0 <= n <= s.len(),
        forall|i: int| 0 <= i < s.len() ==> !splits_at(s, i),
    ensures
        bar_pieces(s, n) == seq![s.take(n)],
    decreases n,
{
    if n == 0 {
        assert(s.take(0) == Seq::<char>::empty());
    } else {
        lemma_no_split(s, n - 1);
        assert(!splits_at(s, n - 1));
        assert(s.take(n - 1).push(s[n - 1]) == s.take(n));
        assert(seq![s.take(n - 1)].drop_last() == Seq::<Seq<char>>::empty());
        assert(bar_pieces(s, n) == seq![s.take(n)]);
    }
}

/// A line is one segment, or none where it is blank, unless a bar stands in it outside of quotes
/// and not escaped.
pub proof fn law_only_bare_bars_split(s: Seq<char>)
    requires
        forall|i: int| 0 <= i < s.len() ==> !splits_at(s, i),
    ensures
        pipeline_segments(s) == one_word(trimmed(s)),
{
    lemma_no_split(s, s.len() as int);
    assert(s.take(s.len() as int) == s);
    let segments = all_trimmed(seq![s]);
    assert(segments == seq![trimmed(s)]);
    assert(segments.drop_last() == Seq::<Seq<char>>::empty());
}

/// A bar within single quotes splits nothing.
pub proof fn law_single_quoted_bars_do_not_split(t: Seq<char>)
    requires
        !t.contains('\''),
    ensures
        pipeline_segments(in_single_quotes(t)) == seq![in_single_quotes(t)],
{
    lemma_quoted('\'', t);
    assert(all_trimmed(seq![in_single_quotes(t)]) == seq![in_single_quotes(t)]);
}

/// A bar within double quotes splits nothing.
pub proof fn law_double_quoted_bars_do_not_split(t: Seq<char>)
    requires
        !t.contains('"'),
        !t.contains('\\'),
    ensures
        pipeline_segments(in_double_quotes(t)) == seq![in_double_quotes(t)],
{
    lemma_quoted('"', t);
    assert(all_trimmed(seq![in_double_quotes(t)]) == seq![in_double_quotes(t)]);
}

/// A bar after a backslash splits nothing.
pub proof fn law_escaped_bars_do_not_split(t: Seq<char>)
    ensures
        pipeline_segments(escaped(t)) == one_word(trimmed(escaped(t))),
{
    lemma_escaped(t);
    let segments = all_trimmed(seq![escaped(t)]);
    assert(segments == seq![trimmed(escaped(t))]);
    assert(segments.drop_last() == Seq::<Seq<char>>::empty());
}

proof fn lemma_plain_segments(segments: Seq<Seq<char>>)
    requires
        segments.len() > 0,
        forall|i: int| 0 <= i < segments.len() ==> plain_segment(#[trigger] segments[i]),
    ensures
        quoting_at(joined(segments, '|'), joined(segments, '|').len() as int) == Quoting::plain(),
        bar_pieces(joined(segments, '|'), joined(segments, '|').len() as int) == segments,
    decreases segments.len(),
{
    let s = joined(segments, '|');
    let n = s.len() as int;
    let q = Quoting::plain();
    let empty = Seq::<char>::empty();
    let t = segments.last();
    assert(plain_segment(segments[segments.len() - 1]));
    if segments.len() == 1 {
        assert(quoting_at(s, 0) == q);
        assert(bar_pieces(s, 0) == seq![empty]);
        assert forall|j: int| 0 <= j < n implies q.after(#[trigger] s[j]) == q && !(s[j] == '|'
            && q.bare()) by {
            assert(s[j] == t[j]);
        }
        lemma_bar_run(s, 0, n, q);
        assert(empty + s.subrange(0, n) == t);
        assert(seq![empty].drop_last().push(t) == segments);
    } else {
        let front = segments.drop_last();
        let p = joined(front, '|');
        let m = p.len() as int;
        assert forall|i: int| 0 <= i < front.len() implies plain_segment(#[trigger] front[i]) by {
            assert(front[i] == segments[i]);
        }
        lemma_plain_segments(front);
        let tail = seq!['|'] + t;
        assert(s == p + tail);
        lemma_quoting_of_prefix(p, tail, m);
        lemma_bars_of_prefix(p, tail, m);
        assert(s[m] == '|');
        assert(splits_at(s, m));
        assert(quoting_at(s, m + 1) == q);
        assert(bar_pieces(s, m + 1) == front.push(empty));
        assert forall|j: int| m + 1 <= j < n implies q.after(#[trigger] s[j]) == q && !(s[j] == '|'
            && q.bare()) by {
            assert(s[j] == t[j - m - 1]);
        }
        lemma_bar_run(s, m + 1, n, q);
        assert(empty + s.subrange(m + 1, n) == t);
        assert(front.push(empty).drop_last() == front);
        assert(front.push(t) == segments);
    }
}

/// Plain segments come back as they were, when a bar is set between them; the last must not be
/// empty.
pub proof fn law_plain_segments_come_back(segments: Seq<Seq<char>>)
    requires
        segments.len() > 0,
        segments.last().len() > 0,
        forall|i: int| 0 <= i < segments.len() ==> plain_segment(#[trigger] segments[i]),
    ensures
        pipeline_segments(joined(segments, '|')) == segments,
{
    lemma_plain_segments(segments);
    assert forall|i: int| 0 <= i < segments.len() implies trimmed(#[trigger] segments[i])
        == segments[i] by {
        assert(plain_segment(segments[i]));
        lemma_trimmed_fixed(segments[i]);
    }
    assert(all_trimmed(segments) =~= segments);
}

proof fn lemma_quoting_of_part(s: Seq<char>, at: int, t: Seq<char>, n: int)
    requires
        0 <= at,
        at + t.len() <= s.len(),
        t == s.subrange(at, at + t.len()),
        quoting_at(s, at) == Quoting::plain(),
        0 <= n <= t.len(),
    ensures
        quoting_at(t, n) == quoting_at(s, at + n),
    decreases n,
{
    if n > 0 {
        lemma_quoting_of_part(s, at, t, n - 1);
        assert(t[n - 1] == s[at + n - 1]);
    }
}

/// A text that starts where no quotes are open, and a new piece begins, is read as if it stood alone.
proof fn lemma_pieces_of_rest(p: Seq<char>, t: Seq<char>, n: int)
    requires
        quoting_at(p, p.len() as int) == Quoting::plain(),
        0 <= n <= t.len(),
    ensures
        quoting_at(p + t, p.len() + n) == quoting_at(t, n),
        bar_pieces(p, p.len() as int).len() > 0 && bar_pieces(p, p.len() as int).last().len() == 0
            ==> bar_pieces(p + t, p.len() + n) == bar_pieces(p, p.len() as int).drop_last()
            + bar_pieces(t, n),
        arg_pieces(p, p.len() as int).len() > 0 && arg_pieces(p, p.len() as int).last().len() == 0
            ==> arg_pieces(p + t, p.len() + n) == arg_pieces(p, p.len() as int).drop_last()
            + arg_pieces(t, n),
        bar_pieces(t, n).len() > 0,
        arg_pieces(t, n).len() > 0,
    decreases n,
{
    let s = p + t;
    let m = p.len() as int;
    let bars = bar_pieces(p, m);
    let args = arg_pieces(p, m);
    lemma_quoting_of_prefix(p, t, m);
    assert(s.subrange(m, m + t.len()) == t);
    lemma_quoting_of_part(s, m, t, n);
    let empty = Seq::<char>::empty();
    if n == 0 {
        lemma_bars_of_prefix(p, t, m);
        lemma_args_of_prefix(p, t, m);
        if bars.len() > 0 && bars.last().len() == 0 {
            assert(bars.last() == empty);
            assert(bars == bars.drop_last() + seq![empty]);
        }
        if args.len() > 0 && args.last().len() == 0 {
            assert(args.last() == empty);
            assert(args == args.drop_last() + seq![empty]);
        }
    } else {
        let c = t[n - 1];
        lemma_pieces_of_rest(p, t, n - 1);
        assert(s[m + n - 1] == c);
        let b = bar_pieces(t, n - 1);
        let a = arg_pieces(t, n - 1);
        let head = bars.drop_last();
        assert((head + b).push(empty) == head + b.push(empty));
        assert((head + b).last() == b.last());
        assert((head + b).drop_last().push(b.last().push(c)) == head + b.drop_last().push(
            b.last().push(c),
        ));
        let front = args.drop_last();
        assert((front + a).push(empty) == front + a.push(empty));
        assert((front + a).last() == a.last());
        assert((front + a).drop_last().push(a.last().push(c)) == front + a.drop_last().push(
            a.last().push(c),
        ));
    }
}

/// Two lines with a bar between them, the first of which leaves no quotes open and nothing escaped,
/// give the segments of both. The last segment of the first line counts even where it is empty.
pub proof fn law_bar_joins_lines(a: Seq<char>, b: Seq<char>)
    requires
        quoting_at(a, a.len() as int).bare(),
    ensures
        pipeline_segments(a.push('|') + b) == all_trimmed(bar_pieces(a, a.len() as int))
            + pipeline_segments(b),
        trimmed(bar_pieces(a, a.len() as int).last()).len() > 0 ==> pipeline_segments(
            a.push('|') + b,
        ) == pipeline_segments(a) + pipeline_segments(b),
{
    let n = a.len() as int;
    let p = a.push('|');
    let empty = Seq::<char>::empty();
    assert(p == a + seq!['|']);
    lemma_quoting_of_prefix(a, seq!['|'], n);
    lemma_bars_of_prefix(a, seq!['|'], n);
    let head = bar_pieces(a, n);
    assert(splits_at(p, n));
    assert(bar_pieces(p, n + 1) == head.push(empty));
    assert(head.push(empty).drop_last() == head);
    lemma_pieces_of_rest(p, b, b.len() as int);
    let rest = bar_pieces(b, b.len() as int);
    assert(all_trimmed(head + rest) == all_trimmed(head) + all_trimmed(rest));
    assert((all_trimmed(head) + all_trimmed(rest)).last() == all_trimmed(rest).last());
    assert((all_trimmed(head) + all_trimmed(rest)).drop_last() == all_trimmed(head) + all_trimmed(
        rest,
    ).drop_last());
    lemma_pieces_of_rest(empty, a, n);
}

/// Two texts with a space or a tab between them, the first of which leaves no quotes open and
/// nothing escaped, give the words of both.
pub proof fn law_blank_joins_words(a: Seq<char>, blank: char, b: Seq<char>)
    requires
        quoting_at(a, a.len() as int).bare(),
        blank == ' ' || blank == '\t',
    ensures
        command_words(a.push(blank) + b) == command_words(a) + command_words(b),
        quoting_at(a.push(blank) + b, (a.push(blank) + b).len() as int) == quoting_at(
            b,
            b.len() as int,
        ),
{
    let n = a.len() as int;
    let p = a.push(blank);
    let empty = Seq::<char>::empty();
    assert(p == a + seq![blank]);
    lemma_quoting_of_prefix(a, seq![blank], n);
    lemma_args_of_prefix(a, seq![blank], n);
    let head = arg_pieces(a, n);
    assert(quoting_at(p, n).role(p[n]) == Role::Separator);
    assert(arg_pieces(p, n + 1) == head.push(empty));
    assert(head.push(empty).drop_last() == head);
    lemma_pieces_of_rest(p, b, b.len() as int);
    lemma_non_empty_concat(head, arg_pieces(b, b.len() as int));
}

/// Each text with a backslash before each of its characters.
pub open spec fn all_escaped(words: Seq<Seq<char>>) -> Seq<Seq<char>> {
    Seq::new(words.len(), |i: int| escaped(words[i]))
}

proof fn lemma_escaped_words(words: Seq<Seq<char>>)
    requires
        forall|i: int| 0 <= i < words.len() ==> (#[trigger] words[i]).len() > 0,
    ensures
        ({
            let s = joined(all_escaped(words), ' ');
            &&& quoting_at(s, s.len() as int) == Quoting::plain()
            &&& command_words(s) == words
        }),
    decreases words.len(),
{
    let s = joined(all_escaped(words), ' ');
    if words.len() == 0 {
        lemma_single_piece(Seq::<char>::empty());
        assert(words == Seq::<Seq<char>>::empty());
    } else {
        let front = words.drop_last();
        let w = words.last();
        assert(words[words.len() - 1].len() > 0);
        law_escapes(w);
        lemma_escaped(w);
        if words.len() == 1 {
            assert(s == escaped(w));
            assert(words == seq![w]);
        } else {
            assert forall|i: int| 0 <= i < front.len() implies (#[trigger] front[i]).len() > 0 by {
                assert(front[i] == words[i]);
            }
            lemma_escaped_words(front);
            assert(all_escaped(words).drop_last() == all_escaped(front));
            law_blank_joins_words(joined(all_escaped(front), ' '), ' ', escaped(w));
            assert(front + seq![w] == words);
        }
    }
}

/// Words whose characters are all escaped come back as they were, whatever they hold, when a space
/// is set between them.
pub proof fn law_escaped_words_come_back(words: Seq<Seq<char>>)
    requires
        forall|i: int| 0 <= i < words.len() ==> (#[trigger] words[i]).len() > 0,
    ensures
        command_words(joined(all_escaped(words), ' ')) == words,
{
    lemma_escaped_words(words);
}

spec fn whole_segment(s: Seq<char>, from: int, to: int, piece: Seq<char>) -> bool {
    &&& 0 <= from <= to <= s.len()
    &&& piece == s.subrange(from, to)
    &&& quoting_at(s, from) == Quoting::plain()
    &&& forall|j: int| from <= j < to ==> !splits_at(s, j)
}

proof fn lemma_piece_place(s: Seq<char>, n: int, k: int)
    requires
        0 <= n <= s.len(),
        0 <= k < bar_pieces(s, n).len(),
    ensures
        k == bar_pieces(s, n).len() - 1 ==> exists|from: int|
            whole_segment(s, from, n, bar_pieces(s, n)[k]),
        exists|from: int, to: int| whole_segment(s, from, to, bar_pieces(s, n)[k]),
    decreases n,
{
    let pieces = bar_pieces(s, n);
    if n == 0 {
        assert(s.subrange(0, 0) == Seq::<char>::empty());
        assert(whole_segment(s, 0, n, pieces[k]));
    } else {
        let before = bar_pieces(s, n - 1);
        lemma_pieces_of_rest(Seq::<char>::empty(), s, n - 1);
        if splits_at(s, n - 1) {
            if k < before.len() {
                lemma_piece_place(s, n - 1, k);
                assert(pieces[k] == before[k]);
            } else {
                assert(s.subrange(n, n) == Seq::<char>::empty());
                assert(whole_segment(s, n, n, pieces[k]));
            }
        } else {
            lemma_piece_place(s, n - 1, k);
            if k < before.len() - 1 {
                assert(pieces[k] == before[k]);
            } else {
                let end = n - 1;
                let from = choose|from: int| whole_segment(s, from, end, before[k]);
                assert(s.subrange(from, n) == s.subrange(from, n - 1).push(s[n - 1]));
                assert(whole_segment(s, from, n, pieces[k]));
            }
        }
    }
}

proof fn lemma_blanks_keep_state(s: Seq<char>, from: int, to: int)
    requires
        0 <= from <= to <= s.len(),
        quoting_at(s, from) == Quoting::plain(),
        forall|j: int| from <= j < to ==> white_space(#[trigger] s[j]),
    ensures
        quoting_at(s, to) == Quoting::plain(),
    decreases to - from,
{
    if from < to {
        lemma_blanks_keep_state(s, from, to - 1);
        assert(white_space(s[to - 1]));
    }
}

/// A segment of a pipeline, read as a line of its own, is one segment again: itself.
pub proof fn law_segment_splits_into_itself(s: Seq<char>, k: int)
    requires
        0 <= k < pipeline_segments(s).len(),
    ensures
        pipeline_segments(pipeline_segments(s)[k]) == one_word(pipeline_segments(s)[k]),
{
    let n = s.len() as int;
    let piece = bar_pieces(s, n)[k];
    let t = trimmed(piece);
    assert(pipeline_segments(s)[k] == t);
    lemma_piece_place(s, n, k);
    let (from, to) = choose|from: int, to: int| whole_segment(s, from, to, piece);
    let (x, y) = law_trim_takes_white_space_off(piece);
    let at = from + x;
    assert forall|j: int| from <= j < at implies white_space(#[trigger] s[j]) by {
        assert(s[j] == piece[j - from]);
    }
    lemma_blanks_keep_state(s, from, at);
    assert(t == s.subrange(at, at + t.len()));
    assert forall|i: int| 0 <= i < t.len() implies !splits_at(t, i) by {
        lemma_quoting_of_part(s, at, t, i);
        assert(t[i] == s[at + i]);
        assert(!splits_at(s, at + i));
    }
    law_only_bare_bars_split(t);
    lemma_trimmed_fixed(t);
}

} // verus!
