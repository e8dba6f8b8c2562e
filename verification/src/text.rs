//! Text as a sequence of characters: the few operations on strings that the shell is built from.

use vstd::prelude::*;
use vstd::string::*;

verus! {

/// `String::push`: appends one character to the end of the string.
pub assume_specification[ String::push ](s: &mut String, c: char)
    ensures
        final(s)@ == old(s)@.push(c),
;

/// The characters of a string, one by one.
pub fn chars_of(s: &str) -> (r: Vec<char>)
    ensures
        r@ == s@,
{
    let mut r: Vec<char> = Vec::new();
    for c in it: s.chars()
        invariant
            it.seq() == s@,
            r@ == s@.take(it.index() as int),
    {
        r.push(c);
    }
    assert(r@ == s@);
    r
}

/// The string made of the characters of `v` from `from` up to `to`.
pub fn text_between(v: &Vec<char>, from: usize, to: usize) -> (r: String)
    requires
        from <= to <= v.len(),
    ensures
        r@ == v@.subrange(from as int, to as int),
{
    let mut r = String::new();
    let mut i: usize = from;
    while i < to
        invariant
            from <= i <= to <= v.len(),
            r@ == v@.subrange(from as int, i as int),
        decreases to - i,
    {
        r.push(v[i]);
        i += 1;
        assert(v@.subrange(from as int, i as int) == v@.subrange(from as int, i - 1).push(v@[i - 1]));
    }
    r
}

/// Whether two strings hold the same characters.
pub fn same_text(a: &str, b: &str) -> (r: bool)
    ensures
        r == (a@ == b@),
{
    let x = chars_of(a);
    let y = chars_of(b);
    if x.len() != y.len() {
        return false;
    }
    let mut i: usize = 0;
    while i < x.len()
        invariant
            i <= x.len(),
            x.len() == y.len(),
            x@ == a@,
            y@ == b@,
            forall|j: int| 0 <= j < i ==> x@[j] == y@[j],
        decreases x.len() - i,
    {
        if x[i] != y[i] {
            return false;
        }
        i += 1;
    }
    assert(a@ == b@);
    true
}

/// The characters that Unicode gives the property White_Space.
pub open spec fn white_space(c: char) -> bool {
    ||| 0x09 <= c as u32 <= 0x0d
    ||| c as u32 == 0x20
    ||| c as u32 == 0x85
    ||| c as u32 == 0xa0
    ||| c as u32 == 0x1680
    ||| 0x2000 <= c as u32 <= 0x200a
    ||| 0x2028 <= c as u32 <= 0x2029
    ||| c as u32 == 0x202f
    ||| c as u32 == 0x205f
    ||| c as u32 == 0x3000
}

/// Whether a character is white space.
pub fn is_white_space(c: char) -> (r: bool)
    ensures
        r == white_space(c),
{
    let n: u32 = c as u32;
    (0x09 <= n && n <= 0x0d) || n == 0x20 || n == 0x85 || n == 0xa0 || n == 0x1680 || (0x2000 <= n
        && n <= 0x200a) || (0x2028 <= n && n <= 0x2029) || n == 0x202f || n == 0x205f || n == 0x3000
}

/// A text without the white space at its start.
pub open spec fn trimmed_start(s: Seq<char>) -> Seq<char>
    decreases s.len(),
{
    if s.len() > 0 && white_space(s.first()) {
        trimmed_start(s.drop_first())
    } else {
        s
    }
}

/// A text without the white space at its end.
pub open spec fn trimmed_end(s: Seq<char>) -> Seq<char>
    decreases s.len(),
{
    if s.len() > 0 && white_space(s.last()) {
        trimmed_end(s.drop_last())
    } else {
        s
    }
}

/// A text without the white space at its two ends.
pub open spec fn trimmed(s: Seq<char>) -> Seq<char> {
    trimmed_end(trimmed_start(s))
}

proof fn lemma_trimmed_start_at(s: Seq<char>, k: int)
    requires
        0 <= k <= s.len(),
        forall|j: int| 0 <= j < k ==> white_space(s[j]),
        k < s.len() ==> !white_space(s[k]),
    ensures
        trimmed_start(s) == s.skip(k),
    decreases k,
{
    if k > 0 {
        let t = s.drop_first();
        assert(forall|j: int| 0 <= j < k - 1 ==> t[j] == s[j + 1]);
        lemma_trimmed_start_at(t, k - 1);
        assert(t.skip(k - 1) == s.skip(k));
    } else {
        assert(s.skip(0) == s);
    }
}

proof fn lemma_trimmed_end_at(s: Seq<char>, k: int)
    requires
        0 <= k <= s.len(),
        forall|j: int| k <= j < s.len() ==> white_space(s[j]),
        k > 0 ==> !white_space(s[k - 1]),
    ensures
        trimmed_end(s) == s.take(k),
    decreases s.len() - k,
{
    if k < s.len() {
        lemma_trimmed_end_at(s.drop_last(), k);
        assert(s.drop_last().take(k) == s.take(k));
    } else {
        assert(s.take(k) == s);
    }
}

/// A text that neither starts nor ends with white space is its own trimmed form.
pub proof fn lemma_trimmed_fixed(s: Seq<char>)
    requires
        s.len() > 0 ==> !white_space(s.first()) && !white_space(s.last()),
    ensures
        trimmed(s) == s,
{
}

proof fn lemma_trimmed_start_bound(s: Seq<char>) -> (from: int)
    ensures
        0 <= from <= s.len(),
        trimmed_start(s) == s.skip(from),
        forall|j: int| 0 <= j < from ==> white_space(s[j]),
        from < s.len() ==> !white_space(s[from]),
    decreases s.len(),
{
    if s.len() > 0 && white_space(s.first()) {
        let rest = s.drop_first();
        let from = lemma_trimmed_start_bound(rest) + 1;
        assert(rest.skip(from - 1) == s.skip(from));
        assert forall|j: int| 0 <= j < from implies white_space(s[j]) by {
            if j > 0 {
                assert(white_space(rest[j - 1]));
            }
        }
        assert(from < s.len() ==> s[from] == rest[from - 1]);
        from
    } else {
        assert(s.skip(0) == s);
        0
    }
}

proof fn lemma_trimmed_end_bound(s: Seq<char>) -> (to: int)
    ensures
        0 <= to <= s.len(),
        trimmed_end(s) == s.take(to),
        to > 0 ==> !white_space(s[to - 1]),
        forall|j: int| to <= j < s.len() ==> white_space(s[j]),
    decreases s.len(),
{
    if s.len() > 0 && white_space(s.last()) {
        let to = lemma_trimmed_end_bound(s.drop_last());
        assert(s.drop_last().take(to) == s.take(to));
        assert forall|j: int| to <= j < s.len() implies white_space(s[j]) by {
            if j < s.len() - 1 {
                assert(white_space(s.drop_last()[j]));
            }
        }
        to
    } else {
        assert(s.take(s.len() as int) == s);
        s.len() as int
    }
}

/// The string without the white space at its two ends.
pub fn trim(s: &str) -> (r: &str)
    ensures
        r@ == trimmed(s@),
{
    let v = chars_of(s);
    let n: usize = v.len();
    let mut from: usize = 0;
    while from < n && is_white_space(v[from])
        invariant
            from <= n == v.len(),
            v@ == s@,
            forall|j: int| 0 <= j < from ==> white_space(v@[j]),
        decreases n - from,
    {
        from += 1;
    }
    let mut to: usize = n;
    while to > from && is_white_space(v[to - 1])
        invariant
            from <= to <= n == v.len(),
            v@ == s@,
            forall|j: int| to <= j < n ==> white_space(v@[j]),
        decreases to,
    {
        to -= 1;
    }
    proof {
        lemma_trimmed_start_at(s@, from as int);
        let t = s@.skip(from as int);
        assert(forall|j: int| to - from <= j < t.len() ==> t[j] == s@[j + from]);
        assert(to > from ==> t[to - from - 1] == s@[to - 1]);
        lemma_trimmed_end_at(t, to - from);
        assert(t.take(to - from) == s@.subrange(from as int, to as int));
    }
    s.substring_char(from, to)
}

/// Whether `s` starts with `prefix`.
pub fn has_prefix(s: &str, prefix: &str) -> (r: bool)
    ensures
        r == prefix@.is_prefix_of(s@),
{
    let n: usize = prefix.unicode_len();
    if n <= s.unicode_len() {
        let head = s.substring_char(0, n);
        same_text(prefix, head)
    } else {
        false
    }
}

/// Whether a text ends with the character `c`.
pub open spec fn ends_with_char(s: Seq<char>, c: char) -> bool {
    s.len() > 0 && s.last() == c
}

/// Whether `s` ends with the character `c`.
pub fn has_last_char(s: &str, c: char) -> (r: bool)
    ensures
        r == ends_with_char(s@, c),
{
    let n: usize = s.unicode_len();
    n > 0 && s.get_char(n - 1) == c
}

/// Words set one after the other with `sep` between them.
pub open spec fn joined(words: Seq<Seq<char>>, sep: char) -> Seq<char>
    decreases words.len(),
{
    if words.len() == 0 {
        seq![]
    } else if words.len() == 1 {
        words[0]
    } else {
        joined(words.drop_last(), sep).push(sep) + words.last()
    }
}

/// Sets the words one after the other with `sep` between them.
pub fn join_words(words: &[String], sep: char) -> (r: String)
    ensures
        r@ == joined(words.deep_view(), sep),
{
    let mut r = String::new();
    let mut i: usize = 0;
    while i < words.len()
        invariant
            i <= words.len(),
            r@ == joined(words.deep_view().take(i as int), sep),
        decreases words.len() - i,
    {
        if i > 0 {
            r.push(sep);
        }
        r.append(words[i].as_str());
        i += 1;
        proof {
            let head = words.deep_view().take(i as int);
            assert(head.drop_last() == words.deep_view().take(i - 1));
            assert(head.last() == words@[i - 1]@);
        }
    }
    assert(words.deep_view().take(i as int) == words.deep_view());
    r
}

/// The runs of characters that white space separates, up to position `n`; between two white
/// space characters that touch there is an empty one.
pub open spec fn blank_pieces(s: Seq<char>, n: int) -> Seq<Seq<char>>
    decreases n,
{
    if n <= 0 {
        seq![Seq::<char>::empty()]
    } else {
        let before = blank_pieces(s, n - 1);
        if white_space(s[n - 1]) {
            before.push(Seq::<char>::empty())
        } else {
            before.drop_last().push(before.last().push(s[n - 1]))
        }
    }
}

/// The members of `pieces` that are not empty, in order.
pub open spec fn non_empty(pieces: Seq<Seq<char>>) -> Seq<Seq<char>>
    decreases pieces.len(),
{
    if pieces.len() == 0 {
        seq![]
    } else if pieces.last().len() == 0 {
        non_empty(pieces.drop_last())
    } else {
        non_empty(pieces.drop_last()).push(pieces.last())
    }
}

/// The words of a text: what white space separates.
pub open spec fn blank_words(s: Seq<char>) -> Seq<Seq<char>> {
    non_empty(blank_pieces(s, s.len() as int))
}

proof fn lemma_blank_pieces_some(s: Seq<char>, n: int)
    ensures
        blank_pieces(s, n).len() > 0,
    decreases n,
{
    if n > 0 {
        lemma_blank_pieces_some(s, n - 1);
    }
}

/// The words of the string: what white space separates.
pub fn split_words(s: &str) -> (r: Vec<String>)
    ensures
        r.deep_view() == blank_words(s@),
{
    let v = chars_of(s);
    let mut r: Vec<String> = Vec::new();
    let mut word = String::new();
    let mut i: usize = 0;
    proof {
        assert(blank_pieces(s@, 0).drop_last() == Seq::<Seq<char>>::empty());
        assert(r.deep_view() == non_empty(blank_pieces(s@, 0).drop_last()));
    }
    while i < v.len()
        invariant
            i <= v.len(),
            v@ == s@,
            r.deep_view() == non_empty(blank_pieces(s@, i as int).drop_last()),
            word@ == blank_pieces(s@, i as int).last(),
            blank_pieces(s@, i as int).len() > 0,
        decreases v.len() - i,
    {
        let c = v[i];
        let ghost pieces = blank_pieces(s@, i as int);
        let ghost done = r.deep_view();
        proof {
            lemma_blank_pieces_some(s@, i + 1);
        }
        if is_white_space(c) {
            assert(pieces.push(Seq::<char>::empty()).drop_last() == pieces);
            if !word.as_str().is_empty() {
                let ghost w = word@;
                r.push(word);
                assert(r.deep_view() == done.push(w));
            }
            word = String::new();
        } else {
            word.push(c);
            assert(pieces.drop_last().push(word@).drop_last() == pieces.drop_last());
        }
        i += 1;
    }
    if !word.as_str().is_empty() {
        let ghost done = r.deep_view();
        let ghost w = word@;
        r.push(word);
        assert(r.deep_view() == done.push(w));
    }
    r
}

/// The stretches of text that `sep` separates, up to position `n`.
pub open spec fn char_pieces(s: Seq<char>, sep: char, n: int) -> Seq<Seq<char>>
    decreases n,
{
    if n <= 0 {
        seq![Seq::<char>::empty()]
    } else {
        let before = char_pieces(s, sep, n - 1);
        if s[n - 1] == sep {
            before.push(Seq::<char>::empty())
        } else {
            before.drop_last().push(before.last().push(s[n - 1]))
        }
    }
}

/// The stretches of text that `sep` separates; one more than there are separators.
pub open spec fn split_on(s: Seq<char>, sep: char) -> Seq<Seq<char>> {
    char_pieces(s, sep, s.len() as int)
}

/// The stretches of the string that `sep` separates.
pub fn split_on_char(s: &str, sep: char) -> (r: Vec<String>)
    ensures
        r.deep_view() == split_on(s@, sep),
{
    let v = chars_of(s);
    let mut r: Vec<String> = Vec::new();
    let mut piece = String::new();
    let mut i: usize = 0;
    assert(r.deep_view() == char_pieces(s@, sep, 0).drop_last());
    while i < v.len()
        invariant
            i <= v.len(),
            v@ == s@,
            char_pieces(s@, sep, i as int).len() > 0,
            r.deep_view() == char_pieces(s@, sep, i as int).drop_last(),
            piece@ == char_pieces(s@, sep, i as int).last(),
        decreases v.len() - i,
    {
        let c = v[i];
        let ghost pieces = char_pieces(s@, sep, i as int);
        let ghost done = r.deep_view();
        if c == sep {
            let ghost w = piece@;
            r.push(piece);
            proof {
                assert(r.deep_view() == done.push(w));
                assert(done.push(w) == pieces);
                assert(pieces.push(Seq::<char>::empty()).drop_last() == pieces);
            }
            piece = String::new();
        } else {
            piece.push(c);
            assert(pieces.drop_last().push(piece@).drop_last() == pieces.drop_last());
        }
        i += 1;
    }
    let ghost done = r.deep_view();
    let ghost w = piece@;
    r.push(piece);
    assert(r.deep_view() == done.push(w));
    assert(done.push(w) == split_on(s@, sep));
    r
}

/// Where the line that holds position `i` ends: at the next newline, or at the end of the text.
pub open spec fn line_end(s: Seq<char>, i: int) -> int
    decreases s.len() - i,
{
    if i >= s.len() || s[i] == '\n' {
        i
    } else {
        line_end(s, i + 1)
    }
}

/// A line without the carriage return that stands before its newline.
pub open spec fn without_return(line: Seq<char>) -> Seq<char> {
    if ends_with_char(line, '\r') {
        line.drop_last()
    } else {
        line
    }
}

/// The lines of a text from position `i` on. A line ends at a newline, or at a carriage return
/// and a newline; the last line needs no ending.
pub open spec fn lines_from(s: Seq<char>, i: int) -> Seq<Seq<char>>
    decreases s.len() - i,
    when 0 <= i
    via lines_from_decreases
{
    if i >= s.len() {
        seq![]
    } else {
        let end = line_end(s, i);
        if end >= s.len() {
            seq![s.subrange(i, s.len() as int)]
        } else {
            seq![without_return(s.subrange(i, end))] + lines_from(s, end + 1)
        }
    }
}

#[via_fn]
proof fn lines_from_decreases(s: Seq<char>, i: int) {
    lemma_line_end(s, i);
}

proof fn lemma_line_end(s: Seq<char>, i: int)
    ensures
        i <= line_end(s, i),
        i <= s.len() ==> line_end(s, i) <= s.len(),
        line_end(s, i) < s.len() && 0 <= i ==> s[line_end(s, i)] == '\n',
        forall|j: int| i <= j < line_end(s, i) ==> s[j] != '\n',
    decreases s.len() - i,
{
    if i < s.len() && s[i] != '\n' {
        lemma_line_end(s, i + 1);
    }
}

/// The lines of a text.
pub open spec fn lines(s: Seq<char>) -> Seq<Seq<char>> {
    lines_from(s, 0)
}

/// The lines of the string.
pub fn split_lines(s: &str) -> (r: Vec<String>)
    ensures
        r.deep_view() == lines(s@),
{
    let v = chars_of(s);
    let mut r: Vec<String> = Vec::new();
    let mut i: usize = 0;
    assert(r.deep_view() + lines_from(s@, 0) == lines(s@));
    while i < v.len()
        invariant
            i <= v.len(),
            v@ == s@,
            r.deep_view() + lines_from(s@, i as int) == lines(s@),
        decreases v.len() - i,
    {
        let mut end: usize = i;
        while end < v.len() && v[end] != '\n'
            invariant
                i <= end <= v.len(),
                v@ == s@,
                line_end(s@, i as int) == line_end(s@, end as int),
            decreases v.len() - end,
        {
            end += 1;
        }
        let ghost done = r.deep_view();
        let ghost line = s@.subrange(i as int, end as int);
        if end == v.len() {
            r.push(text_between(&v, i, end));
            assert(r.deep_view() == done.push(line));
            assert(done + seq![line] == done.push(line));
            assert(lines_from(s@, end as int) == Seq::<Seq<char>>::empty());
            assert(done.push(line) + lines_from(s@, end as int) == lines(s@));
            i = end;
        } else {
            let stop: usize = if end > i && v[end - 1] == '\r' {
                end - 1
            } else {
                end
            };
            r.push(text_between(&v, i, stop));
            proof {
                assert(without_return(line) == s@.subrange(i as int, stop as int));
                assert(r.deep_view() == done.push(without_return(line)));
                assert(done + (seq![without_return(line)] + lines_from(s@, end + 1)) == done.push(
                    without_return(line),
                ) + lines_from(s@, end + 1));
            }
            i = end + 1;
        }
    }
    assert(lines_from(s@, i as int) == Seq::<Seq<char>>::empty());
    r
}

pub(crate) proof fn lemma_push_contains<A>(s: Seq<A>, a: A, x: A)
    ensures
        s.push(a).contains(x) <==> s.contains(x) || x == a,
{
    if s.contains(x) {
        let k = choose|k: int| 0 <= k < s.len() && s[k] == x;
        assert(s.push(a)[k] == x);
    }
    assert(s.push(a)[s.len() as int] == a);
}

/// The texts that start with `prefix`, in order.
pub open spec fn starting_with(texts: Seq<Seq<char>>, prefix: Seq<char>) -> Seq<Seq<char>>
    decreases texts.len(),
{
    if texts.len() == 0 {
        seq![]
    } else if prefix.is_prefix_of(texts.last()) {
        starting_with(texts.drop_last(), prefix).push(texts.last())
    } else {
        starting_with(texts.drop_last(), prefix)
    }
}

/// The texts that start with `prefix`, in order.
pub fn keep_starting_with(texts: &Vec<String>, prefix: &str) -> (r: Vec<String>)
    ensures
        r.deep_view() == starting_with(texts.deep_view(), prefix@),
{
    let ghost all = texts.deep_view();
    let mut r: Vec<String> = Vec::new();
    let mut i: usize = 0;
    assert(r.deep_view() == starting_with(all.take(0), prefix@));
    while i < texts.len()
        invariant
            i <= texts.len(),
            all == texts.deep_view(),
            r.deep_view() == starting_with(all.take(i as int), prefix@),
        decreases texts.len() - i,
    {
        let ghost done = r.deep_view();
        proof {
            assert(all[i as int] == texts@[i as int]@);
            assert(all.take(i + 1).drop_last() == all.take(i as int));
        }
        if has_prefix(texts[i].as_str(), prefix) {
            r.push(texts[i].clone());
            assert(r.deep_view() == done.push(all[i as int]));
        }
        i += 1;
    }
    assert(all.take(i as int) == all);
    r
}

pub(crate) proof fn lemma_starting_with(texts: Seq<Seq<char>>, prefix: Seq<char>)
    ensures
        forall|i: int|
            0 <= i < starting_with(texts, prefix).len() ==> prefix.is_prefix_of(
                #[trigger] starting_with(texts, prefix)[i],
            ),
    decreases texts.len(),
{
    if texts.len() > 0 {
        let before = starting_with(texts.drop_last(), prefix);
        lemma_starting_with(texts.drop_last(), prefix);
        assert forall|i: int| 0 <= i < starting_with(texts, prefix).len() implies prefix.is_prefix_of(
            #[trigger] starting_with(texts, prefix)[i],
        ) by {
            if i < before.len() {
                assert(starting_with(texts, prefix)[i] == before[i]);
            }
        }
    }
}

pub(crate) proof fn lemma_starting_with_contains(
    texts: Seq<Seq<char>>,
    prefix: Seq<char>,
    x: Seq<char>,
)
    ensures
        starting_with(texts, prefix).contains(x) <==> texts.contains(x) && prefix.is_prefix_of(x),
    decreases texts.len(),
{
    if texts.len() > 0 {
        let front = texts.drop_last();
        lemma_starting_with_contains(front, prefix, x);
        lemma_push_contains(front, texts.last(), x);
        assert(front.push(texts.last()) == texts);
        lemma_push_contains(starting_with(front, prefix), texts.last(), x);
    }
}

pub(crate) proof fn lemma_starting_with_once(texts: Seq<Seq<char>>, prefix: Seq<char>)
    requires
        texts.no_duplicates(),
    ensures
        starting_with(texts, prefix).no_duplicates(),
    decreases texts.len(),
{
    if texts.len() > 0 {
        let front = texts.drop_last();
        lemma_starting_with_once(front, prefix);
        lemma_starting_with_contains(front, prefix, texts.last());
    }
}

pub(crate) proof fn lemma_split_on_joined(a: Seq<char>, sep: char, b: Seq<char>, n: int)
    requires
        0 <= n <= b.len(),
    ensures
        char_pieces(a.push(sep) + b, sep, a.len() + 1 + n) == split_on(a, sep) + char_pieces(
            b,
            sep,
            n,
        ),
        char_pieces(b, sep, n).len() > 0,
    decreases n,
{
    let s = a.push(sep) + b;
    let m = a.len() as int;
    let empty = Seq::<char>::empty();
    let head = split_on(a, sep);
    if n == 0 {
        lemma_char_pieces_of_prefix(a, seq![sep] + b, sep, m);
        assert(s == a + (seq![sep] + b));
        assert(s[m] == sep);
        assert(head.push(empty) == head + seq![empty]);
    } else {
        lemma_split_on_joined(a, sep, b, n - 1);
        let before = char_pieces(b, sep, n - 1);
        let c = b[n - 1];
        assert(s[m + n] == c);
        assert((head + before).push(empty) == head + before.push(empty));
        assert((head + before).last() == before.last());
        assert((head + before).drop_last().push(before.last().push(c)) == head
            + before.drop_last().push(before.last().push(c)));
    }
}

proof fn lemma_char_pieces_of_prefix(a: Seq<char>, b: Seq<char>, sep: char, n: int)
    requires
        n <= a.len(),
    ensures
        char_pieces(a + b, sep, n) == char_pieces(a, sep, n),
    decreases n,
{
    if n > 0 {
        lemma_char_pieces_of_prefix(a, b, sep, n - 1);
    }
}

/// What is taken off a text to trim it is white space, and all of it: the text is white space, then
/// what is left, then white space, and what is left neither starts nor ends with white space.
pub proof fn law_trim_takes_white_space_off(s: Seq<char>) -> (cut: (int, int))
    ensures
        0 <= cut.0 <= cut.1 <= s.len(),
        trimmed(s) == s.subrange(cut.0, cut.1),
        forall|j: int| 0 <= j < cut.0 ==> white_space(#[trigger] s[j]),
        forall|j: int| cut.1 <= j < s.len() ==> white_space(#[trigger] s[j]),
        trimmed(s).len() > 0 ==> !white_space(trimmed(s).first()) && !white_space(trimmed(s).last()),
{
    let from = lemma_trimmed_start_bound(s);
    let rest = s.skip(from);
    let to = lemma_trimmed_end_bound(rest);
    assert(rest.take(to) == s.subrange(from, from + to));
    assert forall|j: int| from + to <= j < s.len() implies white_space(#[trigger] s[j]) by {
        assert(rest[j - from] == s[j]);
    }
    (from, from + to)
}

/// Splitting at a separator loses nothing: the pieces, with the separator between them, are the text
/// again; and no piece holds the separator.
pub proof fn law_split_pieces_join_again(s: Seq<char>, sep: char)
    ensures
        joined(split_on(s, sep), sep) == s,
        forall|k: int|
            0 <= k < split_on(s, sep).len() ==> !(#[trigger] split_on(s, sep)[k]).contains(sep),
{
    lemma_split_prefix(s, sep, s.len() as int);
    assert(s.take(s.len() as int) == s);
}

proof fn lemma_split_prefix(s: Seq<char>, sep: char, n: int)
    requires
        0 <= n <= s.len(),
    ensures
        char_pieces(s, sep, n).len() > 0,
        joined(char_pieces(s, sep, n), sep) == s.take(n),
        forall|k: int|
            0 <= k < char_pieces(s, sep, n).len() ==> !(#[trigger] char_pieces(s, sep, n)[k]).contains(
                sep,
            ),
    decreases n,
{
    let pieces = char_pieces(s, sep, n);
    let empty = Seq::<char>::empty();
    if n == 0 {
        assert(s.take(0) == empty);
        assert(pieces[0] == empty);
    } else {
        lemma_split_prefix(s, sep, n - 1);
        let before = char_pieces(s, sep, n - 1);
        let c = s[n - 1];
        assert(s.take(n) == s.take(n - 1).push(c));
        if c == sep {
            assert(pieces.drop_last() == before);
            assert(joined(before, sep).push(sep) + empty == joined(before, sep).push(sep));
        } else {
            let last = before.last();
            lemma_push_contains(last, c, sep);
            assert(pieces.drop_last() == before.drop_last());
            assert(!before[before.len() - 1].contains(sep));
            if before.len() > 1 {
                assert(joined(before.drop_last(), sep).push(sep) + last.push(c) == (joined(
                    before.drop_last(),
                    sep,
                ).push(sep) + last).push(c));
            }
        }
        assert forall|k: int| 0 <= k < pieces.len() implies !(#[trigger] pieces[k]).contains(sep) by {
            if k < pieces.len() - 1 {
                assert(pieces[k] == before[k]);
            }
        }
    }
}

proof fn lemma_no_separator(s: Seq<char>, sep: char, n: int)
    requires
        0 <= n <= s.len(),
        !s.contains(sep),
    ensures
        char_pieces(s, sep, n) == seq![s.take(n)],
    decreases n,
{
    if n == 0 {
        assert(s.take(0) == Seq::<char>::empty());
    } else {
        lemma_no_separator(s, sep, n - 1);
        assert(s[n - 1] != sep);
        assert(s.take(n - 1).push(s[n - 1]) == s.take(n));
        assert(seq![s.take(n - 1)].drop_last() == Seq::<Seq<char>>::empty());
        assert(char_pieces(s, sep, n) == seq![s.take(n)]);
    }
}

/// Words that do not hold the separator come back when they are joined and split again.
pub proof fn law_joined_words_split_again(words: Seq<Seq<char>>, sep: char)
    requires
        words.len() > 0,
        forall|i: int| 0 <= i < words.len() ==> !(#[trigger] words[i]).contains(sep),
    ensures
        split_on(joined(words, sep), sep) == words,
    decreases words.len(),
{
    let w = words.last();
    assert(!words[words.len() - 1].contains(sep));
    lemma_no_separator(w, sep, w.len() as int);
    assert(w.take(w.len() as int) == w);
    if words.len() == 1 {
        assert(words == seq![w]);
    } else {
        let front = words.drop_last();
        assert forall|i: int| 0 <= i < front.len() implies !(#[trigger] front[i]).contains(sep) by {
            assert(front[i] == words[i]);
        }
        law_joined_words_split_again(front, sep);
        lemma_split_on_joined(joined(front, sep), sep, w, w.len() as int);
        assert(front + seq![w] == words);
    }
}

proof fn lemma_blank_pieces_joined(a: Seq<char>, c: char, b: Seq<char>, n: int)
    requires
        white_space(c),
        0 <= n <= b.len(),
    ensures
        blank_pieces(a.push(c) + b, a.len() + 1 + n) == blank_pieces(a, a.len() as int)
            + blank_pieces(b, n),
        blank_pieces(b, n).len() > 0,
    decreases n,
{
    let s = a.push(c) + b;
    let m = a.len() as int;
    let empty = Seq::<char>::empty();
    let head = blank_pieces(a, m);
    if n == 0 {
        lemma_blank_pieces_prefix(a, seq![c] + b, m);
        assert(s == a + (seq![c] + b));
        assert(s[m] == c);
        assert(head.push(empty) == head + seq![empty]);
    } else {
        lemma_blank_pieces_joined(a, c, b, n - 1);
        let before = blank_pieces(b, n - 1);
        let d = b[n - 1];
        assert(s[m + n] == d);
        assert((head + before).push(empty) == head + before.push(empty));
        assert((head + before).last() == before.last());
        assert((head + before).drop_last().push(before.last().push(d)) == head
            + before.drop_last().push(before.last().push(d)));
    }
}

proof fn lemma_blank_pieces_prefix(a: Seq<char>, b: Seq<char>, n: int)
    requires
        n <= a.len(),
    ensures
        blank_pieces(a + b, n) == blank_pieces(a, n),
    decreases n,
{
    if n > 0 {
        lemma_blank_pieces_prefix(a, b, n - 1);
    }
}

pub(crate) proof fn lemma_non_empty_concat(a: Seq<Seq<char>>, b: Seq<Seq<char>>)
    ensures
        non_empty(a + b) == non_empty(a) + non_empty(b),
    decreases b.len(),
{
    if b.len() == 0 {
        assert(a + b == a);
        assert(non_empty(a) + non_empty(b) == non_empty(a));
    } else {
        lemma_non_empty_concat(a, b.drop_last());
        assert((a + b).drop_last() == a + b.drop_last());
        assert((a + b).last() == b.last());
        assert((non_empty(a) + non_empty(b.drop_last())).push(b.last()) == non_empty(a) + non_empty(
            b.drop_last(),
        ).push(b.last()));
    }
}

/// White space ends a word: two texts with a white space character between them give the words of
/// both.
pub proof fn law_white_space_ends_words(a: Seq<char>, c: char, b: Seq<char>)
    requires
        white_space(c),
    ensures
        blank_words(a.push(c) + b) == blank_words(a) + blank_words(b),
{
    lemma_blank_pieces_joined(a, c, b, b.len() as int);
    lemma_non_empty_concat(blank_pieces(a, a.len() as int), blank_pieces(b, b.len() as int));
}

/// Nothing else ends a word: a text without white space is one word, or none where it is empty.
pub proof fn law_other_characters_are_words(s: Seq<char>)
    requires
        forall|i: int| 0 <= i < s.len() ==> !white_space(#[trigger] s[i]),
    ensures
        s.len() > 0 ==> blank_words(s) == seq![s],
        s.len() == 0 ==> blank_words(s).len() == 0,
{
    lemma_one_blank_piece(s, s.len() as int);
    assert(s.take(s.len() as int) == s);
    assert(seq![s].drop_last() == Seq::<Seq<char>>::empty());
    assert(non_empty(seq![s].drop_last()) == Seq::<Seq<char>>::empty());
    assert(Seq::<Seq<char>>::empty().push(s) == seq![s]);
}

proof fn lemma_one_blank_piece(s: Seq<char>, n: int)
    requires
        0 <= n <= s.len(),
        forall|i: int| 0 <= i < s.len() ==> !white_space(#[trigger] s[i]),
    ensures
        blank_pieces(s, n) == seq![s.take(n)],
    decreases n,
{
    if n == 0 {
        assert(s.take(0) == Seq::<char>::empty());
    } else {
        lemma_one_blank_piece(s, n - 1);
        assert(!white_space(s[n - 1]));
        assert(s.take(n - 1).push(s[n - 1]) == s.take(n));
        assert(seq![s.take(n - 1)].drop_last() == Seq::<Seq<char>>::empty());
        assert(blank_pieces(s, n) == seq![s.take(n)]);
    }
}

/// Lines, each with its ending: a newline, or a carriage return and a newline.
pub open spec fn ended_lines(entries: Seq<Seq<char>>, with_return: bool) -> Seq<char>
    decreases entries.len(),
{
    if entries.len() == 0 {
        seq![]
    } else {
        let ending = if with_return {
            seq!['\r', '\n']
        } else {
            seq!['\n']
        };
        entries[0] + ending + ended_lines(entries.drop_first(), with_return)
    }
}

proof fn lemma_line_end_is(s: Seq<char>, i: int, end: int)
    requires
        0 <= i <= end <= s.len(),
        end < s.len() ==> s[end] == '\n',
        forall|j: int| i <= j < end ==> s[j] != '\n',
    ensures
        line_end(s, i) == end,
    decreases end - i,
{
    if i < end {
        lemma_line_end_is(s, i + 1, end);
    }
}

proof fn lemma_lines_read(before: Seq<char>, entries: Seq<Seq<char>>, with_return: bool, last: Seq<char>)
    requires
        forall|i: int|
            0 <= i < entries.len() ==> !(#[trigger] entries[i]).contains('\n') && !ends_with_char(
                entries[i],
                '\r',
            ),
        !last.contains('\n'),
    ensures
        lines_from(before + ended_lines(entries, with_return) + last, before.len() as int) == (if last.len()
            > 0 {
            entries.push(last)
        } else {
            entries
        }),
    decreases entries.len(),
{
    let s = before + ended_lines(entries, with_return) + last;
    let at = before.len() as int;
    if entries.len() == 0 {
        assert(s == before + last);
        if last.len() > 0 {
            assert forall|j: int| at <= j < s.len() implies s[j] != '\n' by {
                assert(s[j] == last[j - at]);
            }
            lemma_line_end_is(s, at, s.len() as int);
            assert(s.subrange(at, s.len() as int) == last);
            assert(entries.push(last) == seq![last]);
        } else {
            assert(entries == Seq::<Seq<char>>::empty());
        }
    } else {
        let entry = entries[0];
        let rest = entries.drop_first();
        assert forall|i: int| 0 <= i < rest.len() implies !(#[trigger] rest[i]).contains('\n')
            && !ends_with_char(rest[i], '\r') by {
            assert(rest[i] == entries[i + 1]);
        }
        let ending = if with_return {
            seq!['\r', '\n']
        } else {
            seq!['\n']
        };
        let next = before + entry + ending;
        lemma_lines_read(next, rest, with_return, last);
        assert(s == next + ended_lines(rest, with_return) + last);
        let end = next.len() - 1;
        assert(s[end] == '\n') by {
            assert(s[end] == next[end]);
            assert(next[end] == ending.last());
        }
        assert forall|j: int| at <= j < end implies s[j] != '\n' by {
            assert(s[j] == next[j]);
            if j < at + entry.len() {
                assert(next[j] == entry[j - at]);
            } else {
                assert(next[j] == ending[j - at - entry.len()]);
            }
        }
        lemma_line_end_is(s, at, end);
        let line = s.subrange(at, end);
        if with_return {
            assert(line == entry.push('\r'));
            assert(line.drop_last() == entry);
        } else {
            assert(line == entry);
        }
        assert(without_return(line) == entry);
        assert(lines_from(s, at) == seq![entry] + lines_from(s, end + 1));
        assert(entries == seq![entry] + rest);
        assert(entries.push(last) == seq![entry] + rest.push(last));
    }
}

/// Lines that end with a newline, or with a carriage return and a newline, are read back without
/// their endings; what stands behind the last ending is a line too, unless it is empty.
pub proof fn law_lines_are_read_back(entries: Seq<Seq<char>>, with_return: bool, last: Seq<char>)
    requires
        forall|i: int|
            0 <= i < entries.len() ==> !(#[trigger] entries[i]).contains('\n') && !ends_with_char(
                entries[i],
                '\r',
            ),
        !last.contains('\n'),
    ensures
        lines(ended_lines(entries, with_return) + last) == (if last.len() > 0 {
            entries.push(last)
        } else {
            entries
        }),
{
    lemma_lines_read(Seq::<char>::empty(), entries, with_return, last);
    assert(Seq::<char>::empty() + ended_lines(entries, with_return) + last == ended_lines(
        entries,
        with_return,
    ) + last);
}

/// The texts that start with a prefix are found one by one: a text is kept exactly where it does,
/// and those that are kept stay in their order.
pub proof fn law_prefix_decides(texts: Seq<Seq<char>>, prefix: Seq<char>, text: Seq<char>)
    ensures
        starting_with(texts.push(text), prefix) == (if prefix.len() <= text.len() && text.take(
            prefix.len() as int,
        ) == prefix {
            starting_with(texts, prefix).push(text)
        } else {
            starting_with(texts, prefix)
        }),
        starting_with(Seq::empty(), prefix).len() == 0,
{
    assert(texts.push(text).drop_last() == texts);
    if prefix.len() <= text.len() {
        assert(text.take(prefix.len() as int) == text.subrange(0, prefix.len() as int));
    }
}

} // verus!
