//! The order of texts by their code points, and sorting by it.

use vstd::prelude::*;
use vstd::seq_lib::*;

use crate::text::{chars_of, lemma_push_contains, same_text};

verus! {

/// Whether `a` comes before `b` or is equal to it: the first place where they differ decides, and
/// a text comes before those that it starts.
pub open spec fn not_after(a: Seq<char>, b: Seq<char>) -> bool
    decreases a.len(),
{
    if a.len() == 0 {
        true
    } else if b.len() == 0 {
        false
    } else if a[0] != b[0] {
        a[0] < b[0]
    } else {
        not_after(a.drop_first(), b.drop_first())
    }
}

/// Any two texts are in order one way or the other.
pub proof fn lemma_order_total(a: Seq<char>, b: Seq<char>)
    ensures
        not_after(a, b) || not_after(b, a),
    decreases a.len(),
{
    if a.len() > 0 && b.len() > 0 && a[0] == b[0] {
        lemma_order_total(a.drop_first(), b.drop_first());
    }
}

/// Texts that are in order both ways are equal.
pub proof fn lemma_order_antisymmetric(a: Seq<char>, b: Seq<char>)
    requires
        not_after(a, b),
        not_after(b, a),
    ensures
        a == b,
    decreases a.len(),
{
    if a.len() > 0 && b.len() > 0 {
        lemma_order_antisymmetric(a.drop_first(), b.drop_first());
        assert(a == seq![a[0]] + a.drop_first());
        assert(b == seq![b[0]] + b.drop_first());
    } else {
        assert(a == b);
    }
}

/// The order is transitive.
pub proof fn lemma_order_transitive(a: Seq<char>, b: Seq<char>, c: Seq<char>)
    requires
        not_after(a, b),
        not_after(b, c),
    ensures
        not_after(a, c),
    decreases a.len(),
{
    if a.len() > 0 && b.len() > 0 && c.len() > 0 && a[0] == b[0] && b[0] == c[0] {
        lemma_order_transitive(a.drop_first(), b.drop_first(), c.drop_first());
    }
}

/// Whether each text is in order with every one after it.
pub open spec fn in_order(s: Seq<Seq<char>>) -> bool {
    forall|i: int, j: int| 0 <= i < j < s.len() ==> not_after(#[trigger] s[i], #[trigger] s[j])
}

/// Whether `a` comes before `b` or is equal to it.
pub fn is_not_after(a: &str, b: &str) -> (r: bool)
    ensures
        r == not_after(a@, b@),
{
    let x = chars_of(a);
    let y = chars_of(b);
    let mut i: usize = 0;
    assert(a@.skip(0) == a@);
    assert(b@.skip(0) == b@);
    while i < x.len() && i < y.len()
        invariant
            i <= x.len(),
            i <= y.len(),
            x@ == a@,
            y@ == b@,
            not_after(a@, b@) == not_after(a@.skip(i as int), b@.skip(i as int)),
        decreases x.len() - i,
    {
        if x[i] != y[i] {
            return x[i] < y[i];
        }
        assert(a@.skip(i as int).drop_first() == a@.skip(i + 1));
        assert(b@.skip(i as int).drop_first() == b@.skip(i + 1));
        i += 1;
    }
    i == x.len()
}

/// Puts `s` at its place among texts that are in order: behind all that are not after it.
fn insert_in_order(v: &mut Vec<String>, s: String)
    requires
        in_order(old(v).deep_view()),
    ensures
        in_order(final(v).deep_view()),
        final(v).deep_view().to_multiset() == old(v).deep_view().to_multiset().insert(s@),
{
    let ghost before = v.deep_view();
    let ghost text = s@;
    let mut low: usize = 0;
    let mut high: usize = v.len();
    while low < high
        invariant
            low <= high <= v.len(),
            before == v.deep_view(),
            in_order(before),
            text == s@,
            forall|j: int| 0 <= j < low ==> not_after(#[trigger] before[j], text),
            forall|j: int| high <= j < v.len() ==> not_after(text, #[trigger] before[j]),
        decreases high - low,
    {
        let mid: usize = low + (high - low) / 2;
        assert(v@[mid as int]@ == before[mid as int]);
        if is_not_after(v[mid].as_str(), s.as_str()) {
            proof {
                assert forall|j: int| 0 <= j <= mid implies not_after(#[trigger] before[j], text) by {
                    if j < mid {
                        lemma_order_transitive(before[j], before[mid as int], text);
                    }
                }
            }
            low = mid + 1;
        } else {
            proof {
                lemma_order_total(text, before[mid as int]);
                assert forall|j: int| mid <= j < v.len() implies not_after(text, #[trigger] before[j]) by {
                    if mid < j {
                        lemma_order_transitive(text, before[mid as int], before[j]);
                    }
                }
            }
            high = mid;
        }
    }
    v.insert(low, s);
    proof {
        let after = v.deep_view();
        assert(after == before.insert(low as int, text));
        to_multiset_insert(before, low as int, text);
        assert forall|i: int, j: int| 0 <= i < j < after.len() implies not_after(
            #[trigger] after[i],
            #[trigger] after[j],
        ) by {
            let k = low as int;
            let a = if i < k {
                i
            } else {
                i - 1
            };
            let b = if j < k {
                j
            } else {
                j - 1
            };
            assert(i != k ==> after[i] == before[a]);
            assert(j != k ==> after[j] == before[b]);
        }
    }
}

/// The texts of `v`, in order; each as often as `v` holds it.
pub fn sort_texts(v: Vec<String>) -> (r: Vec<String>)
    ensures
        in_order(r.deep_view()),
        r.deep_view().to_multiset() == v.deep_view().to_multiset(),
{
    let mut r: Vec<String> = Vec::new();
    let mut i: usize = 0;
    let ghost all = v.deep_view();
    proof {
        assert(r.deep_view() == Seq::<Seq<char>>::empty());
        assert(all.take(0) == Seq::<Seq<char>>::empty());
    }
    while i < v.len()
        invariant
            i <= v.len(),
            all == v.deep_view(),
            in_order(r.deep_view()),
            r.deep_view().to_multiset() == all.take(i as int).to_multiset(),
        decreases v.len() - i,
    {
        insert_in_order(&mut r, v[i].clone());
        proof {
            assert(all.take(i + 1) == all.take(i as int).push(all[i as int]));
            to_multiset_build(all.take(i as int), all[i as int]);
        }
        i += 1;
    }
    assert(all.take(i as int) == all);
    r
}

/// Whether each text comes before every one after it, and differs from it.
pub open spec fn strictly_in_order(s: Seq<Seq<char>>) -> bool {
    in_order(s) && forall|i: int, j: int|
        0 <= i < j < s.len() ==> #[trigger] s[i] != #[trigger] s[j]
}

/// The texts of `v`, in order; each once.
pub fn sort_texts_once(v: Vec<String>) -> (r: Vec<String>)
    ensures
        strictly_in_order(r.deep_view()),
        r.deep_view().to_set() == v.deep_view().to_set(),
{
    let ghost given = v.deep_view();
    let sorted = sort_texts(v);
    let ghost all = sorted.deep_view();
    let mut r: Vec<String> = Vec::new();
    let mut i: usize = 0;
    while i < sorted.len()
        invariant
            i <= sorted.len(),
            all == sorted.deep_view(),
            in_order(all),
            strictly_in_order(r.deep_view()),
            i == 0 <==> r.len() == 0,
            i > 0 ==> r.deep_view().last() == all[i - 1],
            forall|x: Seq<char>| #[trigger]
                r.deep_view().contains(x) <==> all.take(i as int).contains(x),
        decreases sorted.len() - i,
    {
        let ghost kept = r.deep_view();
        let ghost seen = all.take(i as int);
        let n: usize = r.len();
        let ghost next = all[i as int];
        proof {
            assert(sorted@[i as int]@ == next);
            assert(all.take(i + 1) == seen.push(next));
            assert(kept.len() == n);
            assert(n > 0 ==> kept.last() == r@[n - 1]@);
        }
        if n == 0 || !same_text(r[n - 1].as_str(), sorted[i].as_str()) {
            r.push(sorted[i].clone());
            proof {
                assert(r.deep_view() == kept.push(next));
                assert forall|a: int, b: int| 0 <= a < b < r.deep_view().len() implies not_after(
                    #[trigger] r.deep_view()[a],
                    #[trigger] r.deep_view()[b],
                ) && r.deep_view()[a] != r.deep_view()[b] by {
                    if b == n {
                        assert(kept.contains(kept[a]));
                        assert(seen.contains(kept[a]));
                        let k = choose|k: int| 0 <= k < seen.len() && seen[k] == kept[a];
                        assert(all[k] == kept[a]);
                        assert(not_after(all[k], all[i as int]));
                        if kept[a] == next {
                            if a < n - 1 {
                                assert(not_after(kept[a], kept[n - 1]));
                                assert(not_after(all[i - 1], all[i as int]));
                                lemma_order_antisymmetric(kept[n - 1], next);
                            }
                        }
                    }
                }
                assert forall|x: Seq<char>| #[trigger]
                    r.deep_view().contains(x) <==> seen.push(next).contains(x) by {
                    lemma_push_contains(kept, next, x);
                    lemma_push_contains(seen, next, x);
                }
            }
        } else {
            proof {
                assert forall|x: Seq<char>| #[trigger]
                    r.deep_view().contains(x) <==> seen.push(next).contains(x) by {
                    lemma_push_contains(seen, next, x);
                    assert(kept[n - 1] == next);
                    assert(kept.contains(next));
                }
            }
        }
        i += 1;
    }
    proof {
        assert(all.take(i as int) == all);
        assert forall|x: Seq<char>| #[trigger]
            r.deep_view().to_set().contains(x) <==> given.to_set().contains(x) by {
            to_multiset_contains(all, x);
            to_multiset_contains(given, x);
            assert(r.deep_view().contains(x) <==> all.contains(x));
        }
        assert(r.deep_view().to_set() =~= given.to_set());
    }
    r
}

/// There is only one way to put texts in order.
pub proof fn law_order_is_unique(a: Seq<Seq<char>>, b: Seq<Seq<char>>)
    requires
        in_order(a),
        in_order(b),
        a.to_multiset() == b.to_multiset(),
    ensures
        a == b,
    decreases a.len(),
{
    to_multiset_len(a);
    to_multiset_len(b);
    if a.len() == 0 {
        assert(a == b);
    } else {
        let n = a.len() - 1;
        let x = a[n];
        let y = b[n];
        to_multiset_contains(a, y);
        to_multiset_contains(b, y);
        to_multiset_contains(a, x);
        to_multiset_contains(b, x);
        assert(a.contains(x) && b.contains(y));
        let i = choose|i: int| 0 <= i < a.len() && a[i] == y;
        let j = choose|j: int| 0 <= j < b.len() && b[j] == x;
        if i < n && j < n {
            assert(not_after(a[i], a[n]));
            assert(not_after(b[j], b[n]));
            lemma_order_antisymmetric(x, y);
        }
        to_multiset_remove(a, n);
        to_multiset_remove(b, n);
        let front = a.remove(n);
        let other = b.remove(n);
        assert forall|k: int, m: int| 0 <= k < m < front.len() implies not_after(
            #[trigger] front[k],
            #[trigger] front[m],
        ) by {
            assert(front[k] == a[k] && front[m] == a[m]);
        }
        assert forall|k: int, m: int| 0 <= k < m < other.len() implies not_after(
            #[trigger] other[k],
            #[trigger] other[m],
        ) by {
            assert(other[k] == b[k] && other[m] == b[m]);
        }
        law_order_is_unique(front, other);
        assert(a == front.push(x));
        assert(b == other.push(y));
    }
}

/// The order is that of a dictionary: where two texts differ for the first time, the lesser
/// character comes first; and a text comes before those that it starts.
pub proof fn law_first_difference_decides(a: Seq<char>, b: Seq<char>, k: int)
    requires
        0 <= k <= a.len(),
        k <= b.len(),
        forall|i: int| 0 <= i < k ==> a[i] == b[i],
    ensures
        k < a.len() && k < b.len() && a[k] != b[k] ==> (not_after(a, b) <==> a[k] < b[k]),
        k == a.len() ==> not_after(a, b),
        k == b.len() && k < a.len() ==> !not_after(a, b),
    decreases k,
{
    if k > 0 {
        assert forall|i: int| 0 <= i < k - 1 implies a.drop_first()[i] == b.drop_first()[i] by {
            assert(a[i + 1] == b[i + 1]);
        }
        law_first_difference_decides(a.drop_first(), b.drop_first(), k - 1);
        assert(a[0] == b[0]);
    }
}

/// Texts that are in order stand one after the other as a dictionary has them; where each is there
/// only once, no two of them are equal.
pub proof fn law_ordered_texts(texts: Seq<Seq<char>>, i: int, j: int)
    requires
        0 <= i < j < texts.len(),
    ensures
        in_order(texts) ==> not_after(texts[i], texts[j]),
        strictly_in_order(texts) ==> not_after(texts[i], texts[j]) && texts[i] != texts[j],
{
}

} // verus!
