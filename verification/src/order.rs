//! The order of texts, and sorted lists of them.

use crate::text;
use vstd::prelude::*;

verus! {

/// Whether `a` does not come behind `b` in the order of their characters. It is
/// the order of their bytes too, since UTF-8 keeps it.
pub open spec fn text_le(a: Seq<char>, b: Seq<char>) -> bool
    decreases a.len(),
{
    if a.len() == 0 {
        true
    } else if b.len() == 0 {
        false
    } else if a[0] != b[0] {
        a[0] < b[0]
    } else {
        text_le(a.drop_first(), b.drop_first())
    }
}

/// Of two texts, one does not come behind the other.
pub proof fn lemma_le_total(a: Seq<char>, b: Seq<char>)
    ensures
        text_le(a, b) || text_le(b, a),
    decreases a.len(),
{
    if a.len() > 0 && b.len() > 0 && a[0] == b[0] {
        lemma_le_total(a.drop_first(), b.drop_first());
    }
}

/// Texts that come behind neither of each other are the same.
pub proof fn lemma_le_antisymmetric(a: Seq<char>, b: Seq<char>)
    requires
        text_le(a, b),
        text_le(b, a),
    ensures
        a == b,
    decreases a.len(),
{
    if a.len() > 0 && b.len() > 0 {
        lemma_le_antisymmetric(a.drop_first(), b.drop_first());
        assert(a =~= seq![a[0]] + a.drop_first());
        assert(b =~= seq![b[0]] + b.drop_first());
    } else {
        assert(a =~= b);
    }
}

/// The order is transitive.
pub proof fn lemma_le_transitive(a: Seq<char>, b: Seq<char>, c: Seq<char>)
    requires
        text_le(a, b),
        text_le(b, c),
    ensures
        text_le(a, c),
    decreases a.len(),
{
    if a.len() > 0 && b.len() > 0 && c.len() > 0 && a[0] == b[0] && b[0] == c[0] {
        lemma_le_transitive(a.drop_first(), b.drop_first(), c.drop_first());
    }
}

/// Whether a list is in order.
pub open spec fn in_order(list: Seq<Seq<char>>) -> bool {
    forall|i: int, j: int| #![trigger list[i], list[j]] 0 <= i < j < list.len() ==> text_le(list[i], list[j])
}

/// How many of the first `n` texts do not come behind `x`, in a list in order:
/// where `x` goes.
pub open spec fn place(list: Seq<Seq<char>>, x: Seq<char>, n: int) -> int
    decreases n,
{
    if n <= 0 {
        0
    } else if text_le(list[n - 1], x) {
        n
    } else {
        place(list, x, n - 1)
    }
}

/// The texts of a list, in order.
pub open spec fn sorted(list: Seq<Seq<char>>) -> Seq<Seq<char>>
    decreases list.len(),
{
    if list.len() == 0 {
        list
    } else {
        let rest = sorted(list.drop_last());
        rest.insert(place(rest, list.last(), rest.len() as int), list.last())
    }
}

proof fn lemma_place(list: Seq<Seq<char>>, x: Seq<char>, n: int)
    requires
        0 <= n <= list.len(),
    ensures
        0 <= place(list, x, n) <= n,
        place(list, x, n) > 0 ==> text_le(list[place(list, x, n) - 1], x),
        forall|k: int| place(list, x, n) <= k < n ==> !text_le(#[trigger] list[k], x),
    decreases n,
{
    if n > 0 && !text_le(list[n - 1], x) {
        lemma_place(list, x, n - 1);
    }
}

/// Sorting puts the same texts in order.
pub proof fn lemma_sorted(list: Seq<Seq<char>>)
    ensures
        in_order(sorted(list)),
        sorted(list).to_multiset() == list.to_multiset(),
        sorted(list).len() == list.len(),
    decreases list.len(),
{
    if list.len() > 0 {
        let rest = sorted(list.drop_last());
        let x = list.last();
        lemma_sorted(list.drop_last());
        lemma_place(rest, x, rest.len() as int);
        let at = place(rest, x, rest.len() as int);
        let all = rest.insert(at, x);
        assert forall|i: int, j: int| #![trigger all[i], all[j]] 0 <= i < j < all.len() implies text_le(all[i], all[j]) by {
            let i0 = if i < at { i } else { i - 1 };
            let j0 = if j < at { j } else { j - 1 };
            if i == at {
                assert(all[j] == rest[j0]);
                lemma_le_total(x, rest[j0]);
            } else if j == at {
                assert(all[i] == rest[i0]);
                if i0 < at - 1 {
                    assert(text_le(rest[i0], rest[at - 1]));
                    lemma_le_transitive(rest[i0], rest[at - 1], x);
                }
            } else {
                assert(all[i] == rest[i0] && all[j] == rest[j0]);
            }
        }
        vstd::seq_lib::to_multiset_insert(rest, at, x);
        vstd::seq_lib::to_multiset_build(list.drop_last(), x);
        assert(list.drop_last().push(x) =~= list);
    }
}

/// Two lists in order with the same texts are the same.
pub proof fn lemma_order_is_unique(a: Seq<Seq<char>>, b: Seq<Seq<char>>)
    requires
        in_order(a),
        in_order(b),
        a.to_multiset() == b.to_multiset(),
    ensures
        a == b,
    decreases a.len(),
{
    vstd::seq_lib::to_multiset_len(a);
    vstd::seq_lib::to_multiset_len(b);
    if a.len() == 0 {
        assert(a =~= b);
    } else {
        let x = a.last();
        let y = b.last();
        assert(text_le(x, y)) by {
            assert(a[a.len() - 1] == x);
            assert(a.contains(x));
            vstd::seq_lib::to_multiset_contains(a, x);
            vstd::seq_lib::to_multiset_contains(b, x);
            let k = choose|k: int| 0 <= k < b.len() && b[k] == x;
            if k == b.len() - 1 {
                lemma_le_total(x, y);
            } else {
                assert(text_le(b[k], b[b.len() - 1]));
            }
        }
        assert(text_le(y, x)) by {
            assert(b[b.len() - 1] == y);
            assert(b.contains(y));
            vstd::seq_lib::to_multiset_contains(b, y);
            vstd::seq_lib::to_multiset_contains(a, y);
            let k = choose|k: int| 0 <= k < a.len() && a[k] == y;
            if k == a.len() - 1 {
                lemma_le_total(x, y);
            } else {
                assert(text_le(a[k], a[a.len() - 1]));
            }
        }
        lemma_le_antisymmetric(x, y);
        vstd::seq_lib::to_multiset_build(a.drop_last(), x);
        vstd::seq_lib::to_multiset_build(b.drop_last(), y);
        assert(a.drop_last().push(x) =~= a);
        assert(b.drop_last().push(y) =~= b);
        assert(a.drop_last().to_multiset() =~= b.drop_last().to_multiset()) by {
            assert(a.to_multiset().remove(x) =~= a.drop_last().to_multiset());
            assert(b.to_multiset().remove(y) =~= b.drop_last().to_multiset());
        }
        assert(in_order(a.drop_last()));
        assert(in_order(b.drop_last()));
        lemma_order_is_unique(a.drop_last(), b.drop_last());
    }
}

/// Sorting forgets the order that a list was in.
pub proof fn lemma_sorted_ignores_order(a: Seq<Seq<char>>, b: Seq<Seq<char>>)
    requires
        a.to_multiset() == b.to_multiset(),
    ensures
        sorted(a) == sorted(b),
{
    lemma_sorted(a);
    lemma_sorted(b);
    lemma_order_is_unique(sorted(a), sorted(b));
}

/// Whether `a` does not come behind `b`.
pub fn not_behind(a: &str, b: &str) -> (r: bool)
    ensures
        r == text_le(a@, b@),
{
    let x = text::chars_of(a);
    let y = text::chars_of(b);
    let mut i: usize = 0;
    assert(x@.subrange(0, x@.len() as int) =~= x@);
    assert(y@.subrange(0, y@.len() as int) =~= y@);
    while i < x.len()
        invariant
            x@ == a@,
            y@ == b@,
            i <= x@.len(),
            i <= y@.len(),
            text_le(x@, y@) == text_le(x@.subrange(i as int, x@.len() as int), y@.subrange(i as int, y@.len() as int)),
        decreases x@.len() - i,
    {
        let ghost xs = x@.subrange(i as int, x@.len() as int);
        let ghost ys = y@.subrange(i as int, y@.len() as int);
        if i >= y.len() {
            return false;
        }
        if x[i] != y[i] {
            return x[i] < y[i];
        }
        proof {
            assert(xs.drop_first() =~= x@.subrange(i + 1, x@.len() as int));
            assert(ys.drop_first() =~= y@.subrange(i + 1, y@.len() as int));
        }
        i = i + 1;
    }
    true
}

/// Put the texts of a list in order.
pub fn sort_texts(list: &Vec<String>) -> (r: Vec<String>)
    ensures
        text::texts(r@) == sorted(text::texts(list@)),
{
    let mut out: Vec<String> = Vec::new();
    let ghost all = text::texts(list@);
    let mut i: usize = 0;
    assert(text::texts(out@) =~= sorted(all.take(0)));
    while i < list.len()
        invariant
            all == text::texts(list@),
            i <= list@.len(),
            text::texts(out@) == sorted(all.take(i as int)),
        decreases list@.len() - i,
    {
        let ghost rest = text::texts(out@);
        let ghost x = list@[i as int]@;
        let mut at: usize = out.len();
        while at > 0 && !not_behind(out[at - 1].as_str(), list[i].as_str())
            invariant
                i < list@.len(),
                x == list@[i as int]@,
                rest == text::texts(out@),
                at <= out@.len(),
                place(rest, x, rest.len() as int) == place(rest, x, at as int),
            decreases at,
        {
            assert(rest[at - 1] == out@[at - 1]@);
            at = at - 1;
        }
        proof {
            if at > 0 {
                assert(rest[at - 1] == out@[at - 1]@);
            }
            assert(place(rest, x, at as int) == at);
            assert(all.take(i + 1).drop_last() =~= all.take(i as int));
            assert(all.take(i + 1).last() == x);
        }
        out.insert(at, list[i].clone());
        assert(text::texts(out@) =~= rest.insert(at as int, x));
        i = i + 1;
    }
    assert(all.take(i as int) =~= all);
    out
}

/// Texts are ordered by the first character in which they differ, and a text comes before
/// its continuations.
pub proof fn law_order_is_by_the_first_difference(a: Seq<char>, b: Seq<char>, k: int)
    requires
        0 <= k <= a.len(),
        k <= b.len(),
        forall|i: int| 0 <= i < k ==> a[i] == b[i],
    ensures
        k < a.len() && k < b.len() && a[k] != b[k] ==> (text_le(a, b) <==> a[k] < b[k]),
        k == a.len() ==> text_le(a, b),
        k == b.len() && k < a.len() ==> !text_le(a, b),
    decreases k,
{
    if k > 0 {
        let x = a.drop_first();
        let y = b.drop_first();
        assert forall|i: int| 0 <= i < k - 1 implies x[i] == y[i] by {
            assert(a[i + 1] == b[i + 1]);
        }
        assert(a[0] == b[0]);
        law_order_is_by_the_first_difference(x, y, k - 1);
        if k < a.len() && k < b.len() {
            assert(x[k - 1] == a[k] && y[k - 1] == b[k]);
        }
    }
}

/// A list is sorted into order, and keeps every text as often as it has it.
pub proof fn law_sorted_list_is_in_order(list: Seq<Seq<char>>, i: int, j: int)
    ensures
        sorted(list).to_multiset() == list.to_multiset(),
        0 <= i < j < sorted(list).len() ==> text_le(sorted(list)[i], sorted(list)[j]),
{
    lemma_sorted(list);
}

} // verus!
