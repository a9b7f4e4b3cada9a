//! Specification vocabulary for entry sequences: prefix selection, ordering,
//! completeness, and size accounting, with the lemmas the store's proofs use.

use std::rc::Rc;
use vstd::prelude::*;
use vstd::multiset::Multiset;
use crate::keyorder::{lemma_lex_trichotomy, lex_le, lex_lt};
pub use crate::keyorder::matches_prefix;

verus! {

/// A composite key: an ordered sequence of category tokens.
pub type Key = Vec<u64>;

/// The stored value: a shared, read-only payload together with its
/// caller-supplied logical size.
pub type Value<T> = (Rc<T>, usize);

/// The underlying entry container.
pub type Tree<T> = Vec<(Key, Value<T>)>;

/// The entries of `s` are strictly sorted by key in lexicographic order;
/// this also makes all keys pairwise distinct.
pub open spec fn entries_ordered<T>(s: Seq<(Key, Value<T>)>) -> bool {
    forall|i: int, j: int| 0 <= i < j < s.len() ==> lex_lt(#[trigger] s[i].0@, #[trigger] s[j].0@)
}

/// The entries of `s` are sorted by key in non-strict lexicographic order.
pub open spec fn entries_sorted<T>(s: Seq<(Key, Value<T>)>) -> bool {
    forall|i: int, j: int| 0 <= i < j < s.len() ==> lex_le(#[trigger] s[i].0@, #[trigger] s[j].0@)
}

/// No two entries of `s` carry the same key.
pub open spec fn keys_distinct<T>(s: Seq<(Key, Value<T>)>) -> bool {
    forall|i: int, j: int| 0 <= i < j < s.len() ==> (#[trigger] s[i].0@) != (#[trigger] s[j].0@)
}

/// Every key of `s` is complete: its length is exactly `n`.
pub open spec fn entries_complete<T>(s: Seq<(Key, Value<T>)>, n: int) -> bool {
    forall|i: int| 0 <= i < s.len() ==> (#[trigger] s[i].0@).len() == n
}

/// Some entry of `s` carries exactly the key `k`.
pub open spec fn has_key<T>(s: Seq<(Key, Value<T>)>, k: Seq<u64>) -> bool {
    exists|i: int| 0 <= i < s.len() && (#[trigger] s[i].0@) == k
}

/// Holds of entries whose keys start with `p`.
pub open spec fn match_pred<T>(p: Seq<u64>) -> spec_fn((Key, Value<T>)) -> bool {
    |e: (Key, Value<T>)| matches_prefix(e.0@, p)
}

/// Holds of entries whose keys do not start with `p`.
pub open spec fn unmatch_pred<T>(p: Seq<u64>) -> spec_fn((Key, Value<T>)) -> bool {
    |e: (Key, Value<T>)| !matches_prefix(e.0@, p)
}

/// The entries of `s` whose keys start with `p`, in order.
pub open spec fn matching<T>(s: Seq<(Key, Value<T>)>, p: Seq<u64>) -> Seq<(Key, Value<T>)> {
    s.filter(match_pred(p))
}

/// The entries of `s` whose keys do not start with `p`, in order.
pub open spec fn remaining<T>(s: Seq<(Key, Value<T>)>, p: Seq<u64>) -> Seq<(Key, Value<T>)> {
    s.filter(unmatch_pred(p))
}

/// The values of the entries of `s`, in order.
pub open spec fn values_of<T>(s: Seq<(Key, Value<T>)>) -> Seq<Value<T>> {
    s.map_values(|e: (Key, Value<T>)| e.1)
}

/// The sum of the entry sizes of `s`.
pub open spec fn total_size<T>(s: Seq<(Key, Value<T>)>) -> int
    decreases s.len(),
{
    if s.len() == 0 {
        0
    } else {
        total_size(s.drop_last()) + s.last().1.1
    }
}

/// A key sum is never negative.
pub proof fn lemma_total_size_nonneg<T>(s: Seq<(Key, Value<T>)>)
    ensures
        total_size(s) >= 0,
    decreases s.len(),
{
    if s.len() > 0 {
        lemma_total_size_nonneg(s.drop_last());
    }
}

/// Extending a prefix by one entry grows the sum by that entry's size.
pub proof fn lemma_total_size_take_step<T>(s: Seq<(Key, Value<T>)>, i: int)
    requires
        0 <= i < s.len(),
    ensures
        total_size(s.take(i + 1)) == total_size(s.take(i)) + s[i].1.1,
{
    assert(s.take(i + 1).drop_last() =~= s.take(i));
    assert(s.take(i + 1).last() == s[i]);
}

/// The sum over a prefix never exceeds the sum over the whole sequence.
pub proof fn lemma_total_size_prefix<T>(s: Seq<(Key, Value<T>)>, i: int)
    requires
        0 <= i <= s.len(),
    ensures
        total_size(s.take(i)) <= total_size(s),
    decreases s.len() - i,
{
    if i == s.len() {
        assert(s.take(i) =~= s);
    } else {
        lemma_total_size_take_step(s, i);
        lemma_total_size_prefix(s, i + 1);
    }
}

/// A strictly sorted store is iterated in non-decreasing key order.
pub proof fn lemma_ordered_implies_sorted<T>(s: Seq<(Key, Value<T>)>)
    requires
        entries_ordered(s),
    ensures
        entries_sorted(s),
{
}

/// In a key-distinct sequence every entry occurs exactly once.
pub proof fn lemma_count_in_distinct<T>(s: Seq<(Key, Value<T>)>, i: int)
    requires
        keys_distinct(s),
        0 <= i < s.len(),
    ensures
        s.to_multiset().count(s[i]) == 1,
{
    broadcast use vstd::seq_lib::group_to_multiset_ensures;

    let e = s[i];
    assert(s.contains(e));
    assert(s.to_multiset().count(e) > 0);
    if s.to_multiset().count(e) >= 2 {
        assert(s.remove(i).to_multiset() == s.to_multiset().remove(e));
        assert(s.remove(i).to_multiset().count(e) > 0);
        assert(s.remove(i).contains(e));
        let b = choose|b: int| 0 <= b < s.remove(i).len() && s.remove(i)[b] == e;
        if b < i {
            assert(s[b] == e);
            assert(s[b].0@ != s[i].0@);
        } else {
            assert(s[b + 1] == e);
            assert(s[i].0@ != s[b + 1].0@);
        }
    }
}

/// Sorted entries with pairwise distinct keys are strictly sorted.
pub proof fn lemma_sorted_distinct_ordered<T>(s: Seq<(Key, Value<T>)>)
    requires
        entries_sorted(s),
        keys_distinct(s),
    ensures
        entries_ordered(s),
{
}

/// Inserting an element anywhere adds it to the sequence's multiset.
pub proof fn lemma_insert_multiset<T>(s: Seq<(Key, Value<T>)>, p: int, e: (Key, Value<T>))
    requires
        0 <= p <= s.len(),
    ensures
        s.insert(p, e).to_multiset() == s.to_multiset().insert(e),
{
    broadcast use vstd::seq_lib::group_to_multiset_ensures;

    let a = s.take(p);
    let b = s.skip(p);
    assert(s.insert(p, e) =~= a + (seq![e] + b));
    assert(s =~= a + b);
    vstd::seq_lib::lemma_multiset_commutative(a, seq![e] + b);
    vstd::seq_lib::lemma_multiset_commutative(seq![e], b);
    vstd::seq_lib::lemma_multiset_commutative(a, b);
    assert(seq![e].to_multiset() =~= Multiset::<(Key, Value<T>)>::empty().insert(e)) by {
        assert(seq![e] =~= Seq::<(Key, Value<T>)>::empty().push(e));
        assert(Seq::<(Key, Value<T>)>::empty().push(e).to_multiset()
            =~= Seq::<(Key, Value<T>)>::empty().to_multiset().insert(e));
    }
    assert(s.insert(p, e).to_multiset() =~= s.to_multiset().insert(e));
}

/// A permutation of complete entries stays complete.
pub proof fn lemma_multiset_complete<T>(s1: Seq<(Key, Value<T>)>, s2: Seq<(Key, Value<T>)>, n: int)
    requires
        s1.to_multiset() == s2.to_multiset(),
        entries_complete(s1, n),
    ensures
        entries_complete(s2, n),
{
    broadcast use vstd::seq_lib::group_to_multiset_ensures;

    assert forall|i: int| 0 <= i < s2.len() implies (#[trigger] s2[i].0@).len() == n by {
        assert(s2.contains(s2[i]));
        assert(s2.to_multiset().count(s2[i]) > 0);
        assert(s1.contains(s2[i]));
        let j = choose|j: int| 0 <= j < s1.len() && s1[j] == s2[i];
        assert(s1[j].0@.len() == n);
    }
}

/// A permutation of key-distinct entries stays key-distinct.
pub proof fn lemma_multiset_distinct<T>(s1: Seq<(Key, Value<T>)>, s2: Seq<(Key, Value<T>)>)
    requires
        s1.to_multiset() == s2.to_multiset(),
        keys_distinct(s1),
    ensures
        keys_distinct(s2),
{
    broadcast use vstd::seq_lib::group_to_multiset_ensures;

    assert forall|i: int, j: int| 0 <= i < j < s2.len() implies (#[trigger] s2[i].0@)
        != (#[trigger] s2[j].0@) by {
        if s2[i].0@ == s2[j].0@ {
            if s2[i] == s2[j] {
                let e = s2[i];
                assert(s2.remove(i).to_multiset() == s2.to_multiset().remove(e));
                assert(s2.remove(i)[j - 1] == e);
                assert(s2.remove(i).contains(e));
                assert(s2.remove(i).to_multiset().count(e) > 0);
                assert(s2.to_multiset().remove(e).count(e) == s2.to_multiset().count(e) - 1);
                assert(s2.to_multiset().count(e) >= 2);
                assert(s1.to_multiset().count(e) >= 2);
                assert(s1.contains(e));
                let a = choose|a: int| 0 <= a < s1.len() && s1[a] == e;
                assert(s1.remove(a).to_multiset() == s1.to_multiset().remove(e));
                assert(s1.remove(a).to_multiset().count(e) > 0);
                assert(s1.remove(a).contains(e));
                let b = choose|b: int| 0 <= b < s1.remove(a).len() && s1.remove(a)[b] == e;
                if b < a {
                    assert(s1[b] == e);
                    assert(s1[b].0@ != s1[a].0@);
                } else {
                    assert(s1[b + 1] == e);
                    assert(s1[a].0@ != s1[b + 1].0@);
                }
            } else {
                assert(s2.contains(s2[i]));
                assert(s2.contains(s2[j]));
                assert(s2.to_multiset().count(s2[i]) > 0);
                assert(s2.to_multiset().count(s2[j]) > 0);
                assert(s1.to_multiset().count(s2[i]) > 0);
                assert(s1.to_multiset().count(s2[j]) > 0);
                assert(s1.contains(s2[i]));
                assert(s1.contains(s2[j]));
                let a = choose|a: int| 0 <= a < s1.len() && s1[a] == s2[i];
                let b = choose|b: int| 0 <= b < s1.len() && s1[b] == s2[j];
                assert(a != b);
                if a < b {
                    assert(s1[a].0@ != s1[b].0@);
                } else {
                    assert(s1[b].0@ != s1[a].0@);
                }
            }
        }
    }
}

/// Appending one entry grows the sum by that entry's size.
pub proof fn lemma_total_size_push<T>(s: Seq<(Key, Value<T>)>, e: (Key, Value<T>))
    ensures
        total_size(s.push(e)) == total_size(s) + e.1.1,
{
    assert(s.push(e).drop_last() =~= s);
    assert(s.push(e).last() == e);
}

/// Inserting one entry grows the sum by that entry's size.
pub proof fn lemma_total_size_insert<T>(s: Seq<(Key, Value<T>)>, i: int, e: (Key, Value<T>))
    requires
        0 <= i <= s.len(),
    ensures
        total_size(s.insert(i, e)) == total_size(s) + e.1.1,
    decreases s.len(),
{
    if i == s.len() {
        assert(s.insert(i, e) =~= s.push(e));
        lemma_total_size_push(s, e);
    } else {
        assert(s.insert(i, e).drop_last() =~= s.drop_last().insert(i, e));
        assert(s.insert(i, e).last() == s.last());
        lemma_total_size_insert(s.drop_last(), i, e);
    }
}

/// Removing one entry shrinks the sum by that entry's size.
pub proof fn lemma_total_size_remove<T>(s: Seq<(Key, Value<T>)>, i: int)
    requires
        0 <= i < s.len(),
    ensures
        total_size(s.remove(i)) == total_size(s) - s[i].1.1,
{
    lemma_total_size_insert(s.remove(i), i, s[i]);
    assert(s.remove(i).insert(i, s[i]) =~= s);
}

/// Moving one occurrence of `e` from one multiset to another keeps the
/// combined multiset.
pub proof fn lemma_multiset_transfer<T>(
    m1: Multiset<(Key, Value<T>)>,
    m2: Multiset<(Key, Value<T>)>,
    e: (Key, Value<T>),
)
    requires
        m1.count(e) > 0,
    ensures
        m1.remove(e).add(m2.insert(e)) == m1.add(m2),
{
    broadcast use vstd::multiset::group_multiset_axioms;

    assert forall|x: (Key, Value<T>)| m1.remove(e).add(m2.insert(e)).count(x) == m1.add(
        m2,
    ).count(x) by {
        if x == e {
            assert(m1.remove(e).count(x) == m1.count(x) - 1);
            assert(m2.insert(e).count(x) == m2.count(x) + 1);
        } else {
            assert(m1.remove(e).count(x) == m1.count(x));
            assert(m2.insert(e).count(x) == m2.count(x));
        }
    }
    assert(m1.remove(e).add(m2.insert(e)) =~= m1.add(m2));
}

/// Selection and rejection by one prefix split the size sum exactly.
pub proof fn lemma_total_size_partition<T>(s: Seq<(Key, Value<T>)>, p: Seq<u64>)
    ensures
        total_size(matching(s, p)) + total_size(remaining(s, p)) == total_size(s),
    decreases s.len(),
{
    reveal(Seq::filter);
    if s.len() > 0 {
        let d = s.drop_last();
        lemma_total_size_partition(d, p);
        if matches_prefix(s.last().0@, p) {
            lemma_total_size_push(matching(d, p), s.last());
        } else {
            lemma_total_size_push(remaining(d, p), s.last());
        }
    }
}

/// Concatenation adds the size sums.
pub proof fn lemma_total_size_concat<T>(a: Seq<(Key, Value<T>)>, b: Seq<(Key, Value<T>)>)
    ensures
        total_size(a + b) == total_size(a) + total_size(b),
    decreases b.len(),
{
    if b.len() == 0 {
        assert(a + b =~= a);
    } else {
        assert((a + b).drop_last() =~= a + b.drop_last());
        assert((a + b).last() == b.last());
        lemma_total_size_concat(a, b.drop_last());
    }
}

/// Reversal keeps the size sum.
pub proof fn lemma_total_size_reverse<T>(s: Seq<(Key, Value<T>)>)
    ensures
        total_size(s.reverse()) == total_size(s),
    decreases s.len(),
{
    if s.len() > 0 {
        assert(s.reverse().drop_last() =~= s.drop_first().reverse());
        assert(s.reverse().last() == s.first());
        lemma_total_size_reverse(s.drop_first());
        assert(s =~= seq![s.first()] + s.drop_first());
        lemma_total_size_concat(seq![s.first()], s.drop_first());
        lemma_total_size_singleton(s.first());
    }
}

/// Removing one entry keeps the strict key order.
pub proof fn lemma_remove_ordered<T>(s: Seq<(Key, Value<T>)>, i: int)
    requires
        entries_ordered(s),
        0 <= i < s.len(),
    ensures
        entries_ordered(s.remove(i)),
{
    assert forall|a: int, b: int| 0 <= a < b < s.remove(i).len() implies lex_lt(
        #[trigger] s.remove(i)[a].0@,
        #[trigger] s.remove(i)[b].0@,
    ) by {
        if a < i {
            assert(s.remove(i)[a] == s[a]);
        } else {
            assert(s.remove(i)[a] == s[a + 1]);
        }
        if b < i {
            assert(s.remove(i)[b] == s[b]);
        } else {
            assert(s.remove(i)[b] == s[b + 1]);
        }
    }
}

/// Removing one entry keeps every key complete.
pub proof fn lemma_remove_complete<T>(s: Seq<(Key, Value<T>)>, i: int, n: int)
    requires
        entries_complete(s, n),
        0 <= i < s.len(),
    ensures
        entries_complete(s.remove(i), n),
{
    assert forall|a: int| 0 <= a < s.remove(i).len() implies (#[trigger] s.remove(i)[a].0@).len()
        == n by {
        if a < i {
            assert(s.remove(i)[a] == s[a]);
        } else {
            assert(s.remove(i)[a] == s[a + 1]);
        }
    }
}

/// The index of the first entry of `s` whose size fits within the budget
/// `b`, or `-1` when none fits.
pub open spec fn first_fit_idx<T>(s: Seq<(Key, Value<T>)>, b: int) -> int
    decreases s.len(),
{
    if s.len() == 0 {
        -1
    } else if s.first().1.1 <= b {
        0
    } else if first_fit_idx(s.drop_first(), b) == -1 {
        -1
    } else {
        first_fit_idx(s.drop_first(), b) + 1
    }
}

/// What `first_fit_idx` returns: the smallest fitting index, or `-1` when no
/// entry fits.
pub proof fn lemma_first_fit_idx<T>(s: Seq<(Key, Value<T>)>, b: int)
    ensures
        first_fit_idx(s, b) == -1 ==> forall|i: int| 0 <= i < s.len() ==> (#[trigger] s[i]).1.1 > b,
        first_fit_idx(s, b) != -1 ==> {
            &&& 0 <= first_fit_idx(s, b) < s.len()
            &&& s[first_fit_idx(s, b)].1.1 <= b
            &&& forall|i: int| 0 <= i < first_fit_idx(s, b) ==> (#[trigger] s[i]).1.1 > b
        },
    decreases s.len(),
{
    if s.len() > 0 && s.first().1.1 > b {
        lemma_first_fit_idx(s.drop_first(), b);
        let d = s.drop_first();
        if first_fit_idx(d, b) == -1 {
            assert forall|i: int| 0 <= i < s.len() implies (#[trigger] s[i]).1.1 > b by {
                if i > 0 {
                    assert(s[i] == d[i - 1]);
                }
            }
        } else {
            let f = first_fit_idx(d, b);
            assert(s[f + 1] == d[f]);
            assert forall|i: int| 0 <= i < f + 1 implies (#[trigger] s[i]).1.1 > b by {
                if i > 0 {
                    assert(s[i] == d[i - 1]);
                }
            }
        }
    }
}

/// Splits `s` greedily by first fit against the budget `b`: the extracted
/// entries in extraction order, and what is left, in order.
pub open spec fn first_fit_split<T>(s: Seq<(Key, Value<T>)>, b: int) -> (
    Seq<(Key, Value<T>)>,
    Seq<(Key, Value<T>)>,
)
    decreases s.len(),
{
    if b <= 0 || first_fit_idx(s, b) < 0 || first_fit_idx(s, b) >= s.len() {
        (Seq::empty(), s)
    } else {
        let f = first_fit_idx(s, b);
        let e = s[f];
        let rest = first_fit_split(s.remove(f), b - e.1.1);
        (seq![e] + rest.0, rest.1)
    }
}

/// The sum over one entry is its size.
pub proof fn lemma_total_size_singleton<T>(e: (Key, Value<T>))
    ensures
        total_size(seq![e]) == e.1.1,
{
    let one = seq![e];
    assert(one.drop_last() =~= Seq::<(Key, Value<T>)>::empty());
    assert(one.last() == e);
    assert(total_size(one) == total_size(one.drop_last()) + one.last().1.1);
}

/// An empty extraction leaves the sequence untouched.
pub proof fn lemma_first_fit_split_empty<T>(s: Seq<(Key, Value<T>)>, b: int)
    requires
        first_fit_split(s, b).0.len() == 0,
    ensures
        first_fit_split(s, b).1 == s,
{
}

/// What the greedy split guarantees: the two sides partition the sequence,
/// the extracted side keeps within the budget, and order and key
/// completeness carry over to what is left.
pub proof fn lemma_first_fit_split_props<T>(s: Seq<(Key, Value<T>)>, b: int, n: int)
    requires
        b >= 0,
    ensures
        first_fit_split(s, b).0.len() + first_fit_split(s, b).1.len() == s.len(),
        total_size(first_fit_split(s, b).0) + total_size(first_fit_split(s, b).1) == total_size(s),
        total_size(first_fit_split(s, b).0) <= b,
        first_fit_split(s, b).0.to_multiset().add(first_fit_split(s, b).1.to_multiset())
            == s.to_multiset(),
        entries_ordered(s) ==> entries_ordered(first_fit_split(s, b).1),
        entries_complete(s, n) ==> entries_complete(first_fit_split(s, b).0, n)
            && entries_complete(first_fit_split(s, b).1, n),
    decreases s.len(),
{
    broadcast use vstd::seq_lib::group_to_multiset_ensures;

    lemma_first_fit_idx(s, b);
    lemma_total_size_nonneg(first_fit_split(s, b).0);
    lemma_total_size_nonneg(first_fit_split(s, b).1);
    if !(b <= 0 || first_fit_idx(s, b) < 0 || first_fit_idx(s, b) >= s.len()) {
        let f = first_fit_idx(s, b);
        let e = s[f];
        let d = s.remove(f);
        lemma_first_fit_split_props(d, b - e.1.1, n);
        if entries_ordered(s) {
            lemma_remove_ordered(s, f);
        }
        if entries_complete(s, n) {
            lemma_remove_complete(s, f, n);
            assert forall|i: int|
                0 <= i < first_fit_split(s, b).0.len() implies (#[trigger] first_fit_split(
                s,
                b,
            ).0[i].0@).len() == n by {
                if i > 0 {
                    assert(first_fit_split(s, b).0[i] == first_fit_split(d, b - e.1.1).0[i - 1]);
                }
            }
        }
        assert(first_fit_split(s, b).0 == seq![e] + first_fit_split(d, b - e.1.1).0);
        lemma_total_size_concat(seq![e], first_fit_split(d, b - e.1.1).0);
        lemma_total_size_singleton(e);
        assert(total_size(d) == total_size(s) - e.1.1) by {
            assert(d =~= s.take(f) + s.skip(f + 1));
            assert(s =~= s.take(f) + (seq![e] + s.skip(f + 1)));
            lemma_total_size_concat(s.take(f), s.skip(f + 1));
            lemma_total_size_concat(s.take(f), seq![e] + s.skip(f + 1));
            lemma_total_size_concat(seq![e], s.skip(f + 1));
        }
        assert(first_fit_split(s, b).0.to_multiset().add(first_fit_split(s, b).1.to_multiset())
            =~= s.to_multiset()) by {
            broadcast use vstd::multiset::group_multiset_axioms;

            vstd::seq_lib::lemma_multiset_commutative(seq![e], first_fit_split(d, b - e.1.1).0);
            assert(seq![e].to_multiset() =~= Multiset::<(Key, Value<T>)>::empty().insert(e)) by {
                assert(seq![e] =~= Seq::<(Key, Value<T>)>::empty().push(e));
            }
            assert(s.contains(e));
            assert(s.to_multiset().count(e) > 0);
            assert(d.to_multiset() == s.to_multiset().remove(e));
            let m0 = first_fit_split(s, b).0.to_multiset();
            let m1 = first_fit_split(s, b).1.to_multiset();
            let d0m = first_fit_split(d, b - e.1.1).0.to_multiset();
            assert forall|x: (Key, Value<T>)| m0.add(m1).count(x) == s.to_multiset().count(
                x,
            ) by {
                assert(m0.add(m1).count(x) == m0.count(x) + m1.count(x));
                assert(m0.count(x) == seq![e].to_multiset().count(x) + d0m.count(x));
                assert(d0m.count(x) + m1.count(x) == d.to_multiset().count(x));
                assert(d.to_multiset().count(x) == s.to_multiset().remove(e).count(x));
                if x == e {
                    assert(seq![e].to_multiset().count(x) == 1);
                    assert(s.to_multiset().remove(e).count(x) == s.to_multiset().count(x) - 1);
                } else {
                    assert(seq![e].to_multiset().count(x) == 0);
                    assert(s.to_multiset().remove(e).count(x) == s.to_multiset().count(x));
                }
            }
        }
    }
}

/// Every filtered entry occurs in the source sequence.
pub proof fn lemma_filter_in_source<T>(
    s: Seq<(Key, Value<T>)>,
    pred: spec_fn((Key, Value<T>)) -> bool,
)
    ensures
        forall|i: int|
            0 <= i < s.filter(pred).len() ==> exists|j: int|
                0 <= j < s.len() && #[trigger] s.filter(pred)[i] == s[j],
    decreases s.len(),
{
    reveal(Seq::filter);
    if s.len() > 0 {
        let d = s.drop_last();
        lemma_filter_in_source(d, pred);
        assert forall|i: int| 0 <= i < s.filter(pred).len() implies exists|j: int|
            0 <= j < s.len() && #[trigger] s.filter(pred)[i] == s[j] by {
            if i < d.filter(pred).len() {
                assert(s.filter(pred)[i] == d.filter(pred)[i]);
                let j = choose|j: int| 0 <= j < d.len() && d.filter(pred)[i] == d[j];
                assert(s.filter(pred)[i] == s[j]);
            } else {
                assert(s.filter(pred)[i] == s[s.len() - 1]);
            }
        }
    }
}

/// Filtering keeps the strict key order.
pub proof fn lemma_filter_ordered<T>(
    s: Seq<(Key, Value<T>)>,
    pred: spec_fn((Key, Value<T>)) -> bool,
)
    requires
        entries_ordered(s),
    ensures
        entries_ordered(s.filter(pred)),
    decreases s.len(),
{
    reveal(Seq::filter);
    if s.len() > 0 {
        let d = s.drop_last();
        assert(entries_ordered(d));
        lemma_filter_ordered(d, pred);
        if pred(s.last()) {
            lemma_filter_in_source(d, pred);
            assert forall|i: int, j: int|
                0 <= i < j < s.filter(pred).len() implies lex_lt(
                #[trigger] s.filter(pred)[i].0@,
                #[trigger] s.filter(pred)[j].0@,
            ) by {
                if j < s.filter(pred).len() - 1 {
                    assert(s.filter(pred)[i] == d.filter(pred)[i]);
                    assert(s.filter(pred)[j] == d.filter(pred)[j]);
                } else {
                    assert(s.filter(pred)[i] == d.filter(pred)[i]);
                    let w = choose|w: int| 0 <= w < d.len() && d.filter(pred)[i] == d[w];
                    assert(lex_lt(s[w].0@, s.last().0@));
                }
            }
        }
    }
}

/// Filtering keeps every key complete.
pub proof fn lemma_filter_complete<T>(
    s: Seq<(Key, Value<T>)>,
    pred: spec_fn((Key, Value<T>)) -> bool,
    n: int,
)
    requires
        entries_complete(s, n),
    ensures
        entries_complete(s.filter(pred), n),
{
    lemma_filter_in_source(s, pred);
    assert forall|i: int| 0 <= i < s.filter(pred).len() implies (#[trigger] s.filter(
        pred,
    )[i].0@).len() == n by {
        let j = choose|j: int| 0 <= j < s.len() && s.filter(pred)[i] == s[j];
        assert(s[j].0@.len() == n);
    }
}

/// One scan step: selecting over the prefix of length `i + 1` extends the
/// selection over the prefix of length `i` exactly when entry `i` matches.
pub proof fn lemma_matching_take_step<T>(s: Seq<(Key, Value<T>)>, p: Seq<u64>, i: int)
    requires
        0 <= i < s.len(),
    ensures
        matching(s.take(i + 1), p) == (if matches_prefix(s[i].0@, p) {
            matching(s.take(i), p).push(s[i])
        } else {
            matching(s.take(i), p)
        }),
        remaining(s.take(i + 1), p) == (if !matches_prefix(s[i].0@, p) {
            remaining(s.take(i), p).push(s[i])
        } else {
            remaining(s.take(i), p)
        }),
{
    reveal(Seq::filter);
    assert(s.take(i + 1).drop_last() =~= s.take(i));
    assert(s.take(i + 1).last() == s[i]);
}

/// A complete key matches a complete prefix exactly when the two are equal.
pub proof fn lemma_matches_complete(a: Seq<u64>, p: Seq<u64>)
    requires
        a.len() == p.len(),
    ensures
        matches_prefix(a, p) == (a == p),
{
    if matches_prefix(a, p) {
        assert(a.subrange(0, p.len() as int) =~= a);
    }
    if a == p {
        assert(a.subrange(0, p.len() as int) =~= p);
    }
}

/// With no entry carrying the complete key `k`, selection by `k` is empty.
pub proof fn lemma_matching_none<T>(s: Seq<(Key, Value<T>)>, k: Seq<u64>, n: int)
    requires
        entries_complete(s, n),
        k.len() == n,
        !has_key(s, k),
    ensures
        matching(s, k) == Seq::<(Key, Value<T>)>::empty(),
        remaining(s, k) == s,
    decreases s.len(),
{
    reveal(Seq::filter);
    if s.len() > 0 {
        let d = s.drop_last();
        assert(entries_complete(d, n));
        assert(!has_key(d, k)) by {
            if has_key(d, k) {
                let i = choose|i: int| 0 <= i < d.len() && d[i].0@ == k;
                assert(s[i].0@ == k);
            }
        }
        lemma_matching_none(d, k, n);
        lemma_matches_complete(s.last().0@, k);
        assert(remaining(s, k) =~= s);
    } else {
        assert(remaining(s, k) =~= s);
    }
}

/// With entry `i` carrying the complete key `k`, selection by `k` is exactly
/// that entry and rejection by `k` drops exactly that entry.
pub proof fn lemma_matching_one<T>(s: Seq<(Key, Value<T>)>, k: Seq<u64>, n: int, i: int)
    requires
        entries_ordered(s),
        entries_complete(s, n),
        k.len() == n,
        0 <= i < s.len(),
        s[i].0@ == k,
    ensures
        matching(s, k) == seq![s[i]],
        remaining(s, k) == s.remove(i),
    decreases s.len(),
{
    reveal(Seq::filter);
    let d = s.drop_last();
    assert(entries_ordered(d));
    assert(entries_complete(d, n));
    lemma_matches_complete(s.last().0@, k);
    if i == s.len() - 1 {
        assert(!has_key(d, k)) by {
            if has_key(d, k) {
                let j = choose|j: int| 0 <= j < d.len() && d[j].0@ == k;
                assert(lex_lt(s[j].0@, s[i].0@));
                lemma_lex_trichotomy(s[j].0@, s[i].0@);
            }
        }
        lemma_matching_none(d, k, n);
        assert(matching(s, k) =~= seq![s[i]]);
        assert(remaining(s, k) =~= s.remove(i));
    } else {
        assert(s.last().0@ != k) by {
            assert(lex_lt(s[i].0@, s[s.len() - 1].0@));
            lemma_lex_trichotomy(s[i].0@, s[s.len() - 1].0@);
        }
        lemma_matching_one(d, k, n, i);
        assert(matching(s, k) =~= seq![s[i]]);
        assert(remaining(s, k) =~= s.remove(i)) by {
            assert(remaining(s, k) == d.remove(i).push(s.last()));
            assert(s.remove(i).len() == s.len() - 1);
            assert forall|j: int| 0 <= j < s.remove(i).len() implies s.remove(i)[j]
                == d.remove(i).push(s.last())[j] by {
                if j < i {
                    assert(s.remove(i)[j] == s[j]);
                } else if j < s.len() - 2 {
                    assert(s.remove(i)[j] == s[j + 1]);
                } else {
                    assert(s.remove(i)[j] == s[j + 1]);
                }
            }
        }
    }
}

} // verus!
