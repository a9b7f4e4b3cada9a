//! The categorized store: an ordered collection of `(key, (payload, size))`
//! entries whose keys are sequences of category tokens of length at most `N`.

use std::rc::Rc;
use vstd::prelude::*;
use vstd::multiset::Multiset;
use crate::entries::{lemma_multiset_transfer, lemma_remove_complete, lemma_remove_ordered};
use crate::entries::{
    entries_complete, entries_ordered, entries_sorted, has_key, keys_distinct,
    lemma_filter_complete, lemma_filter_ordered, lemma_insert_multiset, lemma_matching_none,
    lemma_matching_one, lemma_matching_take_step, lemma_multiset_complete, lemma_multiset_distinct,
    lemma_sorted_distinct_ordered, lemma_total_size_concat, lemma_total_size_insert,
    lemma_total_size_nonneg, lemma_total_size_partition, lemma_total_size_prefix,
    lemma_total_size_reverse, lemma_total_size_take_step, first_fit_idx, first_fit_split,
    lemma_first_fit_idx, lemma_first_fit_split_empty, lemma_first_fit_split_props, matches_prefix,
    matching, remaining, total_size, unmatch_pred, values_of,
};
pub use crate::entries::{Key, Tree, Value};
use crate::keyorder::{
    key_eq, key_lt, key_starts_with, lemma_lex_le_trans, lemma_lex_trichotomy, lemma_lex_trans,
    lex_le, lex_lt,
};

verus! {

/// An ordered collection of entries addressed by keys of up to `N` category
/// tokens. Complete keys (length exactly `N`) are kept pairwise distinct and
/// sorted in lexicographic token order.
pub struct Package<T, const N: usize> {
    data: Tree<T>,
}

/// Why a store operation was refused.
#[derive(Debug)]
pub enum PackageError {
    /// The supplied key or prefix is longer than the fixed depth `N`.
    CategoryTooBig,
    /// Reserved for a constraint no current operation triggers.
    CategoryTooSmall,
    /// An exact-length lookup or removal found no matching complete key.
    NoFound,
    /// An insertion collided with an existing complete key.
    AllReadyExist,
}

impl<T, const N: usize> View for Package<T, N> {
    type V = Seq<(Key, Value<T>)>;

    closed spec fn view(&self) -> Seq<(Key, Value<T>)> {
        self.data@
    }
}

/// The entries behind a sequence of borrowed entries.
pub open spec fn deref_entries<T>(s: Seq<&(Key, Value<T>)>) -> Seq<(Key, Value<T>)> {
    s.map_values(|x: &(Key, Value<T>)| *x)
}

/// The values behind a sequence of borrowed values.
pub open spec fn deref_values<T>(s: Seq<&Value<T>>) -> Seq<Value<T>> {
    s.map_values(|x: &Value<T>| *x)
}

/// Pushing one borrow extends the dereferenced entry row by its target.
proof fn lemma_deref_entries_push<T>(prev: Seq<&(Key, Value<T>)>, cur: Seq<&(Key, Value<T>)>)
    requires
        cur.len() == prev.len() + 1,
        cur == prev.push(cur.last()),
    ensures
        deref_entries(cur) == deref_entries(prev).push(*cur.last()),
{
    assert forall|j: int| 0 <= j < cur.len() implies deref_entries(cur)[j] == deref_entries(
        prev,
    ).push(*cur.last())[j] by {
        if j < prev.len() {
            assert(cur[j] == prev[j]);
            assert(deref_entries(prev)[j] == *prev[j]);
        }
    }
    assert(deref_entries(cur) =~= deref_entries(prev).push(*cur.last()));
}

/// Pushing one borrow extends the dereferenced value row by its target.
proof fn lemma_deref_values_push<T>(prev: Seq<&Value<T>>, cur: Seq<&Value<T>>)
    requires
        cur.len() == prev.len() + 1,
        cur == prev.push(cur.last()),
    ensures
        deref_values(cur) == deref_values(prev).push(*cur.last()),
{
    assert forall|j: int| 0 <= j < cur.len() implies deref_values(cur)[j] == deref_values(
        prev,
    ).push(*cur.last())[j] by {
        if j < prev.len() {
            assert(cur[j] == prev[j]);
            assert(deref_values(prev)[j] == *prev[j]);
        }
    }
    assert(deref_values(cur) =~= deref_values(prev).push(*cur.last()));
}

/// Uniqueness law: when one insertion left its complete key present and a
/// later insertion was accepted because its key was absent, the two keys
/// differ; a repeated key is refused and leaves the store unchanged, as
/// `add` states.
pub proof fn lemma_add_uniqueness<T>(s: Seq<(Key, Value<T>)>, k1: Seq<u64>, k2: Seq<u64>)
    requires
        has_key(s, k1),
        !has_key(s, k2),
    ensures
        k1 != k2,
{
}

/// Round-trip law: in a well-formed store that holds an entry under the
/// complete key `k`, looking `k` up selects exactly that entry.
pub proof fn lemma_round_trip<T>(s: Seq<(Key, Value<T>)>, k: Seq<u64>, n: int, i: int)
    requires
        entries_ordered(s),
        entries_complete(s, n),
        k.len() == n,
        0 <= i < s.len(),
        s[i].0@ == k,
    ensures
        matching(s, k) == seq![s[i]],
{
    lemma_matching_one(s, k, n, i);
}

/// Partition conservation law: when a split preserves the combined
/// multiset and the source's keys are pairwise distinct, every source
/// entry lands in exactly one of the two sides.
pub proof fn lemma_partition_conservation<T>(
    left: Seq<(Key, Value<T>)>,
    right: Seq<(Key, Value<T>)>,
    orig: Seq<(Key, Value<T>)>,
    i: int,
)
    requires
        left.to_multiset().add(right.to_multiset()) == orig.to_multiset(),
        keys_distinct(orig),
        0 <= i < orig.len(),
    ensures
        left.contains(orig[i]) || right.contains(orig[i]),
        !(left.contains(orig[i]) && right.contains(orig[i])),
{
    broadcast use vstd::seq_lib::group_to_multiset_ensures;
    broadcast use vstd::multiset::group_multiset_axioms;

    let e = orig[i];
    crate::entries::lemma_count_in_distinct(orig, i);
    assert(left.to_multiset().count(e) + right.to_multiset().count(e) == 1);
    if left.to_multiset().count(e) > 0 {
        assert(left.contains(e));
        assert(right.to_multiset().count(e) == 0);
        assert(!right.contains(e));
    } else {
        assert(right.to_multiset().count(e) > 0);
        assert(right.contains(e));
        assert(!left.contains(e));
    }
}

impl<T, const N: usize> core::default::Default for Package<T, N> {
    /// An empty store, as `Package::new` builds it.
    fn default() -> (r: Self)
        ensures
            r@ =~= Seq::<(Key, Value<T>)>::empty(),
            r.wf(),
    {
        Self::new()
    }
}

impl<T, const N: usize> Package<T, N> {
    /// The store's ordering invariant: entries strictly sorted by key, all
    /// keys complete. Operations that rely on binary search require it.
    pub open spec fn wf(self) -> bool {
        entries_ordered(self@) && entries_complete(self@, N as int)
    }

    /// Constructs an empty store.
    pub fn new() -> (r: Self)
        ensures
            r@ =~= Seq::<(Key, Value<T>)>::empty(),
            r.wf(),
    {
        Self { data: Vec::new() }
    }

    /// The number of entries.
    pub fn len(&self) -> (r: usize)
        ensures
            r == self@.len(),
    {
        self.data.len()
    }

    /// Whether the store holds no entry.
    pub fn is_empty(&self) -> (r: bool)
        ensures
            r == (self@.len() == 0),
    {
        self.data.is_empty()
    }

    /// A read-only borrow of the underlying entry container.
    pub fn as_container(&self) -> (r: &Tree<T>)
        ensures
            r@ == self@,
    {
        &self.data
    }

    /// The sum of all entry sizes.
    pub fn size(&self) -> (r: usize)
        requires
            total_size(self@) <= usize::MAX,
        ensures
            r == total_size(self@),
    {
        let mut acc: usize = 0;
        let mut i: usize = 0;
        proof {
            assert(self@.take(0) =~= Seq::<(Key, Value<T>)>::empty());
        }
        while i < self.data.len()
            invariant
                i <= self@.len(),
                total_size(self@) <= usize::MAX,
                acc == total_size(self@.take(i as int)),
            decreases self@.len() - i,
        {
            proof {
                lemma_total_size_take_step(self@, i as int);
                lemma_total_size_prefix(self@, i as int + 1);
                lemma_total_size_nonneg(self@.take(i as int));
            }
            let sz = self.data[i].1.1;
            acc = acc + sz;
            i = i + 1;
        }
        proof {
            assert(self@.take(self@.len() as int) =~= self@);
        }
        acc
    }

    /// Binary search for a complete key. Returns the entry's index, or the
    /// index where an entry with that key would be inserted.
    fn locate(&self, key: &[u64]) -> (r: Result<usize, usize>)
        requires
            entries_ordered(self@),
        ensures
            match r {
                Ok(i) => 0 <= i < self@.len() && self@[i as int].0@ == key@,
                Err(i) => {
                    &&& 0 <= i <= self@.len()
                    &&& forall|j: int| 0 <= j < i ==> lex_lt(#[trigger] self@[j].0@, key@)
                    &&& forall|j: int|
                        i <= j < self@.len() ==> lex_lt(key@, #[trigger] self@[j].0@)
                },
            },
    {
        let mut lo: usize = 0;
        let mut hi: usize = self.data.len();
        while lo < hi
            invariant
                0 <= lo <= hi <= self@.len(),
                entries_ordered(self@),
                forall|j: int| 0 <= j < lo ==> lex_lt(#[trigger] self@[j].0@, key@),
                forall|j: int| hi <= j < self@.len() ==> lex_lt(key@, #[trigger] self@[j].0@),
            decreases hi - lo,
        {
            let mid = lo + (hi - lo) / 2;
            let e = &self.data[mid];
            if key_lt(e.0.as_slice(), key) {
                proof {
                    assert forall|j: int| 0 <= j < mid + 1 implies lex_lt(
                        #[trigger] self@[j].0@,
                        key@,
                    ) by {
                        if j < mid {
                            lemma_lex_trans(self@[j].0@, self@[mid as int].0@, key@);
                        }
                    }
                }
                lo = mid + 1;
            } else if key_eq(e.0.as_slice(), key) {
                return Ok(mid);
            } else {
                proof {
                    lemma_lex_trichotomy(self@[mid as int].0@, key@);
                    assert forall|j: int| mid <= j < self@.len() implies lex_lt(
                        key@,
                        #[trigger] self@[j].0@,
                    ) by {
                        if j > mid {
                            lemma_lex_trans(key@, self@[mid as int].0@, self@[j].0@);
                        }
                    }
                }
                hi = mid;
            }
        }
        Err(lo)
    }

    /// Entries of `self` without the complete key `key` carry other keys.
    proof fn lemma_absent(&self, key: Seq<u64>, i: int)
        requires
            0 <= i <= self@.len(),
            forall|j: int| 0 <= j < i ==> lex_lt(#[trigger] self@[j].0@, key),
            forall|j: int| i <= j < self@.len() ==> lex_lt(key, #[trigger] self@[j].0@),
        ensures
            !has_key(self@, key),
    {
        assert forall|j: int| 0 <= j < self@.len() implies self@[j].0@ != key by {
            lemma_lex_trichotomy(self@[j].0@, key);
        }
    }

    /// Looks up by key or key prefix. A prefix shorter than `N` selects every
    /// entry whose key starts with it, in store order; a complete prefix
    /// selects the single entry with that key; a longer prefix is refused.
    pub fn get(&self, category: &[u64]) -> (r: Result<Vec<&(Key, Value<T>)>, PackageError>)
        requires
            self.wf(),
        ensures
            match r {
                Ok(v) => {
                    &&& category@.len() <= N
                    &&& deref_entries(v@) == matching(self@, category@)
                    &&& (category@.len() == N ==> has_key(self@, category@))
                },
                Err(e) => {
                    ||| (e is CategoryTooBig && category@.len() > N)
                    ||| (e is NoFound && category@.len() == N && !has_key(self@, category@))
                },
            },
    {
        if category.len() > N {
            return Err(PackageError::CategoryTooBig);
        }
        if category.len() == N {
            match self.locate(category) {
                Ok(i) => {
                    proof {
                        lemma_matching_one(self@, category@, N as int, i as int);
                    }
                    let mut out: Vec<&(Key, Value<T>)> = Vec::new();
                    out.push(&self.data[i]);
                    proof {
                        assert(deref_entries(out@) =~= seq![self@[i as int]]);
                    }
                    Ok(out)
                },
                Err(i) => {
                    proof {
                        self.lemma_absent(category@, i as int);
                    }
                    Err(PackageError::NoFound)
                },
            }
        } else {
            let mut out: Vec<&(Key, Value<T>)> = Vec::new();
            let mut i: usize = 0;
            proof {
                reveal(Seq::filter);
                assert(self@.take(0) =~= Seq::<(Key, Value<T>)>::empty());
                assert(deref_entries(out@) =~= matching(self@.take(0), category@));
            }
            while i < self.data.len()
                invariant
                    i <= self@.len(),
                    deref_entries(out@) == matching(self@.take(i as int), category@),
                decreases self@.len() - i,
            {
                let e = &self.data[i];
                if key_starts_with(e.0.as_slice(), category) {
                    out.push(e);
                }
                proof {
                    lemma_matching_take_step(self@, category@, i as int);
                    assert(deref_entries(out@) =~= matching(self@.take(i as int + 1), category@));
                }
                i = i + 1;
            }
            proof {
                assert(self@.take(self@.len() as int) =~= self@);
            }
            Ok(out)
        }
    }

    /// Like `get`, projected onto the `(payload, size)` component.
    pub fn get_values(&self, category: &[u64]) -> (r: Result<Vec<&Value<T>>, PackageError>)
        requires
            self.wf(),
        ensures
            match r {
                Ok(v) => {
                    &&& category@.len() <= N
                    &&& deref_values(v@) == values_of(matching(self@, category@))
                    &&& (category@.len() == N ==> has_key(self@, category@))
                },
                Err(e) => {
                    ||| (e is CategoryTooBig && category@.len() > N)
                    ||| (e is NoFound && category@.len() == N && !has_key(self@, category@))
                },
            },
    {
        if category.len() > N {
            return Err(PackageError::CategoryTooBig);
        }
        if category.len() == N {
            match self.locate(category) {
                Ok(i) => {
                    proof {
                        lemma_matching_one(self@, category@, N as int, i as int);
                    }
                    let mut out: Vec<&Value<T>> = Vec::new();
                    out.push(&self.data[i].1);
                    proof {
                        assert(deref_values(out@) =~= values_of(seq![self@[i as int]]));
                    }
                    Ok(out)
                },
                Err(i) => {
                    proof {
                        self.lemma_absent(category@, i as int);
                    }
                    Err(PackageError::NoFound)
                },
            }
        } else {
            let mut out: Vec<&Value<T>> = Vec::new();
            let mut i: usize = 0;
            proof {
                reveal(Seq::filter);
                assert(self@.take(0) =~= Seq::<(Key, Value<T>)>::empty());
                assert(deref_values(out@) =~= values_of(matching(self@.take(0), category@)));
            }
            while i < self.data.len()
                invariant
                    i <= self@.len(),
                    deref_values(out@) == values_of(matching(self@.take(i as int), category@)),
                decreases self@.len() - i,
            {
                let ghost prev = out@;
                let e = &self.data[i];
                if key_starts_with(e.0.as_slice(), category) {
                    out.push(&e.1);
                }
                proof {
                    lemma_matching_take_step(self@, category@, i as int);
                    if matches_prefix(self@[i as int].0@, category@) {
                        lemma_deref_values_push(prev, out@);
                        assert(*out@.last() == self@[i as int].1);
                    }
                    assert(deref_values(out@) =~= values_of(
                        matching(self@.take(i as int + 1), category@),
                    ));
                }
                i = i + 1;
            }
            proof {
                assert(self@.take(self@.len() as int) =~= self@);
            }
            Ok(out)
        }
    }

    /// The number of entries `get` would select, without materializing them.
    pub fn count(&self, category: &[u64]) -> (r: Result<usize, PackageError>)
        requires
            self.wf(),
        ensures
            match r {
                Ok(c) => category@.len() <= N && c == matching(self@, category@).len(),
                Err(e) => e is CategoryTooBig && category@.len() > N,
            },
    {
        if category.len() > N {
            return Err(PackageError::CategoryTooBig);
        }
        if category.len() == N {
            match self.locate(category) {
                Ok(i) => {
                    proof {
                        lemma_matching_one(self@, category@, N as int, i as int);
                    }
                    Ok(1)
                },
                Err(i) => {
                    proof {
                        self.lemma_absent(category@, i as int);
                        lemma_matching_none(self@, category@, N as int);
                    }
                    Ok(0)
                },
            }
        } else {
            let mut c: usize = 0;
            let mut i: usize = 0;
            proof {
                reveal(Seq::filter);
                assert(self@.take(0) =~= Seq::<(Key, Value<T>)>::empty());
            }
            while i < self.data.len()
                invariant
                    i <= self@.len(),
                    c <= i,
                    c == matching(self@.take(i as int), category@).len(),
                decreases self@.len() - i,
            {
                let e = &self.data[i];
                proof {
                    lemma_matching_take_step(self@, category@, i as int);
                }
                if key_starts_with(e.0.as_slice(), category) {
                    c = c + 1;
                }
                i = i + 1;
            }
            proof {
                assert(self@.take(self@.len() as int) =~= self@);
            }
            Ok(c)
        }
    }

    /// Removes by key or key prefix: a short prefix removes every matching
    /// entry and returns their values in store order, a complete prefix
    /// removes the single entry with that key, a longer prefix is refused.
    pub fn remove(&mut self, category: &[u64]) -> (r: Result<Vec<Value<T>>, PackageError>)
        requires
            old(self).wf(),
        ensures
            final(self).wf(),
            match r {
                Ok(vals) => {
                    &&& category@.len() <= N
                    &&& (category@.len() == N ==> has_key(old(self)@, category@))
                    &&& final(self)@ == remaining(old(self)@, category@)
                    &&& vals@ == values_of(matching(old(self)@, category@))
                    &&& total_size(old(self)@) == total_size(final(self)@) + total_size(
                        matching(old(self)@, category@),
                    )
                },
                Err(e) => {
                    &&& final(self)@ == old(self)@
                    &&& {
                        ||| (e is CategoryTooBig && category@.len() > N)
                        ||| (e is NoFound && category@.len() == N && !has_key(
                            old(self)@,
                            category@,
                        ))
                    }
                },
            },
    {
        let ghost orig = self@;
        if category.len() > N {
            return Err(PackageError::CategoryTooBig);
        }
        if category.len() == N {
            match self.locate(category) {
                Ok(i) => {
                    proof {
                        lemma_matching_one(orig, category@, N as int, i as int);
                        lemma_total_size_partition(orig, category@);
                    }
                    let e = self.data.remove(i);
                    let mut vals: Vec<Value<T>> = Vec::new();
                    vals.push(e.1);
                    proof {
                        assert(vals@ =~= values_of(matching(orig, category@)));
                        assert(entries_ordered(self@)) by {
                            lemma_filter_ordered(orig, unmatch_pred(category@));
                        }
                        assert(entries_complete(self@, N as int)) by {
                            lemma_filter_complete(orig, unmatch_pred(category@), N as int);
                        }
                    }
                    Ok(vals)
                },
                Err(i) => {
                    proof {
                        self.lemma_absent(category@, i as int);
                    }
                    Err(PackageError::NoFound)
                },
            }
        } else {
            let mut vals: Vec<Value<T>> = Vec::new();
            let mut i: usize = 0;
            proof {
                reveal(Seq::filter);
                assert(orig.take(0) =~= Seq::<(Key, Value<T>)>::empty());
                assert(self@ =~= remaining(orig.take(0), category@) + orig.skip(0));
                assert(vals@ =~= values_of(matching(orig.take(0), category@)));
            }
            while i < self.data.len()
                invariant
                    i + vals@.len() <= orig.len(),
                    self@ == remaining(
                        orig.take(i + vals@.len()),
                        category@,
                    ) + orig.skip(i + vals@.len()),
                    i == remaining(orig.take(i + vals@.len()), category@).len(),
                    vals@ == values_of(matching(orig.take(i + vals@.len()), category@)),
                decreases self@.len() - i,
            {
                let ghost p = i + vals@.len();
                proof {
                    lemma_matching_take_step(orig, category@, p as int);
                    assert(self@[i as int] == orig.skip(p as int)[0]);
                    assert(self@[i as int] == orig[p as int]);
                }
                let matched = key_starts_with(self.data[i].0.as_slice(), category);
                if matched {
                    let ghost prev = vals@;
                    let e = self.data.remove(i);
                    vals.push(e.1);
                    proof {
                        assert(self@ =~= remaining(orig.take(p as int), category@) + orig.skip(
                            p as int + 1,
                        ));
                        assert(orig.take(p as int + 1) =~= orig.take(p as int).push(
                            orig[p as int],
                        ));
                        assert(vals@ =~= values_of(matching(orig.take(p as int + 1), category@)));
                    }
                } else {
                    i = i + 1;
                    proof {
                        assert(orig.skip(p as int)[0] == orig[p as int]);
                        assert(self@ =~= (remaining(orig.take(p as int), category@).push(
                            orig[p as int],
                        )) + orig.skip(p as int + 1));
                    }
                }
            }
            proof {
                let p = i + vals@.len();
                assert(orig.skip(p as int).len() == 0);
                assert(p == orig.len());
                assert(orig.take(p as int) =~= orig);
                lemma_total_size_partition(orig, category@);
                assert(entries_ordered(self@)) by {
                    lemma_filter_ordered(orig, unmatch_pred(category@));
                }
                assert(entries_complete(self@, N as int)) by {
                    lemma_filter_complete(orig, unmatch_pred(category@), N as int);
                }
            }
            Ok(vals)
        }
    }

    /// Inserts an entry under a complete key at its sorted position. A key
    /// longer than `N` is refused; a shorter key is accepted without storing
    /// anything; a key already present is refused.
    pub fn add(&mut self, category: &[u64], data: Rc<T>, size: usize) -> (r: Result<
        (),
        PackageError,
    >)
        requires
            old(self).wf(),
        ensures
            final(self).wf(),
            match r {
                Ok(_) => {
                    &&& category@.len() <= N
                    &&& (category@.len() < N ==> final(self)@ == old(self)@)
                    &&& (category@.len() == N ==> {
                        &&& !has_key(old(self)@, category@)
                        &&& final(self)@.len() == old(self)@.len() + 1
                        &&& total_size(final(self)@) == total_size(old(self)@) + size
                        &&& exists|i: int|
                            {
                                &&& 0 <= i < final(self)@.len()
                                &&& (#[trigger] final(self)@[i]).0@ == category@
                                &&& final(self)@[i].1.0 == data
                                &&& final(self)@[i].1.1 == size
                                &&& final(self)@.remove(i) == old(self)@
                            }
                    })
                },
                Err(e) => {
                    &&& final(self)@ == old(self)@
                    &&& {
                        ||| (e is CategoryTooBig && category@.len() > N)
                        ||| (e is AllReadyExist && category@.len() == N && has_key(
                            old(self)@,
                            category@,
                        ))
                    }
                },
            },
    {
        if category.len() > N {
            return Err(PackageError::CategoryTooBig);
        }
        if category.len() < N {
            return Ok(());
        }
        match self.locate(category) {
            Ok(i) => {
                proof {
                    assert(has_key(self@, category@)) by {
                        assert(self@[i as int].0@ == category@);
                    }
                }
                Err(PackageError::AllReadyExist)
            },
            Err(i) => {
                proof {
                    self.lemma_absent(category@, i as int);
                }
                let key: Key = vstd::slice::slice_to_vec(category);
                self.data.insert(i, (key, (data, size)));
                proof {
                    let s0 = old(self)@;
                    let e = self@[i as int];
                    assert(self@ == s0.insert(i as int, e));
                    lemma_total_size_insert(s0, i as int, e);
                    assert forall|a: int, b: int| 0 <= a < b < self@.len() implies lex_lt(
                        #[trigger] self@[a].0@,
                        #[trigger] self@[b].0@,
                    ) by {
                        if a < i && b < i {
                            assert(self@[a] == s0[a] && self@[b] == s0[b]);
                        } else if a < i && b == i {
                            assert(self@[a] == s0[a]);
                        } else if a < i && b > i {
                            assert(self@[a] == s0[a] && self@[b] == s0[b - 1]);
                        } else if a == i {
                            assert(self@[b] == s0[b - 1]);
                        } else {
                            assert(self@[a] == s0[a - 1] && self@[b] == s0[b - 1]);
                        }
                    }
                    assert(entries_complete(self@, N as int)) by {
                        assert forall|j: int| 0 <= j < self@.len() implies (#[trigger] self@[j].0@).len()
                            == N as int by {
                            if j < i {
                                assert(self@[j] == s0[j]);
                            } else if j > i {
                                assert(self@[j] == s0[j - 1]);
                            }
                        }
                    }
                    assert(self@.remove(i as int) =~= s0);
                }
                Ok(())
            },
        }
    }

    /// The smaller of `count` and the number of entries: how many entries a
    /// tail extraction takes.
    pub open spec fn take_count(s: Seq<(Key, Value<T>)>, count: usize) -> int {
        if count <= s.len() {
            count as int
        } else {
            s.len() as int
        }
    }

    /// Pops up to `count` entries off the tail, returning them in pop order
    /// (the reverse of store order).
    fn pop_tail(&mut self, count: usize) -> (r: Tree<T>)
        ensures
            final(self)@ == old(self)@.take(
                old(self)@.len() - Self::take_count(old(self)@, count),
            ),
            r@ == old(self)@.skip(
                old(self)@.len() - Self::take_count(old(self)@, count),
            ).reverse(),
            r@.len() == Self::take_count(old(self)@, count),
    {
        let ghost orig = self@;
        let mut res: Tree<T> = Vec::new();
        proof {
            assert(orig.take(orig.len() as int) =~= orig);
            assert(res@ =~= orig.skip(orig.len() as int).reverse());
        }
        while res.len() < count && self.data.len() > 0
            invariant
                res@.len() <= count,
                res@.len() <= orig.len(),
                self@ == orig.take(orig.len() - res@.len()),
                res@ == orig.skip(orig.len() - res@.len()).reverse(),
            decreases self@.len(),
        {
            let ghost c0 = res@.len() as int;
            let e = self.data.pop().unwrap();
            res.push(e);
            proof {
                let l = orig.len() as int;
                assert(orig.take(l - c0).drop_last() =~= orig.take(l - c0 - 1));
                assert(self@ =~= orig.take(l - c0 - 1));
                assert(orig.take(l - c0).last() == orig[l - c0 - 1]);
                assert(res@ =~= orig.skip(l - c0 - 1).reverse()) by {
                    let tail = orig.skip(l - c0 - 1);
                    assert(tail.reverse().len() == c0 + 1);
                    assert forall|j: int| 0 <= j < c0 + 1 implies res@[j] == tail.reverse()[j] by {
                        assert(tail.reverse()[j] == tail[tail.len() - 1 - j]);
                        assert(tail[tail.len() - 1 - j] == orig[l - 1 - j]);
                        if j < c0 {
                            assert(res@[j] == orig.skip(l - c0).reverse()[j]);
                            assert(orig.skip(l - c0).reverse()[j] == orig.skip(l - c0)[c0 - 1
                                - j]);
                            assert(orig.skip(l - c0)[c0 - 1 - j] == orig[l - 1 - j]);
                        } else {
                            assert(res@[j] == orig[l - c0 - 1]);
                        }
                    }
                }
            }
        }
        proof {
            if res@.len() < count {
                assert(self@.len() == 0);
                assert(res@.len() == orig.len());
            }
        }
        res
    }

    /// Takes up to `count` entries off the tail (the highest keys) and hands
    /// them back as a new store, in pop order: the extracted store needs
    /// `fix` before operations that rely on sort order. Yields nothing when
    /// no entry was taken.
    pub fn seperete_by_count(&mut self, count: usize) -> (r: Option<Self>)
        ensures
            ({
                let k = Self::take_count(old(self)@, count);
                match r {
                    None => k == 0 && final(self)@ == old(self)@,
                    Some(p) => {
                        &&& k > 0
                        &&& final(self)@ == old(self)@.take(old(self)@.len() - k)
                        &&& p@ == old(self)@.skip(old(self)@.len() - k).reverse()
                        &&& (old(self).wf() ==> final(self).wf())
                        &&& (entries_complete(old(self)@, N as int) ==> entries_complete(
                            p@,
                            N as int,
                        ))
                        &&& (keys_distinct(old(self)@) ==> keys_distinct(p@))
                        &&& total_size(old(self)@) == total_size(final(self)@) + total_size(p@)
                    },
                }
            }),
    {
        let ghost orig = self@;
        let res = self.pop_tail(count);
        if res.is_empty() {
            proof {
                assert(orig.take(orig.len() as int) =~= orig);
            }
            return None;
        }
        proof {
            let k = Self::take_count(orig, count);
            let head = orig.take(orig.len() - k);
            let tail = orig.skip(orig.len() - k);
            Self::lemma_split_tail_props(orig, k);
        }
        Some(Self { data: res })
    }

    /// Like `seperete_by_count` with the roles swapped: `self` becomes the
    /// extracted tail (in pop order, so `fix` applies) and the remainder is
    /// handed back as a new store. Yields nothing when no entry remains.
    pub fn seperete_to_count(&mut self, count: usize) -> (r: Option<Self>)
        ensures
            ({
                let k = Self::take_count(old(self)@, count);
                match r {
                    None => {
                        &&& old(self)@.len() == k
                        &&& final(self)@ == old(self)@.reverse()
                    },
                    Some(p) => {
                        &&& old(self)@.len() > k
                        &&& final(self)@ == old(self)@.skip(old(self)@.len() - k).reverse()
                        &&& p@ == old(self)@.take(old(self)@.len() - k)
                        &&& (old(self).wf() ==> p.wf())
                        &&& (entries_complete(old(self)@, N as int) ==> entries_complete(
                            final(self)@,
                            N as int,
                        ))
                        &&& (keys_distinct(old(self)@) ==> keys_distinct(final(self)@))
                        &&& total_size(old(self)@) == total_size(final(self)@) + total_size(p@)
                    },
                }
            }),
    {
        let ghost orig = self@;
        let mut res = self.pop_tail(count);
        core::mem::swap(&mut self.data, &mut res);
        proof {
            let k = Self::take_count(orig, count);
            Self::lemma_split_tail_props(orig, k);
        }
        if res.is_empty() {
            proof {
                let k = Self::take_count(orig, count);
                assert(orig.len() == k);
                assert(orig.skip(0) =~= orig);
            }
            return None;
        }
        Some(Self { data: res })
    }

    /// What splitting off a tail of `k` entries preserves: order and key
    /// facts on both sides, and the size sum.
    proof fn lemma_split_tail_props(orig: Seq<(Key, Value<T>)>, k: int)
        requires
            0 <= k <= orig.len(),
        ensures
            entries_ordered(orig) ==> entries_ordered(orig.take(orig.len() - k)),
            entries_complete(orig, N as int) ==> entries_complete(
                orig.take(orig.len() - k),
                N as int,
            ) && entries_complete(orig.skip(orig.len() - k).reverse(), N as int),
            keys_distinct(orig) ==> keys_distinct(orig.skip(orig.len() - k).reverse()),
            total_size(orig) == total_size(orig.take(orig.len() - k)) + total_size(
                orig.skip(orig.len() - k).reverse(),
            ),
    {
        let head = orig.take(orig.len() - k);
        let tail = orig.skip(orig.len() - k);
        assert(orig =~= head + tail);
        lemma_total_size_concat(head, tail);
        lemma_total_size_reverse(tail);
        if entries_complete(orig, N as int) {
            assert forall|i: int| 0 <= i < tail.reverse().len() implies (
            #[trigger] tail.reverse()[i].0@).len() == N as int by {
                assert(tail.reverse()[i] == orig[orig.len() - 1 - i]);
            }
        }
        if keys_distinct(orig) {
            assert forall|i: int, j: int| 0 <= i < j < tail.reverse().len() implies (
            #[trigger] tail.reverse()[i].0@) != (#[trigger] tail.reverse()[j].0@) by {
                assert(tail.reverse()[i] == orig[orig.len() - 1 - i]);
                assert(tail.reverse()[j] == orig[orig.len() - 1 - j]);
            }
        }
    }

    /// Scans for the first entry whose size fits within `budget`; a zero
    /// budget fits nothing.
    fn find_fit(&self, budget: usize) -> (r: Option<usize>)
        ensures
            match r {
                Some(i) => budget > 0 && 0 <= i < self@.len() && self@[i as int].1.1 <= budget
                    && i as int == first_fit_idx(self@, budget as int),
                None => budget == 0 || first_fit_idx(self@, budget as int) == -1,
            },
    {
        if budget == 0 {
            return None;
        }
        let mut i: usize = 0;
        while i < self.data.len()
            invariant
                budget > 0,
                i <= self@.len(),
                forall|j: int| 0 <= j < i ==> (#[trigger] self@[j]).1.1 > budget,
            decreases self@.len() - i,
        {
            let sz = self.data[i].1.1;
            if sz <= budget {
                proof {
                    assert(sz == self@[i as int].1.1);
                    lemma_first_fit_idx(self@, budget as int);
                    let f = first_fit_idx(self@, budget as int);
                    if f != i as int {
                        if f == -1 {
                            assert(self@[i as int].1.1 > budget);
                        } else if f < i {
                            assert(self@[f].1.1 <= budget);
                            assert((#[trigger] self@[f]).1.1 > budget);
                        } else {
                            assert(0 <= i < f);
                            assert((#[trigger] self@[i as int]).1.1 > budget);
                        }
                    }
                    assert(f == i as int);
                }
                return Some(i);
            }
            i = i + 1;
        }
        proof {
            lemma_first_fit_idx(self@, budget as int);
            let f = first_fit_idx(self@, budget as int);
            if f != -1 {
                assert(self@[f].1.1 > budget);
            }
        }
        None
    }

    /// Repeatedly removes the first entry that fits in the remaining budget,
    /// in extraction order.
    fn extract_fit(&mut self, size: usize) -> (r: Tree<T>)
        ensures
            r@ == first_fit_split(old(self)@, size as int).0,
            final(self)@ == first_fit_split(old(self)@, size as int).1,
    {
        let ghost orig = self@;
        let mut res: Tree<T> = Vec::new();
        let mut budget: usize = size;
        proof {
            assert(res@ + first_fit_split(self@, budget as int).0 =~= first_fit_split(
                orig,
                size as int,
            ).0);
        }
        loop
            invariant
                budget <= size,
                res@ + first_fit_split(self@, budget as int).0 == first_fit_split(
                    orig,
                    size as int,
                ).0,
                first_fit_split(self@, budget as int).1 == first_fit_split(orig, size as int).1,
            ensures
                res@ == first_fit_split(orig, size as int).0,
                self@ == first_fit_split(orig, size as int).1,
            decreases self@.len(),
        {
            match self.find_fit(budget) {
                None => {
                    proof {
                        assert(first_fit_split(self@, budget as int).0 =~= Seq::<(
                            Key,
                            Value<T>,
                        )>::empty());
                        assert(res@ + first_fit_split(self@, budget as int).0 =~= res@);
                        assert(first_fit_split(self@, budget as int).1 == self@);
                    }
                    break;
                },
                Some(i) => {
                    let ghost prev = self@;
                    let ghost prev_res = res@;
                    let sz = self.data[i].1.1;
                    let e = self.data.remove(i);
                    budget = budget - sz;
                    res.push(e);
                    proof {
                        lemma_first_fit_idx(prev, sz + budget);
                        assert(first_fit_split(prev, sz + budget as int).0 == seq![e]
                            + first_fit_split(self@, budget as int).0);
                        assert(first_fit_split(prev, sz + budget as int).1 == first_fit_split(
                            self@,
                            budget as int,
                        ).1);
                        assert(res@ + first_fit_split(self@, budget as int).0 =~= prev_res + (
                        seq![e] + first_fit_split(self@, budget as int).0));
                    }
                },
            }
        }
        res
    }

    /// Splits off every entry the predicate selects. Both sides keep their
    /// relative order, so both come out sorted. Yields nothing when the
    /// predicate selects no entry.
    pub fn seperate_by<F: Fn(&(Key, Value<T>)) -> bool>(&mut self, f: F) -> (r: Option<Self>)
        requires
            old(self).wf(),
            forall|e: &(Key, Value<T>)| #[trigger] call_requires(f, (e,)),
        ensures
            final(self).wf(),
            match r {
                None => {
                    &&& final(self)@ == old(self)@
                    &&& forall|j: int|
                        0 <= j < old(self)@.len() ==> call_ensures(
                            f,
                            (&old(self)@[j],),
                            false,
                        )
                },
                Some(p) => {
                    &&& p@.len() > 0
                    &&& entries_ordered(p@)
                    &&& entries_complete(p@, N as int)
                    &&& final(self)@.to_multiset().add(p@.to_multiset()) == old(
                        self,
                    )@.to_multiset()
                    &&& total_size(final(self)@) + total_size(p@) == total_size(old(self)@)
                    &&& forall|j: int| 0 <= j < p@.len() ==> call_ensures(f, (&p@[j],), true)
                    &&& forall|j: int|
                        0 <= j < final(self)@.len() ==> call_ensures(
                            f,
                            (&final(self)@[j],),
                            false,
                        )
                },
            },
    {
        let ghost orig = self@;
        let mut res: Tree<T> = Vec::new();
        let mut i: usize = 0;
        proof {
            broadcast use vstd::seq_lib::group_to_multiset_ensures;

            assert(self@.skip(0) =~= orig.skip(0));
            assert(res@.to_multiset() =~= Multiset::<(Key, Value<T>)>::empty());
            assert(self@.to_multiset().add(res@.to_multiset()) =~= orig.to_multiset());
        }
        while i < self.data.len()
            invariant
                forall|e: &(Key, Value<T>)| #[trigger] call_requires(f, (e,)),
                i <= self@.len(),
                i + res@.len() <= orig.len(),
                self@.len() + res@.len() == orig.len(),
                self@.skip(i as int) == orig.skip(i + res@.len()),
                entries_ordered(self@),
                entries_complete(orig, N as int) ==> entries_complete(self@, N as int)
                    && entries_complete(res@, N as int),
                entries_ordered(res@),
                self@.to_multiset().add(res@.to_multiset()) == orig.to_multiset(),
                total_size(self@) + total_size(res@) == total_size(orig),
                forall|j: int| 0 <= j < i ==> call_ensures(f, (&self@[j],), false),
                forall|j: int| 0 <= j < res@.len() ==> call_ensures(f, (&res@[j],), true),
                forall|a: int, j: int|
                    0 <= a < res@.len() && i <= j < self@.len() ==> lex_lt(
                        #[trigger] res@[a].0@,
                        #[trigger] self@[j].0@,
                    ),
                res@.len() == 0 ==> self@ == orig,
            decreases self@.len() - i,
        {
            let matched = f(&self.data[i]);
            if matched {
                let ghost prev = self@;
                let ghost prev_res = res@;
                let e = self.data.remove(i);
                res.push(e);
                proof {
                    broadcast use vstd::seq_lib::group_to_multiset_ensures;

                    assert(prev.contains(prev[i as int]));
                    assert(prev.to_multiset().count(prev[i as int]) > 0);
                    lemma_multiset_transfer(
                        prev.to_multiset(),
                        prev_res.to_multiset(),
                        prev[i as int],
                    );
                    crate::entries::lemma_total_size_remove(prev, i as int);
                    crate::entries::lemma_total_size_push(prev_res, prev[i as int]);
                    lemma_remove_ordered(prev, i as int);
                    if entries_complete(orig, N as int) {
                        crate::entries::lemma_remove_complete(prev, i as int, N as int);
                    }
                    assert(self@.skip(i as int) =~= prev.skip(i as int + 1));
                    assert(prev.skip(i as int).drop_first() =~= prev.skip(i as int + 1));
                    assert(orig.skip(i + prev_res.len()).drop_first() =~= orig.skip(
                        i + prev_res.len() + 1,
                    ));
                    assert forall|a: int, j: int|
                        0 <= a < res@.len() && i <= j < self@.len() implies lex_lt(
                        #[trigger] res@[a].0@,
                        #[trigger] self@[j].0@,
                    ) by {
                        assert(self@[j] == prev[j + 1]);
                        if a < prev_res.len() {
                            assert(res@[a] == prev_res[a]);
                        } else {
                            assert(res@[a] == prev[i as int]);
                            assert(lex_lt(prev[i as int].0@, prev[j + 1].0@));
                        }
                    }
                    assert(entries_ordered(res@)) by {
                        assert forall|a: int, b: int| 0 <= a < b < res@.len() implies lex_lt(
                            #[trigger] res@[a].0@,
                            #[trigger] res@[b].0@,
                        ) by {
                            if b < prev_res.len() {
                                assert(res@[a] == prev_res[a] && res@[b] == prev_res[b]);
                            } else {
                                assert(res@[b] == prev[i as int]);
                                if a < prev_res.len() {
                                    assert(res@[a] == prev_res[a]);
                                    assert(lex_lt(prev_res[a].0@, prev[i as int].0@));
                                }
                            }
                        }
                    }
                    if entries_complete(orig, N as int) {
                        assert(entries_complete(res@, N as int)) by {
                            assert forall|j: int| 0 <= j < res@.len() implies (
                            #[trigger] res@[j].0@).len() == N as int by {
                                if j < prev_res.len() {
                                    assert(res@[j] == prev_res[j]);
                                } else {
                                    assert(res@[j] == prev[i as int]);
                                }
                            }
                        }
                    }
                    assert forall|j: int| 0 <= j < i implies call_ensures(
                        f,
                        (&self@[j],),
                        false,
                    ) by {
                        assert(self@[j] == prev[j]);
                    }
                    assert forall|j: int| 0 <= j < res@.len() implies call_ensures(
                        f,
                        (&res@[j],),
                        true,
                    ) by {
                        if j < prev_res.len() {
                            assert(res@[j] == prev_res[j]);
                        } else {
                            assert(res@[j] == prev[i as int]);
                        }
                    }
                }
            } else {
                i = i + 1;
                proof {
                    assert(self@.skip(i as int) =~= self@.skip(i - 1).drop_first());
                    assert(orig.skip(i - 1 + res@.len()).drop_first() =~= orig.skip(
                        i + res@.len(),
                    ));
                    assert forall|j: int| 0 <= j < i implies call_ensures(
                        f,
                        (&self@[j],),
                        false,
                    ) by {
                        if j == i - 1 {
                            assert(self@[j] == self@.skip(i - 1).first());
                        }
                    }
                }
            }
        }
        proof {
            assert(self@.skip(i as int).len() == 0);
            assert(orig.skip(i + res@.len()).len() == 0);
            assert(i + res@.len() == orig.len());
        }
        if res.is_empty() {
            return None;
        }
        Some(Self { data: res })
    }

    /// Greedily extracts, first-fit in store order, entries whose sizes sum
    /// to at most `size`, handing them back as a new store in extraction
    /// order. Yields nothing when no entry fits or the budget is zero.
    pub fn seperete_by_size(&mut self, size: usize) -> (r: Option<Self>)
        ensures
            ({
                let split = first_fit_split(old(self)@, size as int);
                match r {
                    None => split.0.len() == 0 && final(self)@ == old(self)@,
                    Some(p) => {
                        &&& split.0.len() > 0
                        &&& p@ == split.0
                        &&& final(self)@ == split.1
                        &&& total_size(p@) <= size
                        &&& total_size(old(self)@) == total_size(final(self)@) + total_size(p@)
                        &&& (old(self).wf() ==> final(self).wf())
                        &&& (entries_complete(old(self)@, N as int) ==> entries_complete(
                            p@,
                            N as int,
                        ))
                    },
                }
            }),
    {
        let ghost orig = self@;
        let res = self.extract_fit(size);
        if res.is_empty() {
            proof {
                lemma_first_fit_split_empty(orig, size as int);
            }
            return None;
        }
        proof {
            lemma_first_fit_split_props(orig, size as int, N as int);
        }
        Some(Self { data: res })
    }

    /// Like `seperete_by_size` with the roles swapped: `self` keeps the
    /// extracted entries and the remainder is handed back as a new store.
    /// Yields nothing when no entry remains.
    pub fn seperete_to_size(&mut self, size: usize) -> (r: Option<Self>)
        ensures
            ({
                let split = first_fit_split(old(self)@, size as int);
                match r {
                    None => split.1.len() == 0 && final(self)@ == split.0,
                    Some(p) => {
                        &&& split.1.len() > 0
                        &&& final(self)@ == split.0
                        &&& p@ == split.1
                        &&& total_size(final(self)@) <= size
                        &&& total_size(old(self)@) == total_size(final(self)@) + total_size(p@)
                        &&& (old(self).wf() ==> p.wf())
                        &&& (entries_complete(old(self)@, N as int) ==> entries_complete(
                            final(self)@,
                            N as int,
                        ))
                    },
                }
            }),
    {
        let ghost orig = self@;
        let mut res = self.extract_fit(size);
        core::mem::swap(&mut self.data, &mut res);
        proof {
            lemma_first_fit_split_props(orig, size as int, N as int);
        }
        if res.is_empty() {
            return None;
        }
        Some(Self { data: res })
    }

    /// Empties the store.
    pub fn clear(&mut self)
        ensures
            final(self)@ =~= Seq::<(Key, Value<T>)>::empty(),
            final(self).wf(),
    {
        self.data.clear()
    }

    /// Restores the ordering invariant by sorting the entries by key. The
    /// result is a permutation of the entries, sorted; when the keys were
    /// pairwise distinct and complete, the store is well-formed again.
    pub fn fix(&mut self)
        ensures
            final(self)@.to_multiset() == old(self)@.to_multiset(),
            final(self)@.len() == old(self)@.len(),
            entries_sorted(final(self)@),
            entries_complete(old(self)@, N as int) ==> entries_complete(final(self)@, N as int),
            keys_distinct(old(self)@) ==> keys_distinct(final(self)@),
            keys_distinct(old(self)@) && entries_complete(old(self)@, N as int)
                ==> final(self).wf(),
    {
        let ghost orig = self@;
        if self.data.len() > 1 {
            let mut i: usize = 1;
            while i < self.data.len()
                invariant
                    1 <= i <= self@.len(),
                    self@.len() == orig.len(),
                    self@.to_multiset() == orig.to_multiset(),
                    forall|a: int, b: int|
                        0 <= a < b < i ==> lex_le(#[trigger] self@[a].0@, #[trigger] self@[b].0@),
                decreases self@.len() - i,
            {
                let mut p: usize = i;
                while p > 0 && key_lt(
                    self.data[i].0.as_slice(),
                    self.data[p - 1].0.as_slice(),
                )
                    invariant
                        0 <= p <= i < self@.len(),
                        forall|j: int|
                            p <= j < i ==> lex_lt(self@[i as int].0@, #[trigger] self@[j].0@),
                    decreases p,
                {
                    p = p - 1;
                }
                proof {
                    if p > 0 {
                        lemma_lex_trichotomy(self@[i as int].0@, self@[p - 1].0@);
                    }
                }
                if p < i {
                    let ghost prev = self@;
                    let e = self.data.remove(i);
                    let ghost mid = self@;
                    self.data.insert(p, e);
                    proof {
                        broadcast use vstd::seq_lib::group_to_multiset_ensures;

                        lemma_insert_multiset(mid, p as int, e);
                        assert(self@.to_multiset() =~= prev.to_multiset());
                        assert forall|a: int, b: int| 0 <= a < b < i + 1 implies lex_le(
                            #[trigger] self@[a].0@,
                            #[trigger] self@[b].0@,
                        ) by {
                            assert(forall|j: int|
                                0 <= j < p ==> #[trigger] self@[j] == prev[j]);
                            assert(self@[p as int] == prev[i as int]);
                            assert(forall|j: int|
                                p < j <= i ==> #[trigger] self@[j] == prev[j - 1]);
                            if b < p {
                                assert(lex_le(self@[a].0@, self@[b].0@));
                            } else if b == p {
                                if p > 0 {
                                    if a < p - 1 {
                                        lemma_lex_le_trans(
                                            self@[a].0@,
                                            prev[p - 1].0@,
                                            self@[b].0@,
                                        );
                                    }
                                }
                            } else if a < p {
                                if b <= i {
                                    assert(lex_le(self@[a].0@, prev[b - 1].0@));
                                }
                            } else if a == p {
                                assert(lex_lt(prev[i as int].0@, prev[b - 1].0@));
                            } else {
                                assert(lex_le(prev[a - 1].0@, prev[b - 1].0@));
                            }
                        }
                    }
                } else {
                    proof {
                        assert forall|a: int, b: int| 0 <= a < b < i + 1 implies lex_le(
                            #[trigger] self@[a].0@,
                            #[trigger] self@[b].0@,
                        ) by {
                            if b == i && a < i - 1 {
                                lemma_lex_le_trans(self@[a].0@, self@[i - 1].0@, self@[b].0@);
                            }
                        }
                    }
                }
                i = i + 1;
            }
        }
        proof {
            if keys_distinct(orig) {
                lemma_multiset_distinct(orig, self@);
                if entries_complete(orig, N as int) {
                    lemma_multiset_complete(orig, self@, N as int);
                    lemma_sorted_distinct_ordered(self@);
                }
            }
            if entries_complete(orig, N as int) {
                lemma_multiset_complete(orig, self@, N as int);
            }
        }
    }

    /// The entries in store order, as a freshly collected row of borrows.
    pub fn iter(&self) -> (r: Vec<&(Key, Value<T>)>)
        ensures
            deref_entries(r@) == self@,
    {
        let mut out: Vec<&(Key, Value<T>)> = Vec::new();
        let mut i: usize = 0;
        proof {
            assert(deref_entries(out@) =~= self@.take(0));
        }
        while i < self.data.len()
            invariant
                i <= self@.len(),
                deref_entries(out@) == self@.take(i as int),
            decreases self@.len() - i,
        {
            let ghost prev = out@;
            out.push(&self.data[i]);
            proof {
                lemma_deref_entries_push(prev, out@);
                assert(self@.take(i as int + 1) =~= self@.take(i as int).push(self@[i as int]));
                assert(deref_entries(out@) =~= self@.take(i as int + 1));
            }
            i = i + 1;
        }
        proof {
            assert(self@.take(self@.len() as int) =~= self@);
        }
        out
    }

    /// The entry values in store order, as a freshly collected row of borrows.
    pub fn values(&self) -> (r: Vec<&Value<T>>)
        ensures
            deref_values(r@) == values_of(self@),
    {
        let mut out: Vec<&Value<T>> = Vec::new();
        let mut i: usize = 0;
        proof {
            assert(deref_values(out@) =~= values_of(self@.take(0)));
        }
        while i < self.data.len()
            invariant
                i <= self@.len(),
                deref_values(out@) == values_of(self@.take(i as int)),
            decreases self@.len() - i,
        {
            let ghost prev = out@;
            out.push(&self.data[i].1);
            proof {
                lemma_deref_values_push(prev, out@);
                assert(*out@.last() == self@[i as int].1);
                assert(self@.take(i as int + 1) =~= self@.take(i as int).push(self@[i as int]));
                assert(deref_values(out@) =~= values_of(self@.take(i as int + 1)));
            }
            i = i + 1;
        }
        proof {
            assert(self@.take(self@.len() as int) =~= self@);
        }
        out
    }

    /// The positions of the entries `get` would select, for use with
    /// `value_at` and `set_value_at`: write access to payload and size goes
    /// through positions, never through the keys, so the sort order stands.
    pub fn get_values_mut(&self, category: &[u64]) -> (r: Result<Vec<usize>, PackageError>)
        requires
            self.wf(),
        ensures
            match r {
                Ok(v) => {
                    &&& category@.len() <= N
                    &&& v@.map_values(|ix: usize| self@[ix as int]) == matching(self@, category@)
                    &&& forall|j: int| 0 <= j < v@.len() ==> #[trigger] v@[j] < self@.len()
                    &&& forall|a: int, b: int|
                        0 <= a < b < v@.len() ==> #[trigger] v@[a] < #[trigger] v@[b]
                    &&& (category@.len() == N ==> has_key(self@, category@))
                },
                Err(e) => {
                    ||| (e is CategoryTooBig && category@.len() > N)
                    ||| (e is NoFound && category@.len() == N && !has_key(self@, category@))
                },
            },
    {
        if category.len() > N {
            return Err(PackageError::CategoryTooBig);
        }
        if category.len() == N {
            match self.locate(category) {
                Ok(i) => {
                    proof {
                        lemma_matching_one(self@, category@, N as int, i as int);
                    }
                    let mut out: Vec<usize> = Vec::new();
                    out.push(i);
                    proof {
                        assert(out@.map_values(|ix: usize| self@[ix as int]) =~= seq![
                            self@[i as int],
                        ]);
                    }
                    Ok(out)
                },
                Err(i) => {
                    proof {
                        self.lemma_absent(category@, i as int);
                    }
                    Err(PackageError::NoFound)
                },
            }
        } else {
            let mut out: Vec<usize> = Vec::new();
            let mut i: usize = 0;
            proof {
                reveal(Seq::filter);
                assert(self@.take(0) =~= Seq::<(Key, Value<T>)>::empty());
                assert(out@.map_values(|ix: usize| self@[ix as int]) =~= matching(
                    self@.take(0),
                    category@,
                ));
            }
            while i < self.data.len()
                invariant
                    i <= self@.len(),
                    out@.map_values(|ix: usize| self@[ix as int]) == matching(
                        self@.take(i as int),
                        category@,
                    ),
                    forall|j: int| 0 <= j < out@.len() ==> #[trigger] out@[j] < i,
                    forall|a: int, b: int|
                        0 <= a < b < out@.len() ==> #[trigger] out@[a] < #[trigger] out@[b],
                decreases self@.len() - i,
            {
                let ghost prev = out@;
                let e = &self.data[i];
                if key_starts_with(e.0.as_slice(), category) {
                    out.push(i);
                }
                proof {
                    lemma_matching_take_step(self@, category@, i as int);
                    if matches_prefix(self@[i as int].0@, category@) {
                        assert(out@ == prev.push(i));
                        assert(prev.map_values(|ix: usize| self@[ix as int]).len() == prev.len());
                        assert(out@.map_values(|ix: usize| self@[ix as int]) =~= matching(
                            self@.take(i as int + 1),
                            category@,
                        ));
                    } else {
                        assert(out@.map_values(|ix: usize| self@[ix as int]) =~= matching(
                            self@.take(i as int + 1),
                            category@,
                        ));
                    }
                }
                i = i + 1;
            }
            proof {
                assert(self@.take(self@.len() as int) =~= self@);
            }
            Ok(out)
        }
    }

    /// The value stored at position `i`.
    pub fn value_at(&self, i: usize) -> (r: &Value<T>)
        requires
            i < self@.len(),
        ensures
            *r == self@[i as int].1,
    {
        &self.data[i].1
    }

    /// Replaces the value stored at position `i`, leaving its key untouched,
    /// so the ordering invariant is preserved.
    pub fn set_value_at(&mut self, i: usize, value: Value<T>)
        requires
            i < old(self)@.len(),
        ensures
            final(self)@.len() == old(self)@.len(),
            final(self)@[i as int].0 == old(self)@[i as int].0,
            final(self)@[i as int].1 == value,
            forall|j: int|
                0 <= j < old(self)@.len() && j != i ==> #[trigger] final(self)@[j] == old(
                    self,
                )@[j],
            old(self).wf() ==> final(self).wf(),
    {
        let (k, _old_value) = self.data.remove(i);
        self.data.insert(i, (k, value));
        proof {
            if old(self).wf() {
                assert(entries_ordered(self@)) by {
                    assert forall|a: int, b: int| 0 <= a < b < self@.len() implies lex_lt(
                        #[trigger] self@[a].0@,
                        #[trigger] self@[b].0@,
                    ) by {
                        assert(old(self)@[a].0 == self@[a].0);
                        assert(old(self)@[b].0 == self@[b].0);
                    }
                }
                assert(entries_complete(self@, N as int)) by {
                    assert forall|j: int| 0 <= j < self@.len() implies (
                    #[trigger] self@[j].0@).len() == N as int by {
                        assert(old(self)@[j].0 == self@[j].0);
                    }
                }
            }
        }
    }
}

} // verus!

