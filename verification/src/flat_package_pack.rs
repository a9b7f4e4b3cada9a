//! The store partitioner: decomposes one categorized store into buckets
//! bounded by entry count and cumulative payload size.
//!
//! A zero limit switches its stage off rather than passing entries through:
//! with `max_len == 0` no chunk is ever cut, and with `max_size == 0` no
//! bucket is ever finalized. The remainder that the count stage leaves
//! behind, and any chunk leftover whose entries fit no size bucket, are
//! dropped. This mirrors the construction algorithm as specified, kept as a
//! deliberate design choice rather than treating a zero limit as unbounded.

use vstd::prelude::*;
use crate::entries::{
    entries_complete, first_fit_split, lemma_first_fit_split_props, total_size,
};
use crate::flat_package::{deref_entries, Key, Package, Value};

verus! {

/// A partition of one categorized store into count- and size-bounded
/// buckets, in creation order.
pub struct PackagePack<T, const N: usize> {
    packages: Vec<Package<T, N>>,
    max_size: usize,
    max_len: usize,
}

/// The entry rows behind a row of stores.
pub open spec fn views_of<T, const N: usize>(s: Seq<Package<T, N>>) -> Seq<
    Seq<(Key, Value<T>)>,
> {
    s.map_values(|p: Package<T, N>| p@)
}

/// All entry rows laid end to end.
pub open spec fn flat_entries<T>(s: Seq<Seq<(Key, Value<T>)>>) -> Seq<(Key, Value<T>)>
    decreases s.len(),
{
    if s.len() == 0 {
        Seq::empty()
    } else {
        flat_entries(s.drop_last()) + s.last()
    }
}

/// The chunks the count stage pops off the tail of `s`, each of exactly
/// `max_len` entries in pop order, until at most `max_len` entries remain;
/// those remaining entries appear in no chunk. A zero `max_len` cuts no
/// chunk at all.
pub open spec fn count_chunks<T>(s: Seq<(Key, Value<T>)>, max_len: int) -> Seq<
    Seq<(Key, Value<T>)>,
>
    decreases s.len(),
{
    if max_len <= 0 || s.len() <= max_len {
        Seq::empty()
    } else {
        seq![s.skip(s.len() - max_len).reverse()] + count_chunks(
            s.take(s.len() - max_len),
            max_len,
        )
    }
}

/// The buckets the size stage extracts from one chunk: repeated first-fit
/// splits against `max_size` until nothing more fits; what is left then is
/// dropped. A zero `max_size` finalizes no bucket at all.
pub open spec fn size_buckets<T>(c: Seq<(Key, Value<T>)>, max_size: int) -> Seq<
    Seq<(Key, Value<T>)>,
>
    decreases c.len(),
{
    if max_size <= 0 || c.len() == 0 {
        Seq::empty()
    } else {
        let split = first_fit_split(c, max_size);
        if 0 < split.0.len() && split.1.len() < c.len() {
            seq![split.0] + size_buckets(split.1, max_size)
        } else {
            Seq::empty()
        }
    }
}

/// The size-stage buckets of every chunk, in chunk order.
pub open spec fn chunk_buckets<T>(chunks: Seq<Seq<(Key, Value<T>)>>, max_size: int) -> Seq<
    Seq<(Key, Value<T>)>,
>
    decreases chunks.len(),
{
    if chunks.len() == 0 {
        Seq::empty()
    } else {
        size_buckets(chunks.first(), max_size) + chunk_buckets(chunks.drop_first(), max_size)
    }
}

/// What partitioning `s` under the two limits produces.
pub open spec fn pack_spec<T>(s: Seq<(Key, Value<T>)>, max_size: int, max_len: int) -> Seq<
    Seq<(Key, Value<T>)>,
> {
    chunk_buckets(count_chunks(s, max_len), max_size)
}

/// Every size-stage bucket of a chunk stays within both limits: at most as
/// many entries as the chunk holds, and a size sum within the budget.
pub proof fn lemma_size_buckets_bounds<T>(c: Seq<(Key, Value<T>)>, max_size: int)
    ensures
        forall|b: int|
            0 <= b < size_buckets(c, max_size).len() ==> (#[trigger] size_buckets(
                c,
                max_size,
            )[b]).len() <= c.len() && total_size(size_buckets(c, max_size)[b]) <= max_size,
    decreases c.len(),
{
    if !(max_size <= 0 || c.len() == 0) {
        let split = first_fit_split(c, max_size);
        lemma_first_fit_split_props(c, max_size, 0);
        if 0 < split.0.len() && split.1.len() < c.len() {
            lemma_size_buckets_bounds(split.1, max_size);
            assert forall|b: int|
                0 <= b < size_buckets(c, max_size).len() implies (#[trigger] size_buckets(
                c,
                max_size,
            )[b]).len() <= c.len() && total_size(size_buckets(c, max_size)[b])
                <= max_size by {
                if b == 0 {
                    assert(size_buckets(c, max_size)[b] == split.0);
                } else {
                    assert(size_buckets(c, max_size)[b] == size_buckets(split.1, max_size)[b
                        - 1]);
                }
            }
        }
    }
}

/// Every chunk the count stage cuts holds exactly `max_len` entries.
pub proof fn lemma_count_chunks_len<T>(s: Seq<(Key, Value<T>)>, max_len: int)
    ensures
        forall|c: int|
            0 <= c < count_chunks(s, max_len).len() ==> (#[trigger] count_chunks(
                s,
                max_len,
            )[c]).len() == max_len,
    decreases s.len(),
{
    if !(max_len <= 0 || s.len() <= max_len) {
        lemma_count_chunks_len(s.take(s.len() - max_len), max_len);
        assert forall|c: int|
            0 <= c < count_chunks(s, max_len).len() implies (#[trigger] count_chunks(
            s,
            max_len,
        )[c]).len() == max_len by {
            if c > 0 {
                assert(count_chunks(s, max_len)[c] == count_chunks(
                    s.take(s.len() - max_len),
                    max_len,
                )[c - 1]);
            }
        }
    }
}

/// Every bucket of the partition stays within both limits: at most
/// `max_len` entries and a size sum of at most `max_size`.
pub proof fn lemma_pack_spec_bounds<T>(s: Seq<(Key, Value<T>)>, max_size: int, max_len: int)
    ensures
        forall|b: int|
            0 <= b < pack_spec(s, max_size, max_len).len() ==> (#[trigger] pack_spec(
                s,
                max_size,
                max_len,
            )[b]).len() <= max_len && total_size(pack_spec(s, max_size, max_len)[b]) <= max_size,
{
    lemma_count_chunks_len(s, max_len);
    lemma_chunk_buckets_bounds(count_chunks(s, max_len), max_size, max_len);
}

impl<T, const N: usize> View for PackagePack<T, N> {
    type V = Seq<Seq<(Key, Value<T>)>>;

    closed spec fn view(&self) -> Seq<Seq<(Key, Value<T>)>> {
        views_of(self.packages@)
    }
}

impl<T, const N: usize> PackagePack<T, N> {
    /// The count limit this partitioner was built with.
    pub closed spec fn max_len_spec(self) -> usize {
        self.max_len
    }

    /// The size limit this partitioner was built with.
    pub closed spec fn max_size_spec(self) -> usize {
        self.max_size
    }

    /// Consumes one store and decomposes it into buckets under the two
    /// limits, where zero switches the corresponding stage off.
    pub fn new(package: Package<T, N>, max_size: usize, max_len: usize) -> (r: Self)
        ensures
            r@ == pack_spec(package@, max_size as int, max_len as int),
            r.max_size_spec() == max_size,
            r.max_len_spec() == max_len,
    {
        let mut tmp = Self { packages: Vec::new(), max_size, max_len };
        proof {
            assert(views_of(tmp.packages@) =~= Seq::<Seq<(Key, Value<T>)>>::empty());
        }
        tmp.add(package);
        proof {
            assert(Seq::<Seq<(Key, Value<T>)>>::empty() + pack_spec(
                package@,
                max_size as int,
                max_len as int,
            ) =~= pack_spec(package@, max_size as int, max_len as int));
        }
        tmp
    }

    /// Chunks the store by the count limit, then cuts each chunk into
    /// size-bounded buckets, appending every finished bucket.
    fn add(&mut self, package: Package<T, N>)
        ensures
            final(self)@ == old(self)@ + pack_spec(
                package@,
                old(self).max_size_spec() as int,
                old(self).max_len_spec() as int,
            ),
            final(self).max_size_spec() == old(self).max_size_spec(),
            final(self).max_len_spec() == old(self).max_len_spec(),
    {
        let ghost orig = package@;
        let max_size = self.max_size;
        let max_len = self.max_len;
        let mut package = package;
        let mut tmp: Vec<Package<T, N>> = Vec::new();
        if max_len != 0 {
            proof {
                assert(views_of(tmp@) =~= Seq::<Seq<(Key, Value<T>)>>::empty());
                assert(views_of(tmp@) + count_chunks(package@, max_len as int) =~= count_chunks(
                    orig,
                    max_len as int,
                ));
            }
            while package.len() > max_len
                invariant
                    max_len > 0,
                    views_of(tmp@) + count_chunks(package@, max_len as int) == count_chunks(
                        orig,
                        max_len as int,
                    ),
                decreases package@.len(),
            {
                let ghost before = package@;
                let ghost tmp_before = tmp@;
                match package.seperete_by_count(max_len) {
                    None => {
                        proof {
                            assert(before.len() == 0);
                        }
                    },
                    Some(chunk) => {
                        tmp.push(chunk);
                        proof {
                            let ml = max_len as int;
                            assert(chunk@ == before.skip(before.len() - ml).reverse());
                            assert(count_chunks(before, ml) == seq![chunk@] + count_chunks(
                                package@,
                                ml,
                            ));
                            assert(views_of(tmp@) =~= views_of(tmp_before).push(chunk@));
                            assert(views_of(tmp@) + count_chunks(package@, ml) =~= views_of(
                                tmp_before,
                            ) + count_chunks(before, ml));
                        }
                    },
                }
            }
            proof {
                assert(count_chunks(package@, max_len as int) =~= Seq::<Seq<(
                    Key,
                    Value<T>,
                )>>::empty());
                assert(views_of(tmp@) =~= views_of(tmp@) + count_chunks(
                    package@,
                    max_len as int,
                ));
            }
        } else {
            proof {
                assert(views_of(tmp@) =~= count_chunks(orig, max_len as int));
            }
        }
        let ghost chunks = views_of(tmp@);
        let mut tmp1: Vec<Package<T, N>> = Vec::new();
        if max_size != 0 {
            proof {
                assert(views_of(tmp1@) =~= Seq::<Seq<(Key, Value<T>)>>::empty());
                assert(views_of(tmp1@) + chunk_buckets(views_of(tmp@), max_size as int)
                    =~= chunk_buckets(chunks, max_size as int));
            }
            while tmp.len() > 0
                invariant
                    max_size > 0,
                    views_of(tmp1@) + chunk_buckets(views_of(tmp@), max_size as int)
                        == chunk_buckets(chunks, max_size as int),
                decreases tmp@.len(),
            {
                let ghost row_before = tmp@;
                let mut chunk = tmp.remove(0);
                proof {
                    assert(views_of(tmp@) =~= views_of(row_before).drop_first());
                    assert(views_of(row_before).first() == chunk@);
                }
                let ghost chunk_orig = chunk@;
                proof {
                    assert(views_of(tmp1@) + (size_buckets(chunk@, max_size as int)
                        + chunk_buckets(views_of(tmp@), max_size as int)) =~= views_of(tmp1@)
                        + chunk_buckets(views_of(row_before), max_size as int));
                }
                loop
                    invariant
                        max_size > 0,
                        views_of(tmp1@) + (size_buckets(chunk@, max_size as int)
                            + chunk_buckets(views_of(tmp@), max_size as int)) == chunk_buckets(
                            chunks,
                            max_size as int,
                        ),
                    ensures
                        views_of(tmp1@) + chunk_buckets(views_of(tmp@), max_size as int)
                            == chunk_buckets(chunks, max_size as int),
                    decreases chunk@.len(),
                {
                    let ghost chunk_before = chunk@;
                    let ghost tmp1_before = tmp1@;
                    match chunk.seperete_by_size(max_size) {
                        None => {
                            proof {
                                assert(first_fit_split(chunk_before, max_size as int).0.len()
                                    == 0);
                                assert(size_buckets(chunk@, max_size as int) =~= Seq::<Seq<(
                                    Key,
                                    Value<T>,
                                )>>::empty());
                                assert(views_of(tmp1@) + (size_buckets(chunk@, max_size as int)
                                    + chunk_buckets(views_of(tmp@), max_size as int))
                                    =~= views_of(tmp1@) + chunk_buckets(
                                    views_of(tmp@),
                                    max_size as int,
                                ));
                            }
                            break ;
                        },
                        Some(bucket) => {
                            tmp1.push(bucket);
                            proof {
                                let ms = max_size as int;
                                let split = first_fit_split(chunk_before, ms);
                                lemma_first_fit_split_props(chunk_before, ms, N as int);
                                assert(size_buckets(chunk_before, ms) == seq![split.0]
                                    + size_buckets(chunk@, ms));
                                assert(views_of(tmp1@) =~= views_of(tmp1_before).push(bucket@));
                                assert(views_of(tmp1@) + (size_buckets(chunk@, ms)
                                    + chunk_buckets(views_of(tmp@), ms)) =~= views_of(
                                    tmp1_before,
                                ) + (size_buckets(chunk_before, ms) + chunk_buckets(
                                    views_of(tmp@),
                                    ms,
                                )));
                            }
                        },
                    }
                }
            }
            proof {
                assert(views_of(tmp@) =~= Seq::<Seq<(Key, Value<T>)>>::empty());
                assert(chunk_buckets(views_of(tmp@), max_size as int) =~= Seq::<Seq<(
                    Key,
                    Value<T>,
                )>>::empty());
                assert(views_of(tmp1@) =~= views_of(tmp1@) + chunk_buckets(
                    views_of(tmp@),
                    max_size as int,
                ));
            }
        } else {
            proof {
                lemma_chunk_buckets_zero(chunks, max_size as int);
                assert(views_of(tmp1@) =~= chunk_buckets(chunks, max_size as int));
            }
        }
        let ghost packs_before = self.packages@;
        self.packages.append(&mut tmp1);
        proof {
            assert(views_of(self.packages@) =~= views_of(packs_before) + chunk_buckets(
                chunks,
                max_size as int,
            )) by {
                assert forall|j: int|
                    0 <= j < self.packages@.len() implies #[trigger] views_of(self.packages@)[j]
                    == (views_of(packs_before) + chunk_buckets(chunks, max_size as int))[j] by {
                    if j < packs_before.len() {
                        assert(self.packages@[j] == packs_before[j]);
                    }
                }
            }
        }
    }

    /// A read-only borrow of the buckets, in creation order.
    pub fn iter(&self) -> (r: &Vec<Package<T, N>>)
        ensures
            views_of(r@) == self@,
    {
        &self.packages
    }

    /// Every entry of every bucket, bucket by bucket, as a freshly
    /// collected row of borrows.
    pub fn iter_item(&self) -> (r: Vec<&(Key, Value<T>)>)
        ensures
            deref_entries(r@) == flat_entries(self@),
    {
        let mut out: Vec<&(Key, Value<T>)> = Vec::new();
        let mut i: usize = 0;
        proof {
            assert(deref_entries(out@) =~= flat_entries(self@.take(0)));
        }
        while i < self.packages.len()
            invariant
                i <= self@.len(),
                deref_entries(out@) == flat_entries(self@.take(i as int)),
            decreases self@.len() - i,
        {
            let bucket = &self.packages[i];
            let row = bucket.iter();
            let mut j: usize = 0;
            proof {
                assert(self@[i as int] == bucket@);
                assert(deref_entries(out@) + bucket@.take(0) =~= deref_entries(out@));
            }
            while j < row.len()
                invariant
                    j <= row@.len(),
                    deref_entries(row@) == bucket@,
                    bucket@ == self@[i as int],
                    i < self@.len(),
                    deref_entries(out@) == flat_entries(self@.take(i as int)) + bucket@.take(
                        j as int,
                    ),
                decreases row@.len() - j,
            {
                let ghost prev = out@;
                out.push(row[j]);
                proof {
                    assert(out@ == prev.push(out@.last()));
                    assert(*out@.last() == deref_entries(row@)[j as int]);
                    assert(deref_entries(prev).len() == prev.len());
                    assert forall|k: int|
                        0 <= k < out@.len() implies #[trigger] deref_entries(out@)[k] == (
                    flat_entries(self@.take(i as int)) + bucket@.take(j as int + 1))[k] by {
                        assert(deref_entries(out@)[k] == *out@[k]);
                        if k < prev.len() {
                            assert(out@[k] == prev[k]);
                            assert(*prev[k] == deref_entries(prev)[k]);
                        }
                        assert(bucket@.take(j as int + 1) =~= bucket@.take(j as int).push(
                            bucket@[j as int],
                        ));
                    }
                    assert(deref_entries(out@) =~= flat_entries(self@.take(i as int))
                        + bucket@.take(j as int + 1));
                }
                j = j + 1;
            }
            proof {
                assert(bucket@.take(bucket@.len() as int) =~= bucket@);
                assert(flat_entries(self@.take(i as int + 1)) == flat_entries(self@.take(i as int))
                    + bucket@) by {
                    assert(self@.take(i as int + 1).drop_last() =~= self@.take(i as int));
                    assert(self@.take(i as int + 1).last() == self@[i as int]);
                }
            }
            i = i + 1;
        }
        proof {
            assert(self@.take(self@.len() as int) =~= self@);
        }
        out
    }

    /// Discards all buckets.
    pub fn clear(&mut self)
        ensures
            final(self)@ =~= Seq::<Seq<(Key, Value<T>)>>::empty(),
            final(self).max_size_spec() == old(self).max_size_spec(),
            final(self).max_len_spec() == old(self).max_len_spec(),
    {
        self.packages.clear();
        proof {
            assert(views_of(self.packages@) =~= Seq::<Seq<(Key, Value<T>)>>::empty());
        }
    }
}

/// With a zero size budget no chunk yields any bucket.
proof fn lemma_chunk_buckets_zero<T>(chunks: Seq<Seq<(Key, Value<T>)>>, max_size: int)
    requires
        max_size <= 0,
    ensures
        chunk_buckets(chunks, max_size) == Seq::<Seq<(Key, Value<T>)>>::empty(),
    decreases chunks.len(),
{
    if chunks.len() > 0 {
        lemma_chunk_buckets_zero(chunks.drop_first(), max_size);
        assert(chunk_buckets(chunks, max_size) =~= Seq::<Seq<(Key, Value<T>)>>::empty());
    }
}

/// Bucket bounds, lifted over a row of chunks of bounded length.
proof fn lemma_chunk_buckets_bounds<T>(
    chunks: Seq<Seq<(Key, Value<T>)>>,
    max_size: int,
    max_len: int,
)
    requires
        forall|c: int| 0 <= c < chunks.len() ==> (#[trigger] chunks[c]).len() <= max_len,
    ensures
        forall|b: int|
            0 <= b < chunk_buckets(chunks, max_size).len() ==> (#[trigger] chunk_buckets(
                chunks,
                max_size,
            )[b]).len() <= max_len && total_size(chunk_buckets(chunks, max_size)[b]) <= max_size,
    decreases chunks.len(),
{
    if chunks.len() > 0 {
        let head = size_buckets(chunks.first(), max_size);
        lemma_size_buckets_bounds(chunks.first(), max_size);
        assert(chunks[0].len() <= max_len);
        lemma_chunk_buckets_bounds(chunks.drop_first(), max_size, max_len);
        assert forall|b: int|
            0 <= b < chunk_buckets(chunks, max_size).len() implies (#[trigger] chunk_buckets(
            chunks,
            max_size,
        )[b]).len() <= max_len && total_size(chunk_buckets(chunks, max_size)[b])
            <= max_size by {
            if b < head.len() {
                assert(chunk_buckets(chunks, max_size)[b] == head[b]);
            } else {
                assert(chunk_buckets(chunks, max_size)[b] == chunk_buckets(
                    chunks.drop_first(),
                    max_size,
                )[b - head.len()]);
            }
        }
    }
}

} // verus!
