use vstd::prelude::*;
use crate::errors::IndexError;
use crate::model::{TransformedRecord, RecView, recs_view};
use vstd::multiset::Multiset;

verus! {

broadcast use {vstd::multiset::group_multiset_axioms, vstd::seq_lib::group_to_multiset_ensures};

/// The records of a batch of files, in file order then record order.
pub open spec fn flatten_files(files: Seq<Seq<RecView>>) -> Seq<RecView>
    decreases files.len(),
{
    if files.len() == 0 {
        Seq::empty()
    } else {
        flatten_files(files.drop_last()) + files.last()
    }
}

/// The mathematical value of a batch of record files.
pub open spec fn files_view(files: Seq<Vec<TransformedRecord>>) -> Seq<Seq<RecView>> {
    Seq::new(files.len(), |i: int| recs_view(files[i]@))
}

/// Membership predicate of partition `k`.
pub open spec fn in_partition(k: int) -> spec_fn(RecView) -> bool {
    |r: RecView| r.partition_id as int == k
}

/// The multiset union of the records of a batch of files.
pub open spec fn buckets_union(bs: Seq<Seq<RecView>>) -> Multiset<RecView>
    decreases bs.len(),
{
    if bs.len() == 0 {
        Multiset::empty()
    } else {
        buckets_union(bs.drop_last()).add(bs.last().to_multiset())
    }
}

/// Filtering one more element keeps it exactly when the predicate holds.
proof fn lemma_filter_push(s: Seq<RecView>, pred: spec_fn(RecView) -> bool, x: RecView)
    ensures
        s.push(x).filter(pred) == if pred(x) {
            s.filter(pred).push(x)
        } else {
            s.filter(pred)
        },
{
    reveal(Seq::filter);
    assert(s.push(x).drop_last() =~= s);
    assert(s.push(x).last() == x);
}

/// A batch of empty files holds no records.
proof fn lemma_union_empty_buckets(bs: Seq<Seq<RecView>>)
    requires
        forall|k: int| 0 <= k < bs.len() ==> (#[trigger] bs[k]).len() == 0,
    ensures
        buckets_union(bs) =~= Multiset::empty(),
    decreases bs.len(),
{
    if bs.len() > 0 {
        lemma_union_empty_buckets(bs.drop_last());
        assert(bs.last().len() == 0);
        assert(bs.last().to_multiset().len() == 0);
        assert(bs.last().to_multiset() =~= Multiset::empty());
    }
}

/// Appending one record to one bucket adds exactly that record to the union.
proof fn lemma_union_push_at(b0: Seq<Seq<RecView>>, b1: Seq<Seq<RecView>>, j: int, x: RecView)
    requires
        b0.len() == b1.len(),
        0 <= j < b0.len(),
        b1[j] == b0[j].push(x),
        forall|k: int| 0 <= k < b0.len() && k != j ==> #[trigger] b1[k] == b0[k],
    ensures
        buckets_union(b1) =~= buckets_union(b0).insert(x),
    decreases b0.len(),
{
    let n = b0.len() as int;
    if j == n - 1 {
        assert(b1.drop_last() =~= b0.drop_last());
        assert(b1.last() == b0.last().push(x));
        assert(b1.last().to_multiset() =~= b0.last().to_multiset().insert(x));
        assert(buckets_union(b1)
            =~= buckets_union(b0.drop_last()).add(b0.last().to_multiset().insert(x)));
        assert(buckets_union(b0.drop_last()).add(b0.last().to_multiset().insert(x))
            =~= buckets_union(b0).insert(x));
    } else {
        assert(b1.drop_last()[j] == b0.drop_last()[j].push(x));
        assert(forall|k: int| 0 <= k < n - 1 && k != j
            ==> #[trigger] b1.drop_last()[k] == b0.drop_last()[k]);
        lemma_union_push_at(b0.drop_last(), b1.drop_last(), j, x);
        assert(b1.last() == b0.last());
        assert(buckets_union(b1)
            =~= buckets_union(b0.drop_last()).insert(x).add(b0.last().to_multiset()));
        assert(buckets_union(b0.drop_last()).insert(x).add(b0.last().to_multiset())
            =~= buckets_union(b0).insert(x));
    }
}

/// Splitting a record sequence into its per-partition filters loses nothing
/// and invents nothing: the union of the parts is the whole, as a multiset.
pub proof fn lemma_partition_multiset(s: Seq<RecView>, p: int)
    requires
        1 <= p,
        forall|i: int| 0 <= i < s.len() ==> (#[trigger] s[i]).partition_id < p,
    ensures
        buckets_union(Seq::new(p as nat, |k: int| s.filter(in_partition(k))))
            =~= s.to_multiset(),
    decreases s.len(),
{
    let bs = Seq::new(p as nat, |k: int| s.filter(in_partition(k)));
    if s.len() == 0 {
        assert forall|k: int| 0 <= k < bs.len() implies (#[trigger] bs[k]).len() == 0 by {
            reveal(Seq::filter);
        }
        lemma_union_empty_buckets(bs);
        assert(s.to_multiset().len() == 0);
        assert(s.to_multiset() =~= Multiset::empty());
    } else {
        let s0 = s.drop_last();
        let x = s.last();
        assert(forall|i: int| 0 <= i < s0.len() ==> (#[trigger] s0[i]).partition_id < p);
        lemma_partition_multiset(s0, p);
        let b0 = Seq::new(p as nat, |k: int| s0.filter(in_partition(k)));
        let j = x.partition_id as int;
        assert(s0.push(x) =~= s);
        assert forall|k: int| 0 <= k < p implies #[trigger] bs[k] == if k == j {
            b0[k].push(x)
        } else {
            b0[k]
        } by {
            lemma_filter_push(s0, in_partition(k), x);
            assert(s0.push(x).filter(in_partition(k)) == s.filter(in_partition(k)));
        }
        lemma_union_push_at(b0, bs, j, x);
        assert(s.to_multiset() =~= s0.to_multiset().insert(x));
    }
}

/// The shuffle correctness law: when every bucket `k` holds exactly the
/// input records of partition `k` in input order — as `shuffle_transformed_vectors`
/// ensures — the union of the buckets' records equals the union of the input
/// files' records as a multiset, and every record of bucket `k` carries
/// partition id `k`.
pub proof fn lemma_shuffle_preserves_records(files: Seq<Seq<RecView>>, buckets: Seq<Seq<RecView>>)
    requires
        1 <= buckets.len(),
        forall|i: int| 0 <= i < flatten_files(files).len()
            ==> (#[trigger] flatten_files(files)[i]).partition_id < buckets.len(),
        forall|k: int| 0 <= k < buckets.len()
            ==> #[trigger] buckets[k] == flatten_files(files).filter(in_partition(k)),
    ensures
        buckets_union(buckets) =~= flatten_files(files).to_multiset(),
        forall|k: int, i: int|
            0 <= k < buckets.len() && 0 <= i < buckets[k].len()
                ==> (#[trigger] buckets[k][i]).partition_id == k,
{
    let s = flatten_files(files);
    let p = buckets.len() as int;
    assert(buckets =~= Seq::new(p as nat, |k: int| s.filter(in_partition(k))));
    lemma_partition_multiset(s, p);
    assert forall|k: int, i: int|
        0 <= k < p && 0 <= i < buckets[k].len() implies
        (#[trigger] buckets[k][i]).partition_id == k by {
        Seq::lemma_filter_pred(s, in_partition(k), i);
    }
}

/// External bucket sort of transformed records: every record of every input
/// file is appended to the bucket its `partition_id` names, in input order
/// (files in order, records in order within a file).  A record whose
/// partition id is outside `0..num_partitions` fails the whole shuffle with
/// `Config`; the inputs are never mutated, so a failed shuffle can be
/// retried.
pub fn shuffle_transformed_vectors(
    inputs: &Vec<Vec<TransformedRecord>>,
    num_partitions: usize,
) -> (r: Result<Vec<Vec<TransformedRecord>>, IndexError>)
    requires
        1 <= num_partitions,
    ensures
        r is Ok <==> (forall|f: int, i: int|
            0 <= f < inputs@.len() && 0 <= i < inputs@[f]@.len()
                ==> (#[trigger] inputs@[f]@[i])@.partition_id < num_partitions),
        r is Err ==> r == Err::<Vec<Vec<TransformedRecord>>, IndexError>(IndexError::Config),
        r is Ok ==> {
            let buckets = r->Ok_0;
            &&& buckets@.len() == num_partitions
            &&& forall|k: int| 0 <= k < num_partitions
                ==> recs_view((#[trigger] buckets@[k])@)
                    == flatten_files(files_view(inputs@)).filter(in_partition(k))
        },
{
    // First pass: reject any record aimed outside the partition-id space.
    let mut f: usize = 0;
    while f < inputs.len()
        invariant
            f <= inputs@.len(),
            forall|q: int, i: int|
                0 <= q < f && 0 <= i < inputs@[q]@.len()
                    ==> (#[trigger] inputs@[q]@[i])@.partition_id < num_partitions,
        decreases inputs@.len() - f,
    {
        let file = &inputs[f];
        let mut i: usize = 0;
        while i < file.len()
            invariant
                i <= file@.len(),
                f < inputs@.len(),
                file@ == inputs@[f as int]@,
                forall|q: int| 0 <= q < i
                    ==> (#[trigger] file@[q])@.partition_id < num_partitions,
            decreases file@.len() - i,
        {
            if file[i].partition_id as usize >= num_partitions {
                return Err(IndexError::Config);
            }
            i = i + 1;
        }
        f = f + 1;
    }
    // Second pass: per partition, collect its records in input order.
    let ghost whole = flatten_files(files_view(inputs@));
    let mut buckets: Vec<Vec<TransformedRecord>> = Vec::new();
    let mut k: usize = 0;
    while k < num_partitions
        invariant
            k <= num_partitions,
            buckets@.len() == k,
            whole == flatten_files(files_view(inputs@)),
            forall|q: int| 0 <= q < k
                ==> recs_view((#[trigger] buckets@[q])@) == whole.filter(in_partition(q)),
        decreases num_partitions - k,
    {
        let mut bucket: Vec<TransformedRecord> = Vec::new();
        let mut f: usize = 0;
        while f < inputs.len()
            invariant
                f <= inputs@.len(),
                k < num_partitions,
                whole == flatten_files(files_view(inputs@)),
                recs_view(bucket@)
                    == flatten_files(files_view(inputs@).subrange(0, f as int))
                        .filter(in_partition(k as int)),
            decreases inputs@.len() - f,
        {
            let ghost done = flatten_files(files_view(inputs@).subrange(0, f as int));
            let file = &inputs[f];
            let mut i: usize = 0;
            while i < file.len()
                invariant
                    i <= file@.len(),
                    k < num_partitions,
                    file@ == inputs@[f as int]@,
                    done == flatten_files(files_view(inputs@).subrange(0, f as int)),
                    recs_view(bucket@)
                        == (done + recs_view(file@).subrange(0, i as int))
                            .filter(in_partition(k as int)),
                decreases file@.len() - i,
            {
                let ghost processed = done + recs_view(file@).subrange(0, i as int);
                let rec = &file[i];
                proof {
                    assert(recs_view(file@)[i as int] == file@[i as int]@);
                    assert(done + recs_view(file@).subrange(0, i + 1)
                        =~= processed.push(file@[i as int]@));
                    lemma_filter_push(processed, in_partition(k as int), file@[i as int]@);
                }
                if rec.partition_id as usize == k {
                    let ghost pre = bucket@;
                    bucket.push(rec.clone());
                    proof {
                        assert(recs_view(bucket@) =~= recs_view(pre).push(file@[i as int]@));
                    }
                } else {
                    proof {
                        assert(!(in_partition(k as int)(file@[i as int]@)));
                    }
                }
                i = i + 1;
            }
            proof {
                assert(recs_view(file@).subrange(0, file@.len() as int) =~= recs_view(file@));
                let pref = files_view(inputs@).subrange(0, f + 1);
                assert(pref.drop_last() =~= files_view(inputs@).subrange(0, f as int));
                assert(pref.last() == recs_view(inputs@[f as int]@));
                assert(flatten_files(pref) == done + recs_view(file@));
            }
            f = f + 1;
        }
        proof {
            assert(files_view(inputs@).subrange(0, inputs@.len() as int) =~= files_view(inputs@));
        }
        buckets.push(bucket);
        k = k + 1;
    }
    proof {
        assert forall|ff: int, i: int|
            0 <= ff < inputs@.len() && 0 <= i < inputs@[ff]@.len() implies
            (#[trigger] inputs@[ff]@[i])@.partition_id < num_partitions by {
        }
    }
    Ok(buckets)
}

} // verus!
