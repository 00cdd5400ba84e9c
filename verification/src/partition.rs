//! Recursive median-cut partitioning, run as an iterative worklist: the
//! heaviest bucket holding more than one distinct color is split at the
//! upper median of its channel-sorted members until the requested bucket
//! count is reached or no bucket can be split.

use vstd::prelude::*;
use vstd::multiset::Multiset;
use crate::bucket::Bucket;
use crate::bucket::bucket_inv;
use crate::bucket::get_total_and_greatest_range_channel;
use crate::color::Colors;
use crate::color::is_color_count;
use crate::color::pixel_count;
use crate::color::sum_weights;
use crate::color::lemma_sum_weights_lower;
use crate::color::lemma_sum_weights_nonneg;
use crate::color::lemma_sum_weights_split;

verus! {

broadcast use
    vstd::seq_lib::group_to_multiset_ensures,
    vstd::multiset::group_multiset_axioms;

/// Sum of `total` over a sequence of buckets.
pub open spec fn sum_totals(bs: Seq<Bucket>) -> int
    decreases bs.len(),
{
    if bs.len() == 0 {
        0
    } else {
        sum_totals(bs.drop_last()) + bs.last().total
    }
}

/// The members of all buckets, as one multiset of weighted colors.
pub open spec fn bucket_colors_ms(bs: Seq<Bucket>) -> Multiset<Colors>
    decreases bs.len(),
{
    if bs.len() == 0 {
        Multiset::empty()
    } else {
        bucket_colors_ms(bs.drop_last()).add(bs.last().colors@.to_multiset())
    }
}

/// The members of all buckets, concatenated in bucket order.
pub open spec fn bucket_colors_seq(bs: Seq<Bucket>) -> Seq<Colors>
    decreases bs.len(),
{
    if bs.len() == 0 {
        Seq::empty()
    } else {
        bucket_colors_seq(bs.drop_last()) + bs.last().colors@
    }
}

/// Number of distinct colors held over all buckets.
pub open spec fn color_count_total(bs: Seq<Bucket>) -> int
    decreases bs.len(),
{
    if bs.len() == 0 {
        0
    } else {
        color_count_total(bs.drop_last()) + bs.last().colors@.len()
    }
}

/// Every bucket of the sequence is well-formed.
pub open spec fn buckets_inv(bs: Seq<Bucket>) -> bool {
    forall|j: int| 0 <= j < bs.len() ==> bucket_inv(#[trigger] bs[j])
}

/// Removing one entry subtracts its weight from the weight sum.
pub proof fn lemma_sum_weights_remove(s: Seq<Colors>, i: int)
    requires
        0 <= i < s.len(),
    ensures
        sum_weights(s.remove(i)) == sum_weights(s) - s[i].3,
    decreases s.len(),
{
    if i == s.len() - 1 {
        assert(s.remove(i) =~= s.drop_last());
    } else {
        assert(s.remove(i).drop_last() =~= s.drop_last().remove(i));
        assert(s.remove(i).last() == s.last());
        lemma_sum_weights_remove(s.drop_last(), i);
    }
}

/// The weight sum of a sequence depends only on its multiset of entries.
pub proof fn lemma_sum_weights_ms(a: Seq<Colors>, b: Seq<Colors>)
    requires
        a.to_multiset() == b.to_multiset(),
    ensures
        sum_weights(a) == sum_weights(b),
    decreases a.len(),
{
    a.to_multiset_ensures();
    b.to_multiset_ensures();
    if a.len() == 0 {
        assert(b.len() == 0);
    } else {
        let x = a.last();
        assert(a.drop_last().push(x) =~= a);
        assert(a.contains(x));
        assert(a.to_multiset().count(x) > 0);
        assert(b.to_multiset().count(x) > 0);
        assert(b.contains(x));
        let i = choose|i: int| 0 <= i < b.len() && b[i] == x;
        lemma_sum_weights_remove(b, i);
        assert(a.drop_last().to_multiset() =~= b.remove(i).to_multiset());
        lemma_sum_weights_ms(a.drop_last(), b.remove(i));
    }
}

/// Concatenation adds weight sums.
pub proof fn lemma_sum_weights_concat(a: Seq<Colors>, b: Seq<Colors>)
    ensures
        sum_weights(a + b) == sum_weights(a) + sum_weights(b),
{
    lemma_sum_weights_split(a + b, a.len() as int);
    assert((a + b).subrange(0, a.len() as int) =~= a);
    assert((a + b).subrange(a.len() as int, (a + b).len() as int) =~= b);
}

/// The concatenated members carry the buckets' multiset and color count.
pub proof fn lemma_flatten_props(bs: Seq<Bucket>)
    ensures
        bucket_colors_seq(bs).to_multiset() == bucket_colors_ms(bs),
        bucket_colors_seq(bs).len() == color_count_total(bs),
    decreases bs.len(),
{
    if bs.len() == 0 {
        let f = bucket_colors_seq(bs);
        f.to_multiset_ensures();
        assert(f.len() == 0);
        assert forall|c: Colors| f.to_multiset().count(c) == Multiset::<Colors>::empty().count(
            c,
        ) by {
            assert(f.to_multiset().count(c) <= f.to_multiset().len());
        }
        assert(f.to_multiset() =~= Multiset::<Colors>::empty());
    } else {
        lemma_flatten_props(bs.drop_last());
        vstd::seq_lib::lemma_multiset_commutative(
            bucket_colors_seq(bs.drop_last()),
            bs.last().colors@,
        );
        assert(bucket_colors_seq(bs) == bucket_colors_seq(bs.drop_last()) + bs.last().colors@);
        assert((bucket_colors_seq(bs.drop_last()) + bs.last().colors@).to_multiset()
            == bucket_colors_seq(bs.drop_last()).to_multiset().add(
            bs.last().colors@.to_multiset(),
        ));
        assert(bucket_colors_ms(bs) == bucket_colors_ms(bs.drop_last()).add(
            bs.last().colors@.to_multiset(),
        ));
    }
}

/// With every total the exact weight sum of its bucket, the totals sum to
/// the weight sum of all members.
pub proof fn lemma_sum_totals_flatten(bs: Seq<Bucket>)
    requires
        forall|j: int| 0 <= j < bs.len() ==> (#[trigger] bs[j]).total == sum_weights(bs[j].colors@),
    ensures
        sum_totals(bs) == sum_weights(bucket_colors_seq(bs)),
    decreases bs.len(),
{
    if bs.len() > 0 {
        lemma_sum_totals_flatten(bs.drop_last());
        lemma_sum_weights_concat(bucket_colors_seq(bs.drop_last()), bs.last().colors@);
    }
}

/// Weight conservation: a well-formed partition holding exactly the image's
/// distinct weighted colors has bucket totals summing to the image's pixel
/// count.
pub proof fn lemma_weight_conservation(data: Seq<u8>, counts: Seq<Colors>, bs: Seq<Bucket>)
    requires
        is_color_count(data, counts),
        buckets_inv(bs),
        bucket_colors_ms(bs) == counts.to_multiset(),
    ensures
        sum_totals(bs) == pixel_count(data),
{
    lemma_flatten_props(bs);
    lemma_sum_totals_flatten(bs);
    lemma_sum_weights_ms(bucket_colors_seq(bs), counts);
}

/// A color counted by the buckets' multiset sits at some bucket position.
pub proof fn lemma_bucket_member(bs: Seq<Bucket>, c: Colors)
    requires
        bucket_colors_ms(bs).count(c) > 0,
    ensures
        exists|j: int, t: int|
            #![trigger bs[j].colors@[t]]
            0 <= j < bs.len() && 0 <= t < bs[j].colors@.len() && bs[j].colors@[t] == c,
    decreases bs.len(),
{
    if bs.len() > 0 {
        if bs.last().colors@.to_multiset().count(c) > 0 {
            assert(bs.last().colors@.contains(c));
            let t = choose|t: int| 0 <= t < bs.last().colors@.len() && bs.last().colors@[t] == c;
            assert(bs[bs.len() - 1].colors@[t] == c);
        } else {
            lemma_bucket_member(bs.drop_last(), c);
            let (j, t) = choose|j: int, t: int|
                #![trigger bs.drop_last()[j].colors@[t]]
                0 <= j < bs.drop_last().len() && 0 <= t < bs.drop_last()[j].colors@.len()
                    && bs.drop_last()[j].colors@[t] == c;
            assert(bs[j].colors@[t] == c);
        }
    }
}

/// Concatenating bucket sequences adds their totals, member multisets and
/// color counts.
pub proof fn lemma_buckets_concat(a: Seq<Bucket>, b: Seq<Bucket>)
    ensures
        sum_totals(a + b) == sum_totals(a) + sum_totals(b),
        bucket_colors_ms(a + b) == bucket_colors_ms(a).add(bucket_colors_ms(b)),
        color_count_total(a + b) == color_count_total(a) + color_count_total(b),
    decreases b.len(),
{
    if b.len() == 0 {
        assert(a + b =~= a);
        assert(bucket_colors_ms(a).add(bucket_colors_ms(b)) =~= bucket_colors_ms(a));
    } else {
        assert((a + b).drop_last() =~= a + b.drop_last());
        assert((a + b).last() == b.last());
        lemma_buckets_concat(a, b.drop_last());
        assert(bucket_colors_ms(a).add(bucket_colors_ms(b.drop_last())).add(
            b.last().colors@.to_multiset(),
        ) =~= bucket_colors_ms(a).add(
            bucket_colors_ms(b.drop_last()).add(b.last().colors@.to_multiset()),
        ));
    }
}

/// A single bucket's partition-level measures are its own.
pub proof fn lemma_buckets_singleton(b: Bucket)
    ensures
        sum_totals(seq![b]) == b.total,
        bucket_colors_ms(seq![b]) == b.colors@.to_multiset(),
        color_count_total(seq![b]) == b.colors@.len(),
{
    let s = seq![b];
    assert(s.drop_last() =~= Seq::<Bucket>::empty());
    assert(s.last() == b);
    assert(sum_totals(Seq::<Bucket>::empty()) == 0);
    assert(bucket_colors_ms(Seq::<Bucket>::empty()) == Multiset::<Colors>::empty());
    assert(color_count_total(Seq::<Bucket>::empty()) == 0);
    assert(Multiset::<Colors>::empty().add(b.colors@.to_multiset()) =~= b.colors@.to_multiset());
}

/// A pair of buckets' partition-level measures add up.
pub proof fn lemma_buckets_pair(b1: Bucket, b2: Bucket)
    ensures
        sum_totals(seq![b1, b2]) == b1.total + b2.total,
        bucket_colors_ms(seq![b1, b2]) == b1.colors@.to_multiset().add(b2.colors@.to_multiset()),
        color_count_total(seq![b1, b2]) == b1.colors@.len() + b2.colors@.len(),
{
    assert(seq![b1] + seq![b2] =~= seq![b1, b2]);
    lemma_buckets_concat(seq![b1], seq![b2]);
    lemma_buckets_singleton(b1);
    lemma_buckets_singleton(b2);
}

/// Replacing bucket `j` by two buckets that together hold exactly its
/// members and weight keeps the partition's totals, member multiset and
/// color count.
pub proof fn lemma_splice(bs: Seq<Bucket>, j: int, b1: Bucket, b2: Bucket)
    requires
        0 <= j < bs.len(),
        b1.colors@.to_multiset().add(b2.colors@.to_multiset()) == bs[j].colors@.to_multiset(),
        b1.total + b2.total == bs[j].total,
        b1.colors@.len() + b2.colors@.len() == bs[j].colors@.len(),
    ensures
        sum_totals(bs.update(j, b1).insert(j + 1, b2)) == sum_totals(bs),
        bucket_colors_ms(bs.update(j, b1).insert(j + 1, b2)) == bucket_colors_ms(bs),
        color_count_total(bs.update(j, b1).insert(j + 1, b2)) == color_count_total(bs),
{
    let cur = bs.update(j, b1).insert(j + 1, b2);
    let pre = bs.subrange(0, j);
    let post = bs.subrange(j + 1, bs.len() as int);
    let mid_old = seq![bs[j]];
    let mid_new = seq![b1, b2];
    bs.update(j, b1).insert_ensures(j + 1, b2);
    assert(bs =~= pre + mid_old + post);
    assert(cur =~= pre + mid_new + post);
    lemma_buckets_concat(pre + mid_old, post);
    lemma_buckets_concat(pre, mid_old);
    lemma_buckets_concat(pre + mid_new, post);
    lemma_buckets_concat(pre, mid_new);
    lemma_buckets_singleton(bs[j]);
    lemma_buckets_pair(b1, b2);
    assert(bucket_colors_ms(pre).add(bucket_colors_ms(mid_new)).add(bucket_colors_ms(post))
        =~= bucket_colors_ms(pre).add(bucket_colors_ms(mid_old)).add(bucket_colors_ms(post)));
}

/// A sequence of non-empty buckets holds at least one color per bucket.
pub proof fn lemma_color_count_ge_len(bs: Seq<Bucket>)
    requires
        forall|j: int| 0 <= j < bs.len() ==> (#[trigger] bs[j]).colors@.len() >= 1,
    ensures
        color_count_total(bs) >= bs.len(),
    decreases bs.len(),
{
    if bs.len() > 0 {
        lemma_color_count_ge_len(bs.drop_last());
    }
}

/// Non-empty buckets whose color count does not exceed the bucket count all
/// hold exactly one color.
pub proof fn lemma_all_singletons(bs: Seq<Bucket>)
    requires
        forall|j: int| 0 <= j < bs.len() ==> (#[trigger] bs[j]).colors@.len() >= 1,
        color_count_total(bs) <= bs.len(),
    ensures
        forall|j: int| 0 <= j < bs.len() ==> (#[trigger] bs[j]).colors@.len() == 1,
    decreases bs.len(),
{
    if bs.len() > 0 {
        lemma_color_count_ge_len(bs.drop_last());
        lemma_all_singletons(bs.drop_last());
        assert forall|j: int| 0 <= j < bs.len() implies (#[trigger] bs[j]).colors@.len() == 1 by {
            if j < bs.len() - 1 {
                assert(bs.drop_last()[j].colors@.len() == 1);
            }
        }
    }
}

/// Splits buckets by median cut until `size` buckets exist or none can be
/// split: each step selects the bucket of greatest total weight among those
/// holding more than one distinct color (earliest such bucket on ties),
/// splits its channel-sorted members at the upper median, rebuilds the two
/// halves, and replaces it by them in place.
pub fn fact(buckets: Vec<Bucket>, size: usize) -> (out: Vec<Bucket>)
    requires
        buckets@.len() >= 1,
        buckets_inv(buckets@),
    ensures
        buckets_inv(out@),
        out@.len() >= 1,
        out@.len() >= buckets@.len(),
        out@.len() <= buckets@.len() || out@.len() <= size,
        buckets@.len() <= size ==> out@.len() <= size,
        out@.len() < size ==> forall|j: int|
            0 <= j < out@.len() ==> (#[trigger] out@[j]).colors@.len() == 1,
        sum_totals(out@) == sum_totals(buckets@),
        bucket_colors_ms(out@) == bucket_colors_ms(buckets@),
        color_count_total(out@) == color_count_total(buckets@),
        buckets@.len() + 1 > size ==> out@ == buckets@,
        color_count_total(buckets@) <= size ==> forall|j: int|
            0 <= j < out@.len() ==> (#[trigger] out@[j]).colors@.len() == 1,
{
    let mut bs = buckets;
    loop
        invariant
            bs@.len() >= 1,
            bs@.len() >= buckets@.len(),
            bs@.len() <= buckets@.len() || bs@.len() <= size,
            buckets@.len() <= size ==> bs@.len() <= size,
            buckets_inv(bs@),
            sum_totals(bs@) == sum_totals(buckets@),
            bucket_colors_ms(bs@) == bucket_colors_ms(buckets@),
            color_count_total(bs@) == color_count_total(buckets@),
            buckets@.len() + 1 > size ==> bs@ == buckets@,
        ensures
            bs@.len() >= size || (forall|j: int|
                0 <= j < bs@.len() ==> (#[trigger] bs@[j]).colors@.len() == 1),
        decreases color_count_total(bs@) - bs@.len(),
    {
        proof {
            lemma_color_count_ge_len(bs@);
        }
        if bs.len() >= size {
            break ;
        }
        let mut count: u64 = 0;
        let mut idx: usize = 0;
        let mut k: usize = 0;
        while k < bs.len()
            invariant
                0 <= k <= bs@.len(),
                bs@.len() >= 1,
                buckets_inv(bs@),
                idx < bs@.len(),
                count == 0 ==> idx == 0 && forall|t: int|
                    0 <= t < k ==> (#[trigger] bs@[t]).colors@.len() == 1,
                count > 0 ==> bs@[idx as int].colors@.len() != 1 && bs@[idx as int].total == count,
            decreases bs@.len() - k,
        {
            if bs[k].total > count && bs[k].colors.len() != 1 {
                idx = k;
                count = bs[k].total;
            } else {
                proof {
                    if count == 0 && bs@[k as int].colors@.len() != 1 {
                        lemma_sum_weights_lower(bs@[k as int].colors@);
                        assert(false);
                    }
                }
            }
            k = k + 1;
        }
        let target_len = bs[idx].colors.len();
        let target_total = bs[idx].total;
        if target_total == 1 || target_len == 1 {
            proof {
                if count > 0 {
                    lemma_sum_weights_lower(bs@[idx as int].colors@);
                    assert(false);
                }
            }
            break ;
        }
        let median = target_len / 2 + target_len % 2;
        proof {
            assert(median == (target_len + 1) / 2);
            assert(1 <= median < target_len);
        }
        let mut c1: Vec<Colors> = Vec::new();
        let mut t: usize = 0;
        while t < median
            invariant
                0 <= t <= median,
                idx < bs@.len(),
                median <= bs@[idx as int].colors@.len(),
                c1@ == bs@[idx as int].colors@.subrange(0, t as int),
            decreases median - t,
        {
            let c = bs[idx].colors[t];
            c1.push(c);
            proof {
                assert(c1@ =~= bs@[idx as int].colors@.subrange(0, t as int + 1));
            }
            t = t + 1;
        }
        let mut c2: Vec<Colors> = Vec::new();
        let mut t2: usize = median;
        while t2 < target_len
            invariant
                median <= t2 <= target_len,
                idx < bs@.len(),
                target_len == bs@[idx as int].colors@.len(),
                c2@ == bs@[idx as int].colors@.subrange(median as int, t2 as int),
            decreases target_len - t2,
        {
            let c = bs[idx].colors[t2];
            c2.push(c);
            proof {
                assert(c2@ =~= bs@[idx as int].colors@.subrange(median as int, t2 as int + 1));
            }
            t2 = t2 + 1;
        }
        let ghost target = bs@[idx as int];
        proof {
            assert(c1@ == target.colors@.subrange(0, median as int));
            assert(c2@ == target.colors@.subrange(median as int, target.colors@.len() as int));
            lemma_sum_weights_split(target.colors@, median as int);
            lemma_sum_weights_nonneg(c1@);
            lemma_sum_weights_nonneg(c2@);
            assert(forall|j: int|
                0 <= j < c1@.len() ==> (#[trigger] c1@[j]) == target.colors@[j]);
            assert(forall|j: int|
                0 <= j < c2@.len() ==> (#[trigger] c2@[j]) == target.colors@[j + median]);
        }
        let b1 = get_total_and_greatest_range_channel(c1);
        let b2 = get_total_and_greatest_range_channel(c2);
        let ghost prev_bs = bs@;
        proof {
            assert(target.colors@.subrange(0, median as int) + target.colors@.subrange(
                median as int,
                target.colors@.len() as int,
            ) =~= target.colors@);
            vstd::seq_lib::lemma_multiset_commutative(
                target.colors@.subrange(0, median as int),
                target.colors@.subrange(median as int, target.colors@.len() as int),
            );
            assert((target.colors@.subrange(0, median as int) + target.colors@.subrange(
                median as int,
                target.colors@.len() as int,
            )).to_multiset() == target.colors@.subrange(0, median as int).to_multiset().add(
                target.colors@.subrange(median as int, target.colors@.len() as int).to_multiset(),
            ));
            assert(b1.colors@.to_multiset() == target.colors@.subrange(
                0,
                median as int,
            ).to_multiset());
            assert(b2.colors@.to_multiset() == target.colors@.subrange(
                median as int,
                target.colors@.len() as int,
            ).to_multiset());
            assert(b1.colors@.to_multiset().add(b2.colors@.to_multiset())
                == target.colors@.to_multiset());
            assert(bucket_inv(target));
            assert(b1.total + b2.total == target.total);
            assert(b1.colors@.len() + b2.colors@.len() == target.colors@.len());
        }
        bs[idx] = b1;
        bs.insert(idx + 1, b2);
        proof {
            lemma_splice(prev_bs, idx as int, b1, b2);
            prev_bs.update(idx as int, b1).insert_ensures(idx as int + 1, b2);
            assert forall|j: int| 0 <= j < bs@.len() implies bucket_inv(#[trigger] bs@[j]) by {
                if j < idx as int {
                    assert(bs@[j] == prev_bs[j]);
                } else if j == idx as int {
                    assert(bs@[j] == b1);
                } else if j == idx as int + 1 {
                    assert(bs@[j] == b2);
                } else {
                    assert(bs@[j] == prev_bs[j - 1]);
                }
            }
            lemma_color_count_ge_len(bs@);
        }
    }
    proof {
        if color_count_total(buckets@) <= size {
            if bs@.len() >= size {
                lemma_all_singletons(bs@);
            }
        }
    }
    bs
}

} // verus!
