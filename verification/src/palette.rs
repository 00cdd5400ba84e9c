//! Palette building and pixel remapping: one weighted-average color per
//! final bucket, a color-to-palette lookup keyed by the 24-bit RGB key, and
//! the rewrite of the pixel buffer that preserves every alpha byte.

use std::collections::HashMap;
use vstd::prelude::*;
use crate::bucket::Bucket;
use crate::bucket::bucket_inv;
use crate::color::Colors;
use crate::color::entry_key;
use crate::color::has_key;
use crate::color::key_at;
use crate::color::key_of;
use crate::color::pixel_count;
use crate::color::sum_weights;
use crate::color::lemma_sum_weights_lower;
use crate::color::lemma_sum_weights_nonneg;
use crate::color::lemma_sum_weights_split;
use crate::partition::buckets_inv;
use crate::partition::bucket_colors_ms;
use crate::partition::lemma_bucket_member;

verus! {

broadcast use
    vstd::std_specs::hash::group_hash_axioms,
    vstd::seq_lib::group_to_multiset_ensures;

/// Weighted sum of the red channel: the sum of `r * weight` over the list.
pub open spec fn sum_channel_r(s: Seq<Colors>) -> int
    decreases s.len(),
{
    if s.len() == 0 {
        0
    } else {
        sum_channel_r(s.drop_last()) + s.last().0 * s.last().3
    }
}

/// Weighted sum of the green channel.
pub open spec fn sum_channel_g(s: Seq<Colors>) -> int
    decreases s.len(),
{
    if s.len() == 0 {
        0
    } else {
        sum_channel_g(s.drop_last()) + s.last().1 * s.last().3
    }
}

/// Weighted sum of the blue channel.
pub open spec fn sum_channel_b(s: Seq<Colors>) -> int
    decreases s.len(),
{
    if s.len() == 0 {
        0
    } else {
        sum_channel_b(s.drop_last()) + s.last().2 * s.last().3
    }
}

/// A weighted average rounded half away from zero: `(sum + total/2) / total`
/// in integer arithmetic.
pub open spec fn avg_round(sum: int, total: int) -> int {
    (sum + total / 2) / total
}

/// `v` is the average color of bucket `b`: each component the weighted
/// channel average over the members, rounded half away from zero.
pub open spec fn is_bucket_avg(v: (u8, u8, u8), b: Bucket) -> bool {
    &&& v.0 == avg_round(sum_channel_r(b.colors@), sum_weights(b.colors@))
    &&& v.1 == avg_round(sum_channel_g(b.colors@), sum_weights(b.colors@))
    &&& v.2 == avg_round(sum_channel_b(b.colors@), sum_weights(b.colors@))
}

/// Every pixel's key is present in the map and the output follows it: the
/// RGB bytes come from the palette entry of the pixel's key, the alpha byte
/// from the input.
pub open spec fn pixels_mapped(data: Seq<u8>, m: Map<u32, (u8, u8, u8)>, out: Seq<u8>) -> bool {
    forall|p: int|
        #![trigger key_at(data, p)]
        0 <= p < pixel_count(data) ==> {
            &&& m.contains_key(key_at(data, p))
            &&& out[4 * p] == m[key_at(data, p)].0
            &&& out[4 * p + 1] == m[key_at(data, p)].1
            &&& out[4 * p + 2] == m[key_at(data, p)].2
            &&& out[4 * p + 3] == data[4 * p + 3]
        }
}

/// The palette lookup of a bucket list: every member's key is present, and
/// every present key maps to the average color of a bucket holding it.
pub open spec fn is_palette_of(bs: Seq<Bucket>, m: Map<u32, (u8, u8, u8)>) -> bool {
    &&& forall|j: int, t: int|
        #![trigger bs[j].colors@[t]]
        0 <= j < bs.len() && 0 <= t < bs[j].colors@.len() ==> m.contains_key(
            key_of(bs[j].colors@[t]),
        )
    &&& forall|k: u32|
        #[trigger] m.contains_key(k) ==> exists|j: int|
            0 <= j < bs.len() && has_key((#[trigger] bs[j]).colors@, k) && is_bucket_avg(
                m[k],
                bs[j],
            )
}

/// Channel sums lie between 0 and 255 times the weight sum.
pub proof fn lemma_sum_channel_bounds(s: Seq<Colors>)
    ensures
        0 <= sum_channel_r(s) <= 255 * sum_weights(s),
        0 <= sum_channel_g(s) <= 255 * sum_weights(s),
        0 <= sum_channel_b(s) <= 255 * sum_weights(s),
    decreases s.len(),
{
    if s.len() > 0 {
        lemma_sum_channel_bounds(s.drop_last());
        let c = s.last();
        assert((c.0 as int) * (c.3 as int) <= 255 * (c.3 as int) && 0 <= (c.0 as int) * (
        c.3 as int)) by (nonlinear_arith)
            requires
                c.0 <= 255,
                c.3 >= 0,
        ;
        assert((c.1 as int) * (c.3 as int) <= 255 * (c.3 as int) && 0 <= (c.1 as int) * (
        c.3 as int)) by (nonlinear_arith)
            requires
                c.1 <= 255,
                c.3 >= 0,
        ;
        assert((c.2 as int) * (c.3 as int) <= 255 * (c.3 as int) && 0 <= (c.2 as int) * (
        c.3 as int)) by (nonlinear_arith)
            requires
                c.2 <= 255,
                c.3 >= 0,
        ;
    }
}

/// A rounded weighted average of byte values stays within 0..=255.
pub proof fn lemma_avg_round_bounds(sum: int, total: int)
    requires
        0 < total,
        0 <= sum <= 255 * total,
    ensures
        0 <= avg_round(sum, total) <= 255,
{
    assert(0 <= total / 2 < total);
    vstd::arithmetic::div_mod::lemma_div_pos_is_pos(sum + total / 2, total);
    vstd::arithmetic::div_mod::lemma_div_is_ordered(sum + total / 2, 255 * total + total / 2, total);
    vstd::arithmetic::div_mod::lemma_div_multiples_vanish_fancy(255, total / 2, total);
    assert(total * 255 == 255 * total);
    assert((total * 255 + total / 2) / total == 255);
}

/// A single color averages to itself.
pub proof fn lemma_average_singleton(c: Colors)
    requires
        c.3 >= 1,
    ensures
        avg_round(sum_channel_r(seq![c]), sum_weights(seq![c])) == c.0,
        avg_round(sum_channel_g(seq![c]), sum_weights(seq![c])) == c.1,
        avg_round(sum_channel_b(seq![c]), sum_weights(seq![c])) == c.2,
{
    let s = seq![c];
    let w = c.3 as int;
    assert(s.drop_last() =~= Seq::<Colors>::empty());
    assert(sum_weights(Seq::<Colors>::empty()) == 0);
    assert(sum_channel_r(Seq::<Colors>::empty()) == 0);
    assert(sum_channel_g(Seq::<Colors>::empty()) == 0);
    assert(sum_channel_b(Seq::<Colors>::empty()) == 0);
    assert(s.last() == c);
    assert(sum_weights(s) == w);
    assert(sum_channel_r(s) == c.0 * w);
    assert(sum_channel_g(s) == c.1 * w);
    assert(sum_channel_b(s) == c.2 * w);
    assert(0 <= w / 2 < w);
    vstd::arithmetic::div_mod::lemma_div_multiples_vanish_fancy(c.0 as int, w / 2, w);
    vstd::arithmetic::div_mod::lemma_div_multiples_vanish_fancy(c.1 as int, w / 2, w);
    vstd::arithmetic::div_mod::lemma_div_multiples_vanish_fancy(c.2 as int, w / 2, w);
    assert(c.0 * w == w * (c.0 as int)) by (nonlinear_arith);
    assert(c.1 * w == w * (c.1 as int)) by (nonlinear_arith);
    assert(c.2 * w == w * (c.2 as int)) by (nonlinear_arith);
}

/// Removing one entry subtracts its products from the channel sums.
proof fn lemma_sum_channels_remove(s: Seq<Colors>, i: int)
    requires
        0 <= i < s.len(),
    ensures
        sum_channel_r(s.remove(i)) == sum_channel_r(s) - s[i].0 * s[i].3,
        sum_channel_g(s.remove(i)) == sum_channel_g(s) - s[i].1 * s[i].3,
        sum_channel_b(s.remove(i)) == sum_channel_b(s) - s[i].2 * s[i].3,
    decreases s.len(),
{
    if i == s.len() - 1 {
        assert(s.remove(i) =~= s.drop_last());
    } else {
        assert(s.remove(i).drop_last() =~= s.drop_last().remove(i));
        assert(s.remove(i).last() == s.last());
        lemma_sum_channels_remove(s.drop_last(), i);
    }
}

/// Channel sums depend only on the multiset of entries.
pub proof fn lemma_sum_channels_ms(a: Seq<Colors>, b: Seq<Colors>)
    requires
        a.to_multiset() == b.to_multiset(),
    ensures
        sum_channel_r(a) == sum_channel_r(b),
        sum_channel_g(a) == sum_channel_g(b),
        sum_channel_b(a) == sum_channel_b(b),
    decreases a.len(),
{
    a.to_multiset_ensures();
    b.to_multiset_ensures();
    if a.len() == 0 {
        assert(b.len() == 0);
    } else {
        let x = a.last();
        assert(a.drop_last().push(x) =~= a);
        assert(a.contains(x));
        assert(a.to_multiset().count(x) > 0);
        assert(b.to_multiset().count(x) > 0);
        assert(b.contains(x));
        let i = choose|i: int| 0 <= i < b.len() && b[i] == x;
        lemma_sum_channels_remove(b, i);
        assert(a.drop_last().to_multiset() =~= b.remove(i).to_multiset());
        lemma_sum_channels_ms(a.drop_last(), b.remove(i));
    }
}

/// Computes the weighted average color of a color list, each channel rounded
/// half away from zero.
pub fn average_color(colors: Vec<Colors>) -> (result: (u8, u8, u8))
    requires
        colors@.len() >= 1,
        forall|j: int| 0 <= j < colors@.len() ==> (#[trigger] colors@[j]).3 >= 1,
        sum_weights(colors@) <= u64::MAX,
    ensures
        result.0 == avg_round(sum_channel_r(colors@), sum_weights(colors@)),
        result.1 == avg_round(sum_channel_g(colors@), sum_weights(colors@)),
        result.2 == avg_round(sum_channel_b(colors@), sum_weights(colors@)),
{
    let mut count: u128 = 0;
    let mut r: u128 = 0;
    let mut g: u128 = 0;
    let mut b: u128 = 0;
    let mut i: usize = 0;
    while i < colors.len()
        invariant
            0 <= i <= colors@.len(),
            forall|j: int| 0 <= j < colors@.len() ==> (#[trigger] colors@[j]).3 >= 1,
            sum_weights(colors@) <= u64::MAX,
            count == sum_weights(colors@.subrange(0, i as int)),
            r == sum_channel_r(colors@.subrange(0, i as int)),
            g == sum_channel_g(colors@.subrange(0, i as int)),
            b == sum_channel_b(colors@.subrange(0, i as int)),
        decreases colors@.len() - i,
    {
        let c = colors[i];
        proof {
            assert(colors@.subrange(0, i as int + 1).drop_last() =~= colors@.subrange(0, i as int));
            assert(colors@.subrange(0, i as int + 1).last() == c);
            lemma_sum_weights_split(colors@, i as int + 1);
            lemma_sum_weights_nonneg(colors@.subrange(i as int + 1, colors@.len() as int));
            lemma_sum_channel_bounds(colors@.subrange(0, i as int + 1));
            lemma_sum_weights_nonneg(colors@.subrange(0, i as int + 1));
        }
        r = r + (c.0 as u128) * (c.3 as u128);
        g = g + (c.1 as u128) * (c.3 as u128);
        b = b + (c.2 as u128) * (c.3 as u128);
        count = count + c.3 as u128;
        i = i + 1;
    }
    proof {
        assert(colors@.subrange(0, colors@.len() as int) =~= colors@);
        lemma_sum_weights_lower(colors@);
        lemma_sum_channel_bounds(colors@);
        lemma_avg_round_bounds(sum_channel_r(colors@), sum_weights(colors@));
        lemma_avg_round_bounds(sum_channel_g(colors@), sum_weights(colors@));
        lemma_avg_round_bounds(sum_channel_b(colors@), sum_weights(colors@));
    }
    let result_r = (r + count / 2) / count;
    let result_g = (g + count / 2) / count;
    let result_b = (b + count / 2) / count;
    (result_r as u8, result_g as u8, result_b as u8)
}

/// Builds the color-to-palette lookup: every member of every bucket gets an
/// entry keyed by its 24-bit RGB key, mapped to its bucket's average color.
pub fn build_palette(buckets: &Vec<Bucket>) -> (pm: HashMap<u32, (u8, u8, u8)>)
    requires
        buckets_inv(buckets@),
    ensures
        is_palette_of(buckets@, pm@),
{
    let mut pm: HashMap<u32, (u8, u8, u8)> = HashMap::new();
    let mut j: usize = 0;
    while j < buckets.len()
        invariant
            0 <= j <= buckets@.len(),
            buckets_inv(buckets@),
            forall|j2: int, t: int|
                #![trigger buckets@[j2].colors@[t]]
                0 <= j2 < j && 0 <= t < buckets@[j2].colors@.len() ==> pm@.contains_key(
                    key_of(buckets@[j2].colors@[t]),
                ),
            forall|k: u32|
                #[trigger] pm@.contains_key(k) ==> exists|j2: int|
                    0 <= j2 < j && has_key((#[trigger] buckets@[j2]).colors@, k) && is_bucket_avg(
                        pm@[k],
                        buckets@[j2],
                    ),
        decreases buckets@.len() - j,
    {
        let bl = buckets[j].colors.len();
        let mut cs: Vec<Colors> = Vec::new();
        let mut t: usize = 0;
        while t < bl
            invariant
                0 <= t <= bl,
                j < buckets@.len(),
                bl == buckets@[j as int].colors@.len(),
                cs@ == buckets@[j as int].colors@.subrange(0, t as int),
            decreases bl - t,
        {
            let c = buckets[j].colors[t];
            cs.push(c);
            proof {
                assert(cs@ =~= buckets@[j as int].colors@.subrange(0, t as int + 1));
            }
            t = t + 1;
        }
        proof {
            assert(cs@ =~= buckets@[j as int].colors@);
            assert(bucket_inv(buckets@[j as int]));
            assert(sum_weights(cs@) == buckets@[j as int].total);
        }
        let palette = average_color(cs);
        let ghost mid_pm = pm@;
        let mut t2: usize = 0;
        while t2 < bl
            invariant
                0 <= t2 <= bl,
                j < buckets@.len(),
                buckets_inv(buckets@),
                bl == buckets@[j as int].colors@.len(),
                is_bucket_avg(palette, buckets@[j as int]),
                forall|j2: int, t: int|
                    #![trigger buckets@[j2].colors@[t]]
                    0 <= j2 < j && 0 <= t < buckets@[j2].colors@.len() ==> pm@.contains_key(
                        key_of(buckets@[j2].colors@[t]),
                    ),
                forall|t: int|
                    0 <= t < t2 ==> pm@.contains_key(key_of(#[trigger] buckets@[j as int].colors@[t])),
                forall|k: u32|
                    #[trigger] pm@.contains_key(k) ==> exists|j2: int|
                        0 <= j2 <= j && j2 < buckets@.len() && has_key(
                            (#[trigger] buckets@[j2]).colors@,
                            k,
                        ) && is_bucket_avg(pm@[k], buckets@[j2]),
            decreases bl - t2,
        {
            let c = buckets[j].colors[t2];
            let key = entry_key(c);
            pm.insert(key, palette);
            proof {
                assert(has_key(buckets@[j as int].colors@, key));
            }
            t2 = t2 + 1;
        }
        j = j + 1;
    }
    pm
}

/// Rewrites the pixel buffer: each pixel's RGB is replaced by the palette
/// color of its key, the alpha byte copied unchanged.
pub fn remap_image(data: &Vec<u8>, pm: &HashMap<u32, (u8, u8, u8)>) -> (out: Vec<u8>)
    requires
        data@.len() % 4 == 0,
        forall|p: int|
            0 <= p < pixel_count(data@) ==> pm@.contains_key(#[trigger] key_at(data@, p)),
    ensures
        out@.len() == data@.len(),
        pixels_mapped(data@, pm@, out@),
{
    let mut out: Vec<u8> = Vec::new();
    let n = data.len() / 4;
    let mut p: usize = 0;
    while p < n
        invariant
            data@.len() % 4 == 0,
            data@.len() <= usize::MAX,
            n == data@.len() / 4,
            0 <= p <= n,
            forall|q: int|
                0 <= q < pixel_count(data@) ==> pm@.contains_key(#[trigger] key_at(data@, q)),
            out@.len() == 4 * p,
            forall|q: int|
                #![trigger key_at(data@, q)]
                0 <= q < p ==> {
                    &&& out@[4 * q] == pm@[key_at(data@, q)].0
                    &&& out@[4 * q + 1] == pm@[key_at(data@, q)].1
                    &&& out@[4 * q + 2] == pm@[key_at(data@, q)].2
                    &&& out@[4 * q + 3] == data@[4 * q + 3]
                },
        decreases n - p,
    {
        proof {
            vstd::arithmetic::div_mod::lemma_fundamental_div_mod(data@.len() as int, 4);
            assert(4 * (p as int) + 4 <= data@.len());
        }
        let i = 4 * p;
        let r = data[i];
        let g = data[i + 1];
        let b = data[i + 2];
        let a = data[i + 3];
        let key = crate::color::color_key(r, g, b);
        proof {
            assert(key_at(data@, p as int) == key);
        }
        match pm.get(&key) {
            Some(color) => {
                proof {
                    assert(pm@.contains_key(key) && pm@[key] == *color);
                }
                out.push(color.0);
                out.push(color.1);
                out.push(color.2);
                out.push(a);
            },
            None => {
                proof {
                    assert(pm@.contains_key(key));
                    assert(false);
                }
                vstd::pervasive::unreached::<()>();
            },
        }
        p = p + 1;
    }
    proof {
        vstd::arithmetic::div_mod::lemma_fundamental_div_mod(data@.len() as int, 4);
    }
    out
}

} // verus!
