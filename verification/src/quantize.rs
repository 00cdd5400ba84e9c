//! The entry point: validates the input, counts colors, partitions them by
//! median cut, builds the palette and remaps the pixels.

use std::collections::HashMap;
use vstd::prelude::*;
use crate::bucket::Bucket;
use crate::bucket::bucket_inv;
use crate::bucket::get_total_and_greatest_range_channel;
use crate::color::Colors;
use crate::color::calculate_count;
use crate::color::has_key;
use crate::color::is_color_count;
use crate::color::key_at;
use crate::color::key_of;
use crate::color::key_of_rgb;
use crate::color::key_count;
use crate::color::pixel_count;
use crate::color::sum_weights;
use crate::color::lemma_key_count_witness;
use crate::color::lemma_key_injective;
use crate::palette::avg_round;
use crate::palette::build_palette;
use crate::palette::is_bucket_avg;
use crate::palette::is_palette_of;
use crate::palette::pixels_mapped;
use crate::palette::remap_image;
use crate::palette::sum_channel_r;
use crate::palette::sum_channel_g;
use crate::palette::sum_channel_b;
use crate::palette::lemma_average_singleton;
use crate::palette::lemma_sum_channels_ms;
use crate::partition::bucket_colors_ms;
use crate::partition::buckets_inv;
use crate::partition::color_count_total;
use crate::partition::fact;
use crate::partition::lemma_bucket_member;
use crate::partition::lemma_buckets_singleton;

verus! {

broadcast use
    vstd::seq_lib::group_to_multiset_ensures,
    vstd::multiset::group_multiset_axioms;

/// Why `reduce` rejects an input.
#[derive(Clone, Copy, PartialEq, Eq, Structural, Debug)]
pub enum QuantizeError {
    /// The buffer length is not a multiple of 4 bytes per pixel.
    InvalidInput,
    /// The requested palette size is 0, so no palette is possible.
    DegenerateSize,
}

/// The set of distinct RGB keys among a packed buffer's pixels.
pub open spec fn image_keys(data: Seq<u8>) -> Set<u32> {
    Set::new(|k: u32| exists|p: int| 0 <= p < pixel_count(data) && key_at(data, p) == k)
}

/// The alpha byte of pixel `p`.
pub open spec fn alpha_at(data: Seq<u8>, p: int) -> u8 {
    data[4 * p + 3]
}

/// Pixel `p` of `out` carries the weighted average color of the color list
/// `counts`.
pub open spec fn pixel_is_avg(out: Seq<u8>, p: int, counts: Seq<Colors>) -> bool {
    &&& out[4 * p] == avg_round(sum_channel_r(counts), sum_weights(counts))
    &&& out[4 * p + 1] == avg_round(sum_channel_g(counts), sum_weights(counts))
    &&& out[4 * p + 2] == avg_round(sum_channel_b(counts), sum_weights(counts))
}

/// Every pixel of `out` carries the weighted average color of the color
/// list `counts`: a uniform single-color output.
pub open spec fn uniform_avg_output(data: Seq<u8>, out: Seq<u8>, counts: Seq<Colors>) -> bool {
    forall|p: int| 0 <= p < pixel_count(data) ==> #[trigger] pixel_is_avg(out, p, counts)
}

/// The key a bucket's average color carries.
pub open spec fn avg_key(b: Bucket) -> u32 {
    key_of_rgb(
        avg_round(sum_channel_r(b.colors@), sum_weights(b.colors@)) as u8,
        avg_round(sum_channel_g(b.colors@), sum_weights(b.colors@)) as u8,
        avg_round(sum_channel_b(b.colors@), sum_weights(b.colors@)) as u8,
    )
}

/// The whole pipeline, as a relation: `counts` is the image's weighted
/// color count, `bs` a well-formed partition of exactly those colors into
/// at most `size` buckets (fewer only when every bucket already holds a
/// single color), `m` the palette over the partition, and `out` the bytes
/// that remapping through `m` writes.
pub open spec fn quantizes(
    data: Seq<u8>,
    size: int,
    out: Seq<u8>,
    counts: Seq<Colors>,
    bs: Seq<Bucket>,
    m: Map<u32, (u8, u8, u8)>,
) -> bool {
    &&& is_color_count(data, counts)
    &&& buckets_inv(bs)
    &&& bucket_colors_ms(bs) == counts.to_multiset()
    &&& 1 <= bs.len() <= size
    &&& (bs.len() < size ==> forall|j: int|
        0 <= j < bs.len() ==> (#[trigger] bs[j]).colors@.len() == 1)
    &&& is_palette_of(bs, m)
    &&& out.len() == data.len()
    &&& pixels_mapped(data, m, out)
}

/// Some weighted color count, median-cut partition and palette of the image
/// produce `out`.
pub open spec fn quantized_output(data: Seq<u8>, size: int, out: Seq<u8>) -> bool {
    exists|counts: Seq<Colors>, bs: Seq<Bucket>, m: Map<u32, (u8, u8, u8)>|
        #![trigger is_color_count(data, counts), is_palette_of(bs, m)]
        quantizes(data, size, out, counts, bs, m)
}

/// A bucket member is counted by the partition's multiset.
proof fn lemma_bucket_member_count(bs: Seq<Bucket>, j: int, t: int)
    requires
        0 <= j < bs.len(),
        0 <= t < bs[j].colors@.len(),
    ensures
        bucket_colors_ms(bs).count(bs[j].colors@[t]) > 0,
    decreases bs.len(),
{
    let c = bs[j].colors@[t];
    if j == bs.len() - 1 {
        bs.last().colors@.to_multiset_ensures();
        assert(bs.last().colors@.contains(c));
        assert(bs.last().colors@.to_multiset().count(c) > 0);
    } else {
        lemma_bucket_member_count(bs.drop_last(), j, t);
        assert(bs.drop_last()[j] == bs[j]);
    }
}

/// A key present among the weighted colors is a key of the palette map.
proof fn lemma_counted_key_in_palette(
    counts: Seq<Colors>,
    bs: Seq<Bucket>,
    m: Map<u32, (u8, u8, u8)>,
    k: u32,
)
    requires
        has_key(counts, k),
        bucket_colors_ms(bs) == counts.to_multiset(),
        is_palette_of(bs, m),
    ensures
        m.contains_key(k),
{
    counts.to_multiset_ensures();
    let t = choose|t: int| 0 <= t < counts.len() && key_of(counts[t]) == k;
    let c = counts[t];
    assert(counts.contains(c));
    assert(counts.to_multiset().count(c) > 0);
    lemma_bucket_member(bs, c);
    let (j, t2) = choose|j: int, t2: int|
        #![trigger bs[j].colors@[t2]]
        0 <= j < bs.len() && 0 <= t2 < bs[j].colors@.len() && bs[j].colors@[t2] == c;
    assert(m.contains_key(key_of(bs[j].colors@[t2])));
}

/// A key of the palette map is the key of some weighted color.
proof fn lemma_palette_key_counted(
    counts: Seq<Colors>,
    bs: Seq<Bucket>,
    m: Map<u32, (u8, u8, u8)>,
    k: u32,
)
    requires
        m.contains_key(k),
        bucket_colors_ms(bs) == counts.to_multiset(),
        is_palette_of(bs, m),
    ensures
        has_key(counts, k),
{
    counts.to_multiset_ensures();
    let j = choose|j: int|
        0 <= j < bs.len() && has_key((#[trigger] bs[j]).colors@, k) && is_bucket_avg(m[k], bs[j]);
    let t = choose|t: int| 0 <= t < bs[j].colors@.len() && key_of(bs[j].colors@[t]) == k;
    let c = bs[j].colors@[t];
    lemma_bucket_member_count(bs, j, t);
    assert(counts.to_multiset().count(c) > 0);
    assert(counts.contains(c));
    let t3 = choose|t3: int| 0 <= t3 < counts.len() && counts[t3] == c;
    assert(key_of(counts[t3]) == k);
}

/// Coverage: with a partition holding exactly the image's weighted colors
/// and a palette over it, every pixel's key is in the palette map, and every
/// key of the map is the key of some pixel.
#[verifier::rlimit(50)]
pub proof fn lemma_palette_coverage(
    data: Seq<u8>,
    counts: Seq<Colors>,
    bs: Seq<Bucket>,
    m: Map<u32, (u8, u8, u8)>,
)
    requires
        data.len() % 4 == 0,
        is_color_count(data, counts),
        bucket_colors_ms(bs) == counts.to_multiset(),
        is_palette_of(bs, m),
    ensures
        forall|p: int| 0 <= p < pixel_count(data) ==> m.contains_key(#[trigger] key_at(data, p)),
        forall|k: u32|
            #[trigger] m.contains_key(k) ==> exists|p: int|
                0 <= p < pixel_count(data) && key_at(data, p) == k,
{
    assert forall|p: int| 0 <= p < pixel_count(data) implies m.contains_key(
        #[trigger] key_at(data, p),
    ) by {
        lemma_counted_key_in_palette(counts, bs, m, key_at(data, p));
    }
    assert forall|k: u32| #[trigger] m.contains_key(k) implies exists|p: int|
        0 <= p < pixel_count(data) && key_at(data, p) == k by {
        lemma_palette_key_counted(counts, bs, m, k);
        let t = choose|t: int| 0 <= t < counts.len() && key_of(counts[t]) == k;
        assert(counts[t].3 == key_count(data, pixel_count(data), key_of(counts[t])));
        assert(counts[t].3 >= 1);
        lemma_key_count_witness(data, pixel_count(data), k);
    }
}

/// Distinct-key cardinality: the image's key set is finite and holds
/// exactly one key per entry of the weighted color count.
#[verifier::rlimit(50)]
pub proof fn lemma_counts_key_card(data: Seq<u8>, counts: Seq<Colors>)
    requires
        data.len() % 4 == 0,
        is_color_count(data, counts),
    ensures
        image_keys(data).finite(),
        image_keys(data).len() == counts.len(),
{
    broadcast use vstd::set::group_set_axioms, vstd::seq_lib::seq_to_set_is_finite;

    let ks = Seq::new(counts.len() as nat, |j: int| key_of(counts[j]));
    assert forall|i: int, j: int|
        0 <= i < ks.len() && 0 <= j < ks.len() && i != j implies ks[i] != ks[j] by {
        if i < j {
            assert(key_of(counts[i]) < key_of(counts[j]));
        } else {
            assert(key_of(counts[j]) < key_of(counts[i]));
        }
    }
    assert(ks.no_duplicates());
    ks.unique_seq_to_set();
    assert forall|k: u32| #[trigger] image_keys(data).contains(k) implies ks.to_set().contains(
        k,
    ) by {
        let p = choose|p: int| 0 <= p < pixel_count(data) && key_at(data, p) == k;
        assert(has_key(counts, key_at(data, p)));
        let j = choose|j: int| 0 <= j < counts.len() && key_of(counts[j]) == k;
        assert(ks[j] == k);
        assert(ks.contains(k));
    }
    assert forall|k: u32| #[trigger] ks.to_set().contains(k) implies image_keys(data).contains(
        k,
    ) by {
        assert(ks.contains(k));
        let j = choose|j: int| 0 <= j < ks.len() && ks[j] == k;
        assert(counts[j].3 == key_count(data, pixel_count(data), key_of(counts[j])));
        assert(counts[j].3 >= 1);
        lemma_key_count_witness(data, pixel_count(data), k);
    }
    assert(ks.to_set() =~= image_keys(data));
}

/// Palette bound: the distinct colors of the remapped output are at most
/// one per bucket.
#[verifier::rlimit(50)]
pub proof fn lemma_palette_bound(
    data: Seq<u8>,
    bs: Seq<Bucket>,
    m: Map<u32, (u8, u8, u8)>,
    out: Seq<u8>,
)
    requires
        data.len() % 4 == 0,
        out.len() == data.len(),
        is_palette_of(bs, m),
        pixels_mapped(data, m, out),
    ensures
        image_keys(out).finite(),
        image_keys(out).len() <= bs.len(),
{
    broadcast use vstd::set::group_set_axioms, vstd::seq_lib::seq_to_set_is_finite;

    let avgs = Seq::new(bs.len() as nat, |j: int| avg_key(bs[j]));
    assert forall|k: u32| #[trigger] image_keys(out).contains(k) implies avgs.to_set().contains(
        k,
    ) by {
        let p = choose|p: int| 0 <= p < pixel_count(out) && key_at(out, p) == k;
        assert(pixel_count(out) == pixel_count(data));
        let k2 = key_at(data, p);
        assert(m.contains_key(k2));
        let j = choose|j: int|
            0 <= j < bs.len() && has_key((#[trigger] bs[j]).colors@, k2) && is_bucket_avg(
                m[k2],
                bs[j],
            );
        assert(key_at(out, p) == key_of_rgb(m[k2].0, m[k2].1, m[k2].2));
        assert(avgs[j] == k);
        assert(avgs.contains(k));
    }
    assert(image_keys(out).subset_of(avgs.to_set()));
    vstd::set_lib::lemma_len_subset(image_keys(out), avgs.to_set());
    avgs.lemma_cardinality_of_set();
}

/// Pixels with equal input RGB (equal key) get equal output RGB.
proof fn lemma_rgb_consistent(data: Seq<u8>, m: Map<u32, (u8, u8, u8)>, out: Seq<u8>)
    requires
        pixels_mapped(data, m, out),
    ensures
        forall|p: int, q: int|
            #![trigger key_at(data, p), key_at(data, q)]
            0 <= p < pixel_count(data) && 0 <= q < pixel_count(data) && key_at(data, p) == key_at(
                data,
                q,
            ) ==> out[4 * p] == out[4 * q] && out[4 * p + 1] == out[4 * q + 1] && out[4 * p + 2]
                == out[4 * q + 2],
{
}

/// The palette entry of a key, when every bucket holds one color, is the
/// key's own RGB triple.
proof fn lemma_identity_value(
    bs: Seq<Bucket>,
    m: Map<u32, (u8, u8, u8)>,
    k: u32,
    r: u8,
    g: u8,
    b: u8,
)
    requires
        forall|j: int, t: int|
            #![trigger bs[j].colors@[t]]
            0 <= j < bs.len() && 0 <= t < bs[j].colors@.len() ==> bs[j].colors@[t].3 >= 1,
        forall|j: int| 0 <= j < bs.len() ==> (#[trigger] bs[j]).colors@.len() == 1,
        is_palette_of(bs, m),
        m.contains_key(k),
        key_of_rgb(r, g, b) == k,
    ensures
        m[k] == (r, g, b),
{
    let j = choose|j: int|
        0 <= j < bs.len() && has_key((#[trigger] bs[j]).colors@, k) && is_bucket_avg(m[k], bs[j]);
    let t = choose|t: int| 0 <= t < bs[j].colors@.len() && key_of(bs[j].colors@[t]) == k;
    let c = bs[j].colors@[t];
    assert(t == 0);
    assert(bs[j].colors@ =~= seq![c]);
    assert(c.3 >= 1);
    lemma_average_singleton(c);
    assert(m[k].0 == c.0 && m[k].1 == c.1 && m[k].2 == c.2);
    lemma_key_injective(c.0, c.1, c.2, r, g, b);
}

/// Identity on a wide enough palette: with every final bucket holding a
/// single color, remapping writes every pixel back unchanged.
#[verifier::rlimit(50)]
pub proof fn lemma_identity_output(
    data: Seq<u8>,
    bs: Seq<Bucket>,
    m: Map<u32, (u8, u8, u8)>,
    out: Seq<u8>,
)
    requires
        data.len() % 4 == 0,
        forall|j: int, t: int|
            #![trigger bs[j].colors@[t]]
            0 <= j < bs.len() && 0 <= t < bs[j].colors@.len() ==> bs[j].colors@[t].3 >= 1,
        forall|j: int| 0 <= j < bs.len() ==> (#[trigger] bs[j]).colors@.len() == 1,
        is_palette_of(bs, m),
        out.len() == data.len(),
        pixels_mapped(data, m, out),
    ensures
        out == data,
{
    assert forall|i: int| 0 <= i < data.len() implies out[i] == data[i] by {
        vstd::arithmetic::div_mod::lemma_fundamental_div_mod(i, 4);
        vstd::arithmetic::div_mod::lemma_fundamental_div_mod(data.len() as int, 4);
        let p = i / 4;
        assert(0 <= p < pixel_count(data));
        let k = key_at(data, p);
        if i % 4 != 3 {
            lemma_identity_value(bs, m, k, data[4 * p], data[4 * p + 1], data[4 * p + 2]);
        }
    }
    assert(out =~= data);
}

/// With a single bucket, every palette entry is the weighted average of
/// all distinct source colors.
pub proof fn lemma_uniform_value(counts: Seq<Colors>, b0: Bucket, m: Map<u32, (u8, u8, u8)>, k: u32)
    requires
        b0.colors@.to_multiset() == counts.to_multiset(),
        is_palette_of(seq![b0], m),
        m.contains_key(k),
    ensures
        m[k].0 == avg_round(sum_channel_r(counts), sum_weights(counts)),
        m[k].1 == avg_round(sum_channel_g(counts), sum_weights(counts)),
        m[k].2 == avg_round(sum_channel_b(counts), sum_weights(counts)),
{
    lemma_sum_channels_ms(b0.colors@, counts);
    crate::partition::lemma_sum_weights_ms(b0.colors@, counts);
    let bs = seq![b0];
    let j = choose|j: int|
        0 <= j < bs.len() && has_key((#[trigger] bs[j]).colors@, k) && is_bucket_avg(m[k], bs[j]);
    assert(j == 0);
    assert(bs[0] == b0);
}

/// Single-bucket remapping paints every pixel with the weighted average of
/// all distinct source colors.
#[verifier::rlimit(50)]
pub proof fn lemma_uniform_output(
    data: Seq<u8>,
    counts: Seq<Colors>,
    b0: Bucket,
    m: Map<u32, (u8, u8, u8)>,
    out: Seq<u8>,
)
    requires
        data.len() % 4 == 0,
        out.len() == data.len(),
        b0.colors@.to_multiset() == counts.to_multiset(),
        is_palette_of(seq![b0], m),
        pixels_mapped(data, m, out),
    ensures
        uniform_avg_output(data, out, counts),
{
    assert forall|p: int| 0 <= p < pixel_count(data) implies #[trigger] pixel_is_avg(
        out,
        p,
        counts,
    ) by {
        lemma_uniform_value(counts, b0, m, key_at(data, p));
    }
}

/// Remapped output preserves every alpha byte.
proof fn lemma_alpha_preserved(data: Seq<u8>, out: Seq<u8>, m: Map<u32, (u8, u8, u8)>)
    requires
        pixels_mapped(data, m, out),
    ensures
        forall|p: int|
            0 <= p < pixel_count(data) ==> #[trigger] alpha_at(out, p) == alpha_at(data, p),
{
    assert forall|p: int| 0 <= p < pixel_count(data) implies #[trigger] alpha_at(out, p)
        == alpha_at(data, p) by {
        let k = key_at(data, p);
        assert(out[4 * p + 3] == data[4 * p + 3]);
    }
}

/// Every member of every well-formed bucket has weight at least 1.
proof fn lemma_weights_from_inv(bs: Seq<Bucket>)
    requires
        buckets_inv(bs),
    ensures
        forall|j: int, t: int|
            #![trigger bs[j].colors@[t]]
            0 <= j < bs.len() && 0 <= t < bs[j].colors@.len() ==> bs[j].colors@[t].3 >= 1,
{
    assert forall|j: int, t: int|
        #![trigger bs[j].colors@[t]]
        0 <= j < bs.len() && 0 <= t < bs[j].colors@.len() implies bs[j].colors@[t].3 >= 1 by {
        assert(bucket_inv(bs[j]));
    }
}

/// Packages the stages' facts as a quantized-output witness.
#[verifier::rlimit(50)]
proof fn lemma_quantized_intro(
    data: Seq<u8>,
    size: int,
    counts: Seq<Colors>,
    bs: Seq<Bucket>,
    m: Map<u32, (u8, u8, u8)>,
    out: Seq<u8>,
)
    requires
        is_color_count(data, counts),
        buckets_inv(bs),
        bucket_colors_ms(bs) == counts.to_multiset(),
        1 <= bs.len() <= size,
        bs.len() < size ==> forall|j: int|
            0 <= j < bs.len() ==> (#[trigger] bs[j]).colors@.len() == 1,
        is_palette_of(bs, m),
        out.len() == data.len(),
        pixels_mapped(data, m, out),
    ensures
        quantized_output(data, size, out),
{
    assert(quantizes(data, size, out, counts, bs, m));
    assert(quantized_output(data, size, out));
}

/// A palette wide enough for every distinct color writes the input back
/// unchanged: the partition degenerates to singletons and each one averages
/// to its own color.
#[verifier::rlimit(50)]
proof fn lemma_identity_for_wide_palette(
    data: Seq<u8>,
    counts: Seq<Colors>,
    bs: Seq<Bucket>,
    m: Map<u32, (u8, u8, u8)>,
    out: Seq<u8>,
    size: int,
)
    requires
        data.len() % 4 == 0,
        buckets_inv(bs),
        color_count_total(bs) == counts.len(),
        counts.len() <= size,
        bs.len() <= size,
        bs.len() < size ==> forall|j: int|
            0 <= j < bs.len() ==> (#[trigger] bs[j]).colors@.len() == 1,
        is_palette_of(bs, m),
        out.len() == data.len(),
        pixels_mapped(data, m, out),
    ensures
        out == data,
{
    if bs.len() >= size {
        assert(color_count_total(bs) <= bs.len());
        assert forall|j: int| 0 <= j < bs.len() implies (#[trigger] bs[j]).colors@.len() >= 1 by {
            assert(bucket_inv(bs[j]));
        }
        crate::partition::lemma_all_singletons(bs);
    }
    lemma_weights_from_inv(bs);
    lemma_identity_output(data, bs, m, out);
}

/// Builds the palette for a partition of the image's weighted colors and
/// remaps the pixel buffer through it.
#[verifier::rlimit(50)]
fn palette_and_remap(
    data: &Vec<u8>,
    buckets: &Vec<Bucket>,
    Ghost(counts): Ghost<Seq<Colors>>,
) -> (out: Vec<u8>)
    requires
        data@.len() % 4 == 0,
        is_color_count(data@, counts),
        buckets_inv(buckets@),
        bucket_colors_ms(buckets@) == counts.to_multiset(),
    ensures
        out@.len() == data@.len(),
        exists|m: Map<u32, (u8, u8, u8)>|
            #![trigger is_palette_of(buckets@, m)]
            is_palette_of(buckets@, m) && pixels_mapped(data@, m, out@),
        image_keys(out@).finite(),
        image_keys(out@).len() <= buckets@.len(),
        forall|p: int|
            0 <= p < pixel_count(data@) ==> #[trigger] alpha_at(out@, p) == alpha_at(data@, p),
        forall|p: int, q: int|
            #![trigger key_at(data@, p), key_at(data@, q)]
            0 <= p < pixel_count(data@) && 0 <= q < pixel_count(data@) && key_at(data@, p)
                == key_at(data@, q) ==> out@[4 * p] == out@[4 * q] && out@[4 * p + 1] == out@[4 * q
                + 1] && out@[4 * p + 2] == out@[4 * q + 2],
{
    let pm = build_palette(buckets);
    proof {
        lemma_palette_coverage(data@, counts, buckets@, pm@);
    }
    let out = remap_image(data, &pm);
    proof {
        lemma_alpha_preserved(data@, out@, pm@);
        lemma_palette_bound(data@, buckets@, pm@, out@);
        lemma_rgb_consistent(data@, pm@, out@);
        assert(is_palette_of(buckets@, pm@) && pixels_mapped(data@, pm@, out@));
    }
    out
}

/// Composes the summaries into the quantized-output witness and the key
/// cardinality facts.
#[verifier::rlimit(50)]
proof fn lemma_finish_quantized(
    data: Seq<u8>,
    size: int,
    counts: Seq<Colors>,
    bs: Seq<Bucket>,
    out: Seq<u8>,
)
    requires
        data.len() % 4 == 0,
        is_color_count(data, counts),
        buckets_inv(bs),
        bucket_colors_ms(bs) == counts.to_multiset(),
        1 <= bs.len() <= size,
        bs.len() < size ==> forall|j: int|
            0 <= j < bs.len() ==> (#[trigger] bs[j]).colors@.len() == 1,
        out.len() == data.len(),
        exists|m: Map<u32, (u8, u8, u8)>|
            #![trigger is_palette_of(bs, m)]
            is_palette_of(bs, m) && pixels_mapped(data, m, out),
    ensures
        quantized_output(data, size, out),
        image_keys(data).finite(),
        image_keys(data).len() == counts.len(),
{
    let m = choose|m: Map<u32, (u8, u8, u8)>|
        #![trigger is_palette_of(bs, m)]
        is_palette_of(bs, m) && pixels_mapped(data, m, out);
    lemma_quantized_intro(data, size, counts, bs, m, out);
    lemma_counts_key_card(data, counts);
}

/// Composes the summaries into the identity and single-color facts.
#[verifier::rlimit(50)]
proof fn lemma_finish_special(
    data: Seq<u8>,
    size: int,
    counts: Seq<Colors>,
    bs: Seq<Bucket>,
    out: Seq<u8>,
)
    requires
        data.len() % 4 == 0,
        is_color_count(data, counts),
        buckets_inv(bs),
        bucket_colors_ms(bs) == counts.to_multiset(),
        1 <= bs.len() <= size,
        bs.len() < size ==> forall|j: int|
            0 <= j < bs.len() ==> (#[trigger] bs[j]).colors@.len() == 1,
        color_count_total(bs) == counts.len(),
        out.len() == data.len(),
        image_keys(data).finite(),
        image_keys(data).len() == counts.len(),
        exists|m: Map<u32, (u8, u8, u8)>|
            #![trigger is_palette_of(bs, m)]
            is_palette_of(bs, m) && pixels_mapped(data, m, out),
    ensures
        image_keys(data).len() <= size ==> out == data,
        bs.len() == 1 ==> is_color_count(data, counts) && uniform_avg_output(data, out, counts),
{
    let m = choose|m: Map<u32, (u8, u8, u8)>|
        #![trigger is_palette_of(bs, m)]
        is_palette_of(bs, m) && pixels_mapped(data, m, out);
    if image_keys(data).len() <= size {
        lemma_identity_for_wide_palette(data, counts, bs, m, out, size);
    }
    if bs.len() == 1 {
        let b0 = bs[0];
        assert(bs =~= seq![b0]);
        lemma_buckets_singleton(b0);
        assert(b0.colors@.to_multiset() == counts.to_multiset());
        assert(is_palette_of(seq![b0], m));
        lemma_uniform_output(data, counts, b0, m, out);
    }
}

/// Counts the image's distinct weighted colors and partitions them by
/// median cut into at most `size` buckets.
fn partition_image(data: &Vec<u8>, size: u8) -> (r: (Vec<Bucket>, Ghost<Seq<Colors>>))
    requires
        data@.len() % 4 == 0,
        data@.len() > 0,
        size >= 1,
    ensures
        ({
            let (buckets, counts) = r;
            &&& is_color_count(data@, counts@)
            &&& buckets_inv(buckets@)
            &&& bucket_colors_ms(buckets@) == counts@.to_multiset()
            &&& 1 <= buckets@.len() <= size as int
            &&& (buckets@.len() < size as int ==> forall|j: int|
                0 <= j < buckets@.len() ==> (#[trigger] buckets@[j]).colors@.len() == 1)
            &&& color_count_total(buckets@) == counts@.len()
        }),
{
    let counts = calculate_count(data);
    let ghost gcounts = counts@;
    proof {
        assert(data@.len() <= usize::MAX) by {
            assert(data.len() == data@.len());
        }
        assert(pixel_count(data@) >= 1);
        assert(has_key(gcounts, key_at(data@, 0)));
        assert(gcounts.len() >= 1);
        assert(sum_weights(gcounts) == pixel_count(data@));
    }
    let b0 = get_total_and_greatest_range_channel(counts);
    let ghost gb0 = b0;
    let mut initial: Vec<Bucket> = Vec::new();
    initial.push(b0);
    let ghost ginitial = initial@;
    proof {
        assert(ginitial =~= seq![gb0]);
        assert forall|j: int| 0 <= j < ginitial.len() implies bucket_inv(#[trigger] ginitial[j]) by {
            assert(ginitial[j] == gb0);
        }
        lemma_buckets_singleton(gb0);
    }
    let buckets = fact(initial, size as usize);
    proof {
        assert(bucket_colors_ms(buckets@) == gcounts.to_multiset());
        assert(color_count_total(buckets@) == gcounts.len());
        assert(1 <= buckets@.len() <= size as int);
    }
    (buckets, Ghost(gcounts))
}

/// Runs the quantization pipeline on a validated, non-empty buffer: counts
/// the distinct colors, partitions them into at most `size` buckets by
/// median cut, averages each bucket, and remaps every pixel to its bucket's
/// average color, copying alpha bytes verbatim.
#[verifier::rlimit(50)]
fn quantize_pixels(data: &Vec<u8>, size: u8) -> (out: Vec<u8>)
    requires
        data@.len() % 4 == 0,
        data@.len() > 0,
        size >= 1,
    ensures
        out@.len() == data@.len(),
        quantized_output(data@, size as int, out@),
        image_keys(out@).finite(),
        image_keys(out@).len() <= size as int,
        image_keys(data@).finite(),
        image_keys(data@).len() <= size as int ==> out@ == data@,
        size == 1 ==> exists|counts: Seq<Colors>|
            #![trigger is_color_count(data@, counts)]
            is_color_count(data@, counts) && uniform_avg_output(data@, out@, counts),
        forall|p: int|
            0 <= p < pixel_count(data@) ==> #[trigger] alpha_at(out@, p) == alpha_at(data@, p),
        forall|p: int, q: int|
            #![trigger key_at(data@, p), key_at(data@, q)]
            0 <= p < pixel_count(data@) && 0 <= q < pixel_count(data@) && key_at(data@, p)
                == key_at(data@, q) ==> out@[4 * p] == out@[4 * q] && out@[4 * p + 1] == out@[4 * q
                + 1] && out@[4 * p + 2] == out@[4 * q + 2],
{
    let (buckets, gc) = partition_image(data, size);
    let ghost gcounts = gc@;
    let ghost gbuckets = buckets@;
    let out = palette_and_remap(data, &buckets, Ghost(gcounts));
    proof {
        lemma_finish_quantized(data@, size as int, gcounts, gbuckets, out@);
        lemma_finish_special(data@, size as int, gcounts, gbuckets, out@);
    }
    out
}

/// Reduces a packed RGBA image to a palette of at most `size` colors by
/// median-cut quantization and remaps every pixel to its palette color,
/// copying alpha bytes verbatim. A buffer whose length is not a multiple of
/// 4 and a palette size of 0 are rejected; an empty buffer yields an empty
/// buffer. On success the output is what remapping through a palette of a
/// median-cut partition of the image's weighted colors writes
/// (`quantized_output`); in particular it holds at most `size` distinct
/// colors, maps equal input colors equally, returns the input unchanged when
/// `size` covers every distinct color, and paints everything with the one
/// weighted average color when `size` is 1.
pub fn reduce(data: &Vec<u8>, size: u8) -> (result: Result<Vec<u8>, QuantizeError>)
    ensures
        result == Err::<Vec<u8>, QuantizeError>(QuantizeError::InvalidInput) <==> data@.len() % 4
            != 0,
        result == Err::<Vec<u8>, QuantizeError>(QuantizeError::DegenerateSize) <==> (data@.len()
            % 4 == 0 && size == 0),
        result is Ok <==> (data@.len() % 4 == 0 && size >= 1),
        result matches Ok(out) ==> out@.len() == data@.len(),
        result matches Ok(out) ==> (data@.len() > 0 ==> quantized_output(
            data@,
            size as int,
            out@,
        )),
        result matches Ok(out) ==> image_keys(out@).finite() && image_keys(out@).len()
            <= size as int,
        result matches Ok(out) ==> image_keys(data@).finite(),
        result matches Ok(out) ==> (image_keys(data@).len() <= size as int ==> out@ == data@),
        result matches Ok(out) ==> (size == 1 && data@.len() > 0 ==> exists|counts: Seq<Colors>|
            #![trigger is_color_count(data@, counts)]
            is_color_count(data@, counts) && uniform_avg_output(data@, out@, counts)),
        result matches Ok(out) ==> forall|p: int|
            0 <= p < pixel_count(data@) ==> #[trigger] alpha_at(out@, p) == alpha_at(data@, p),
        result matches Ok(out) ==> forall|p: int, q: int|
            #![trigger key_at(data@, p), key_at(data@, q)]
            0 <= p < pixel_count(data@) && 0 <= q < pixel_count(data@) && key_at(data@, p)
                == key_at(data@, q) ==> out@[4 * p] == out@[4 * q] && out@[4 * p + 1] == out@[4 * q
                + 1] && out@[4 * p + 2] == out@[4 * q + 2],
{
    if data.len() % 4 != 0 {
        return Err(QuantizeError::InvalidInput);
    }
    if size == 0 {
        return Err(QuantizeError::DegenerateSize);
    }
    if data.len() == 0 {
        let out: Vec<u8> = Vec::new();
        proof {
            broadcast use vstd::set::group_set_axioms;

            assert(pixel_count(data@) == 0);
            assert(image_keys(out@) =~= Set::<u32>::empty());
            assert(image_keys(data@) =~= Set::<u32>::empty());
            assert(out@ =~= data@);
        }
        return Ok(out);
    }
    let out = quantize_pixels(data, size);
    Ok(out)
}

} // verus!
