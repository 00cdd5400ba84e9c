//! Bucket statistics: total weight, per-channel bounds, selection of the
//! channel of greatest perceptual range, and re-sorting along it.

use vstd::prelude::*;
use crate::color::Colors;
use crate::color::sum_weights;
use crate::color::lemma_sum_weights_insert;
use crate::color::lemma_sum_weights_nonneg;
use crate::color::lemma_sum_weights_split;

verus! {

broadcast use vstd::seq_lib::group_to_multiset_ensures;

/// The color channel a bucket is currently sorted along.
#[derive(Clone, Copy, PartialEq, Eq, Structural, Debug)]
pub enum Channel {
    R,
    G,
    B,
}

/// The value of a color on a channel.
pub open spec fn chan_val(c: Colors, ch: Channel) -> u8 {
    match ch {
        Channel::R => c.0,
        Channel::G => c.1,
        Channel::B => c.2,
    }
}

/// Colors stand in ascending order of the channel's value.
pub open spec fn sorted_by(s: Seq<Colors>, ch: Channel) -> bool {
    forall|i: int, j: int|
        #![trigger chan_val(s[i], ch), chan_val(s[j], ch)]
        0 <= i < j < s.len() ==> chan_val(s[i], ch) <= chan_val(s[j], ch)
}

/// The channel of greatest weighted range. The red and green ranges count
/// 1.2 against 1.0 for blue, which the integer scores 6:6:5 realize exactly;
/// ties prefer red, then green, then blue.
pub open spec fn select_channel(
    min_r: u8,
    min_g: u8,
    min_b: u8,
    max_r: u8,
    max_g: u8,
    max_b: u8,
) -> Channel {
    let score_r = 6 * (max_r - min_r);
    let score_g = 6 * (max_g - min_g);
    let score_b = 5 * (max_b - min_b);
    if score_r >= score_g && score_r >= score_b {
        Channel::R
    } else if score_g >= score_b {
        Channel::G
    } else {
        Channel::B
    }
}

/// A group of distinct colors treated as one quantization unit.
#[derive(Debug)]
pub struct Bucket {
    pub colors: Vec<Colors>,
    pub total: u64,
    pub channel: Channel,
    pub min_r: u8,
    pub min_g: u8,
    pub min_b: u8,
    pub max_r: u8,
    pub max_g: u8,
    pub max_b: u8,
}

/// Well-formedness of a bucket: non-empty members with weights at least 1,
/// `total` the exact weight sum, the min/max fields the exact channel bounds
/// over the members, the channel the one of greatest weighted range, and the
/// members sorted ascending by that channel.
pub open spec fn bucket_inv(b: Bucket) -> bool {
    &&& b.colors@.len() >= 1
    &&& forall|j: int| 0 <= j < b.colors@.len() ==> (#[trigger] b.colors@[j]).3 >= 1
    &&& b.total == sum_weights(b.colors@)
    &&& forall|j: int| 0 <= j < b.colors@.len() ==> b.min_r <= (#[trigger] b.colors@[j]).0 <= b.max_r
    &&& forall|j: int| 0 <= j < b.colors@.len() ==> b.min_g <= (#[trigger] b.colors@[j]).1 <= b.max_g
    &&& forall|j: int| 0 <= j < b.colors@.len() ==> b.min_b <= (#[trigger] b.colors@[j]).2 <= b.max_b
    &&& exists|j: int| 0 <= j < b.colors@.len() && (#[trigger] b.colors@[j]).0 == b.min_r
    &&& exists|j: int| 0 <= j < b.colors@.len() && (#[trigger] b.colors@[j]).1 == b.min_g
    &&& exists|j: int| 0 <= j < b.colors@.len() && (#[trigger] b.colors@[j]).2 == b.min_b
    &&& exists|j: int| 0 <= j < b.colors@.len() && (#[trigger] b.colors@[j]).0 == b.max_r
    &&& exists|j: int| 0 <= j < b.colors@.len() && (#[trigger] b.colors@[j]).1 == b.max_g
    &&& exists|j: int| 0 <= j < b.colors@.len() && (#[trigger] b.colors@[j]).2 == b.max_b
    &&& b.channel == select_channel(b.min_r, b.min_g, b.min_b, b.max_r, b.max_g, b.max_b)
    &&& sorted_by(b.colors@, b.channel)
}

/// A member of one of two multiset-equal sequences occurs in the other.
pub proof fn lemma_ms_member_transfer(a: Seq<Colors>, b: Seq<Colors>, x: Colors)
    requires
        a.to_multiset() == b.to_multiset(),
        a.contains(x),
    ensures
        b.contains(x),
{
    assert(a.to_multiset().count(x) > 0);
}

/// Sortedness is preserved by inserting at the first position whose channel
/// value exceeds the new element's.
proof fn lemma_sorted_after_insert(prev: Seq<Colors>, cur: Seq<Colors>, j: int, c: Colors, ch: Channel)
    requires
        0 <= j <= prev.len(),
        cur == prev.insert(j, c),
        sorted_by(prev, ch),
        forall|t: int| 0 <= t < j ==> chan_val(#[trigger] prev[t], ch) <= chan_val(c, ch),
        j < prev.len() ==> chan_val(prev[j], ch) > chan_val(c, ch),
    ensures
        sorted_by(cur, ch),
{
    prev.insert_ensures(j, c);
    assert forall|a: int, b: int|
        #![trigger chan_val(cur[a], ch), chan_val(cur[b], ch)]
        0 <= a < b < cur.len() implies chan_val(cur[a], ch) <= chan_val(cur[b], ch) by {
        if a < j && b < j {
            assert(chan_val(prev[a], ch) <= chan_val(prev[b], ch));
        } else if a < j && b == j {
            assert(chan_val(cur[a], ch) <= chan_val(c, ch));
        } else if a < j && b > j {
            assert(cur[b] == prev[b - 1]);
            if b - 1 < j {
                assert(chan_val(prev[a], ch) <= chan_val(prev[b - 1], ch));
            } else {
                assert(chan_val(prev[a], ch) <= chan_val(c, ch));
                assert(chan_val(prev[j], ch) <= chan_val(prev[b - 1], ch) || j == b - 1);
                assert(chan_val(c, ch) < chan_val(prev[b - 1], ch) || chan_val(c, ch) < chan_val(
                    prev[j],
                    ch,
                ));
            }
        } else if a == j {
            assert(cur[b] == prev[b - 1]);
            assert(j <= b - 1 < prev.len());
            assert(chan_val(prev[j], ch) <= chan_val(prev[b - 1], ch) || j == b - 1);
            assert(chan_val(c, ch) < chan_val(prev[b - 1], ch));
        } else {
            assert(cur[a] == prev[a - 1] && cur[b] == prev[b - 1]);
            assert(chan_val(prev[a - 1], ch) <= chan_val(prev[b - 1], ch));
        }
    }
}

/// The value of a color on a channel, computed executably.
pub fn chan_value(c: Colors, ch: Channel) -> (v: u8)
    ensures
        v == chan_val(c, ch),
{
    match ch {
        Channel::R => c.0,
        Channel::G => c.1,
        Channel::B => c.2,
    }
}

/// Stable insertion sort of the colors by ascending channel value; keeps the
/// multiset of members and hence the weight sum.
fn sort_by_channel_vals(input: Vec<Colors>, ch: Channel) -> (out: Vec<Colors>)
    ensures
        out@.len() == input@.len(),
        out@.to_multiset() == input@.to_multiset(),
        sorted_by(out@, ch),
        sum_weights(out@) == sum_weights(input@),
{
    let mut out: Vec<Colors> = Vec::new();
    let mut i: usize = 0;
    while i < input.len()
        invariant
            0 <= i <= input@.len(),
            out@.len() == i,
            out@.to_multiset() == input@.subrange(0, i as int).to_multiset(),
            sorted_by(out@, ch),
            sum_weights(out@) == sum_weights(input@.subrange(0, i as int)),
        decreases input@.len() - i,
    {
        let c = input[i];
        let mut j: usize = 0;
        while j < out.len() && chan_value(out[j], ch) <= chan_value(c, ch)
            invariant
                0 <= j <= out@.len(),
                forall|t: int| 0 <= t < j ==> chan_val(#[trigger] out@[t], ch) <= chan_val(c, ch),
            decreases out@.len() - j,
        {
            j = j + 1;
        }
        let ghost prev = out@;
        proof {
            lemma_sum_weights_insert(out@, j as int, c);
            assert(input@.subrange(0, i as int + 1).drop_last() =~= input@.subrange(0, i as int));
            assert(input@.subrange(0, i as int + 1).last() == c);
            assert(input@.subrange(0, i as int + 1) =~= input@.subrange(0, i as int).push(c));
        }
        out.insert(j, c);
        proof {
            lemma_sorted_after_insert(prev, out@, j as int, c, ch);
        }
        i = i + 1;
    }
    proof {
        assert(input@.subrange(0, input@.len() as int) =~= input@);
    }
    out
}

/// Computes a bucket from a non-empty weighted color list: the total weight,
/// the per-channel minima and maxima over the present distinct values, the
/// greatest-range channel, and the members re-sorted ascending by it.
pub fn get_total_and_greatest_range_channel(colors: Vec<Colors>) -> (bucket: Bucket)
    requires
        colors@.len() >= 1,
        forall|j: int| 0 <= j < colors@.len() ==> (#[trigger] colors@[j]).3 >= 1,
        sum_weights(colors@) <= u64::MAX,
    ensures
        bucket_inv(bucket),
        bucket.colors@.len() == colors@.len(),
        bucket.colors@.to_multiset() == colors@.to_multiset(),
        bucket.total == sum_weights(colors@),
{
    let mut total: u64 = 0;
    let mut max_r: u8 = 0;
    let mut max_g: u8 = 0;
    let mut max_b: u8 = 0;
    let mut min_r: u8 = 255;
    let mut min_g: u8 = 255;
    let mut min_b: u8 = 255;
    let mut i: usize = 0;
    while i < colors.len()
        invariant
            0 <= i <= colors@.len(),
            forall|j: int| 0 <= j < colors@.len() ==> (#[trigger] colors@[j]).3 >= 1,
            sum_weights(colors@) <= u64::MAX,
            total == sum_weights(colors@.subrange(0, i as int)),
            forall|j: int| 0 <= j < i ==> min_r <= (#[trigger] colors@[j]).0 <= max_r,
            forall|j: int| 0 <= j < i ==> min_g <= (#[trigger] colors@[j]).1 <= max_g,
            forall|j: int| 0 <= j < i ==> min_b <= (#[trigger] colors@[j]).2 <= max_b,
            i > 0 ==> exists|j: int| 0 <= j < i && (#[trigger] colors@[j]).0 == min_r,
            i > 0 ==> exists|j: int| 0 <= j < i && (#[trigger] colors@[j]).1 == min_g,
            i > 0 ==> exists|j: int| 0 <= j < i && (#[trigger] colors@[j]).2 == min_b,
            i > 0 ==> exists|j: int| 0 <= j < i && (#[trigger] colors@[j]).0 == max_r,
            i > 0 ==> exists|j: int| 0 <= j < i && (#[trigger] colors@[j]).1 == max_g,
            i > 0 ==> exists|j: int| 0 <= j < i && (#[trigger] colors@[j]).2 == max_b,
            i == 0 ==> min_r == 255 && min_g == 255 && min_b == 255 && max_r == 0 && max_g == 0
                && max_b == 0,
        decreases colors@.len() - i,
    {
        let c = colors[i];
        if i == 0 {
            min_r = c.0;
            max_r = c.0;
            min_g = c.1;
            max_g = c.1;
            min_b = c.2;
            max_b = c.2;
        } else {
            if c.0 > max_r {
                max_r = c.0;
            }
            if c.1 > max_g {
                max_g = c.1;
            }
            if c.2 > max_b {
                max_b = c.2;
            }
            if c.0 < min_r {
                min_r = c.0;
            }
            if c.1 < min_g {
                min_g = c.1;
            }
            if c.2 < min_b {
                min_b = c.2;
            }
        }
        proof {
            assert(colors@.subrange(0, i as int + 1).drop_last() =~= colors@.subrange(0, i as int));
            assert(colors@.subrange(0, i as int + 1).last() == c);
            lemma_sum_weights_split(colors@, i as int + 1);
            lemma_sum_weights_nonneg(colors@.subrange(i as int + 1, colors@.len() as int));
        }
        total = total + c.3;
        i = i + 1;
    }
    let score_r: u32 = 6 * ((max_r - min_r) as u32);
    let score_g: u32 = 6 * ((max_g - min_g) as u32);
    let score_b: u32 = 5 * ((max_b - min_b) as u32);
    let channel = if score_r >= score_g && score_r >= score_b {
        Channel::R
    } else if score_g >= score_b {
        Channel::G
    } else {
        Channel::B
    };
    proof {
        assert(channel == select_channel(min_r, min_g, min_b, max_r, max_g, max_b));
        assert(colors@.subrange(0, colors@.len() as int) =~= colors@);
    }
    let sorted = sort_by_channel_vals(colors, channel);
    let bucket = Bucket { colors: sorted, total, channel, min_r, min_g, min_b, max_r, max_g, max_b };
    proof {
        let ghost orig = bucket.colors@;
        assert forall|j: int| 0 <= j < orig.len() implies {
            &&& min_r <= (#[trigger] orig[j]).0 <= max_r
            &&& min_g <= orig[j].1 <= max_g
            &&& min_b <= orig[j].2 <= max_b
            &&& orig[j].3 >= 1
        } by {
            assert(orig.contains(orig[j]));
            assert(orig.to_multiset().count(orig[j]) > 0);
        }
        assert(exists|j: int| 0 <= j < orig.len() && (#[trigger] orig[j]).0 == min_r) by {
            let t = choose|t: int| 0 <= t < colors@.len() && (#[trigger] colors@[t]).0 == min_r;
            assert(colors@.contains(colors@[t]));
            assert(orig.to_multiset().count(colors@[t]) > 0);
            assert(orig.contains(colors@[t]));
            let j = choose|j: int| 0 <= j < orig.len() && orig[j] == colors@[t];
            assert(orig[j].0 == min_r);
        }
        assert(exists|j: int| 0 <= j < orig.len() && (#[trigger] orig[j]).1 == min_g) by {
            let t = choose|t: int| 0 <= t < colors@.len() && (#[trigger] colors@[t]).1 == min_g;
            assert(colors@.contains(colors@[t]));
            assert(orig.to_multiset().count(colors@[t]) > 0);
            assert(orig.contains(colors@[t]));
            let j = choose|j: int| 0 <= j < orig.len() && orig[j] == colors@[t];
            assert(orig[j].1 == min_g);
        }
        assert(exists|j: int| 0 <= j < orig.len() && (#[trigger] orig[j]).2 == min_b) by {
            let t = choose|t: int| 0 <= t < colors@.len() && (#[trigger] colors@[t]).2 == min_b;
            assert(colors@.contains(colors@[t]));
            assert(orig.to_multiset().count(colors@[t]) > 0);
            assert(orig.contains(colors@[t]));
            let j = choose|j: int| 0 <= j < orig.len() && orig[j] == colors@[t];
            assert(orig[j].2 == min_b);
        }
        assert(exists|j: int| 0 <= j < orig.len() && (#[trigger] orig[j]).0 == max_r) by {
            let t = choose|t: int| 0 <= t < colors@.len() && (#[trigger] colors@[t]).0 == max_r;
            assert(colors@.contains(colors@[t]));
            assert(orig.to_multiset().count(colors@[t]) > 0);
            assert(orig.contains(colors@[t]));
            let j = choose|j: int| 0 <= j < orig.len() && orig[j] == colors@[t];
            assert(orig[j].0 == max_r);
        }
        assert(exists|j: int| 0 <= j < orig.len() && (#[trigger] orig[j]).1 == max_g) by {
            let t = choose|t: int| 0 <= t < colors@.len() && (#[trigger] colors@[t]).1 == max_g;
            assert(colors@.contains(colors@[t]));
            assert(orig.to_multiset().count(colors@[t]) > 0);
            assert(orig.contains(colors@[t]));
            let j = choose|j: int| 0 <= j < orig.len() && orig[j] == colors@[t];
            assert(orig[j].1 == max_g);
        }
        assert(exists|j: int| 0 <= j < orig.len() && (#[trigger] orig[j]).2 == max_b) by {
            let t = choose|t: int| 0 <= t < colors@.len() && (#[trigger] colors@[t]).2 == max_b;
            assert(colors@.contains(colors@[t]));
            assert(orig.to_multiset().count(colors@[t]) > 0);
            assert(orig.contains(colors@[t]));
            let j = choose|j: int| 0 <= j < orig.len() && orig[j] == colors@[t];
            assert(orig[j].2 == max_b);
        }
    }
    bucket
}

} // verus!
