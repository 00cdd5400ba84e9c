//! Weighted color counting: scanning the pixel buffer into a deduplicated,
//! weighted list of distinct colors, ordered by ascending 24-bit key.

use vstd::prelude::*;

verus! {

/// One distinct RGB value together with the number of source pixels sharing
/// it: `(r, g, b, weight)`.
#[derive(Clone, Copy, PartialEq, Eq, Structural, Debug)]
pub struct Colors(pub u8, pub u8, pub u8, pub u64);

/// The 24-bit key of an RGB triple: `r | g << 8 | b << 16`.
pub open spec fn key_of_rgb(r: u8, g: u8, b: u8) -> u32 {
    (r as int + g as int * 256 + b as int * 65536) as u32
}

/// The key of a weighted color.
pub open spec fn key_of(c: Colors) -> u32 {
    key_of_rgb(c.0, c.1, c.2)
}

/// Number of pixels in a packed RGBA buffer.
pub open spec fn pixel_count(data: Seq<u8>) -> int {
    data.len() as int / 4
}

/// The key of pixel `p` of the buffer.
pub open spec fn key_at(data: Seq<u8>, p: int) -> u32 {
    key_of_rgb(data[4 * p], data[4 * p + 1], data[4 * p + 2])
}

/// How many of the first `n` pixels of the buffer have key `k`.
pub open spec fn key_count(data: Seq<u8>, n: int, k: u32) -> int
    decreases n,
{
    if n <= 0 {
        0
    } else {
        key_count(data, n - 1, k) + if key_at(data, n - 1) == k {
            1int
        } else {
            0int
        }
    }
}

/// Some entry of `s` carries key `k`.
pub open spec fn has_key(s: Seq<Colors>, k: u32) -> bool {
    exists|j: int| 0 <= j < s.len() && key_of(s[j]) == k
}

/// Sum of the weights of a sequence of weighted colors.
pub open spec fn sum_weights(s: Seq<Colors>) -> int
    decreases s.len(),
{
    if s.len() == 0 {
        0
    } else {
        sum_weights(s.drop_last()) + s.last().3
    }
}

/// Entries stand in strictly ascending key order, so their keys are pairwise
/// distinct.
pub open spec fn strictly_sorted_by_key(s: Seq<Colors>) -> bool {
    forall|i: int, j: int|
        #![trigger key_of(s[i]), key_of(s[j])]
        0 <= i < j < s.len() ==> key_of(s[i]) < key_of(s[j])
}

/// Full characterization of the weighted color count of an image: distinct
/// keys in ascending order, each weight the exact number of pixels carrying
/// that key, every pixel's key present, and the weights summing to the
/// pixel count.
pub open spec fn is_color_count(data: Seq<u8>, s: Seq<Colors>) -> bool {
    &&& strictly_sorted_by_key(s)
    &&& forall|j: int|
        0 <= j < s.len() ==> (#[trigger] s[j]).3 == key_count(data, pixel_count(data), key_of(s[j]))
    &&& forall|j: int| 0 <= j < s.len() ==> (#[trigger] s[j]).3 >= 1
    &&& forall|p: int| 0 <= p < pixel_count(data) ==> has_key(s, #[trigger] key_at(data, p))
    &&& sum_weights(s) == pixel_count(data)
}

/// Two RGB triples with the same key agree componentwise.
pub proof fn lemma_key_injective(r1: u8, g1: u8, b1: u8, r2: u8, g2: u8, b2: u8)
    requires
        key_of_rgb(r1, g1, b1) == key_of_rgb(r2, g2, b2),
    ensures
        r1 == r2 && g1 == g2 && b1 == b2,
{
}

/// Updating one entry changes the weight sum by the difference of weights.
pub proof fn lemma_sum_weights_update(s: Seq<Colors>, j: int, c: Colors)
    requires
        0 <= j < s.len(),
    ensures
        sum_weights(s.update(j, c)) == sum_weights(s) - s[j].3 + c.3,
    decreases s.len(),
{
    if j == s.len() - 1 {
        assert(s.update(j, c).drop_last() =~= s.drop_last());
        assert(s.update(j, c).last() == c);
    } else {
        assert(s.update(j, c).drop_last() =~= s.drop_last().update(j, c));
        assert(s.update(j, c).last() == s.last());
        lemma_sum_weights_update(s.drop_last(), j, c);
    }
}

/// Inserting an entry adds its weight to the weight sum.
pub proof fn lemma_sum_weights_insert(s: Seq<Colors>, j: int, c: Colors)
    requires
        0 <= j <= s.len(),
    ensures
        sum_weights(s.insert(j, c)) == sum_weights(s) + c.3,
    decreases s.len(),
{
    if j == s.len() {
        assert(s.insert(j, c).drop_last() =~= s);
        assert(s.insert(j, c).last() == c);
    } else {
        assert(s.insert(j, c).drop_last() =~= s.drop_last().insert(j, c));
        assert(s.insert(j, c).last() == s.last());
        lemma_sum_weights_insert(s.drop_last(), j, c);
    }
}

/// A weight sum is never negative.
pub proof fn lemma_sum_weights_nonneg(s: Seq<Colors>)
    ensures
        sum_weights(s) >= 0,
    decreases s.len(),
{
    if s.len() > 0 {
        lemma_sum_weights_nonneg(s.drop_last());
    }
}

/// With every weight at least 1, the weight sum is at least the length.
pub proof fn lemma_sum_weights_lower(s: Seq<Colors>)
    requires
        forall|j: int| 0 <= j < s.len() ==> (#[trigger] s[j]).3 >= 1,
    ensures
        sum_weights(s) >= s.len(),
    decreases s.len(),
{
    if s.len() > 0 {
        lemma_sum_weights_lower(s.drop_last());
    }
}

/// Splitting a sequence splits its weight sum.
pub proof fn lemma_sum_weights_split(s: Seq<Colors>, m: int)
    requires
        0 <= m <= s.len(),
    ensures
        sum_weights(s.subrange(0, m)) + sum_weights(s.subrange(m, s.len() as int))
            == sum_weights(s),
    decreases s.len(),
{
    if m == s.len() {
        assert(s.subrange(0, m) =~= s);
        assert(s.subrange(m, s.len() as int) =~= Seq::<Colors>::empty());
    } else {
        let s1 = s.drop_last();
        assert(s.subrange(0, m) =~= s1.subrange(0, m));
        assert(s.subrange(m, s.len() as int).drop_last() =~= s1.subrange(m, s1.len() as int));
        assert(s.subrange(m, s.len() as int).last() == s.last());
        lemma_sum_weights_split(s1, m);
    }
}

/// A key with a positive count occurs at one of the first `n` pixels.
pub proof fn lemma_key_count_witness(data: Seq<u8>, n: int, k: u32)
    requires
        key_count(data, n, k) > 0,
    ensures
        exists|p: int| 0 <= p < n && key_at(data, p) == k,
    decreases n,
{
    if n > 0 {
        if key_at(data, n - 1) == k {
            assert(0 <= n - 1 < n && key_at(data, n - 1) == k);
        } else {
            lemma_key_count_witness(data, n - 1, k);
        }
    }
}

/// A key count over the first `n` pixels lies between 0 and `n`.
pub proof fn lemma_key_count_bounds(data: Seq<u8>, n: int, k: u32)
    ensures
        0 <= key_count(data, n, k) <= if n >= 0 {
            n
        } else {
            0
        },
    decreases n,
{
    if n > 0 {
        lemma_key_count_bounds(data, n - 1, k);
    }
}

/// The 24-bit key of an RGB triple, computed executably.
pub fn color_key(r: u8, g: u8, b: u8) -> (k: u32)
    ensures
        k == key_of_rgb(r, g, b),
{
    r as u32 + (g as u32) * 256 + (b as u32) * 65536
}

/// The key of a weighted color, computed executably.
pub fn entry_key(c: Colors) -> (k: u32)
    ensures
        k == key_of(c),
{
    color_key(c.0, c.1, c.2)
}

/// Scans packed RGBA pixels and returns one entry per distinct RGB value, in
/// ascending key order, weighted by the number of pixels sharing that value.
/// The alpha byte of each pixel is ignored.
pub fn calculate_count(data: &Vec<u8>) -> (result: Vec<Colors>)
    requires
        data@.len() % 4 == 0,
    ensures
        is_color_count(data@, result@),
{
    let mut result: Vec<Colors> = Vec::new();
    let n = data.len() / 4;
    let mut p: usize = 0;
    while p < n
        invariant
            data@.len() % 4 == 0,
            data@.len() <= usize::MAX,
            n == data@.len() / 4,
            0 <= p <= n,
            strictly_sorted_by_key(result@),
            forall|j: int|
                0 <= j < result@.len() ==> (#[trigger] result@[j]).3 == key_count(
                    data@,
                    p as int,
                    key_of(result@[j]),
                ),
            forall|j: int| 0 <= j < result@.len() ==> (#[trigger] result@[j]).3 >= 1,
            forall|q: int| 0 <= q < p ==> has_key(result@, #[trigger] key_at(data@, q)),
            sum_weights(result@) == p as int,
        decreases n - p,
    {
        proof {
            vstd::arithmetic::div_mod::lemma_fundamental_div_mod(data@.len() as int, 4);
            assert(4 * (p as int) + 4 <= data@.len());
        }
        let i = 4 * p;
        let r = data[i];
        let g = data[i + 1];
        let b = data[i + 2];
        let key = color_key(r, g, b);
        proof {
            assert(key_at(data@, p as int) == key);
        }
        let ghost prev = result@;
        let mut j: usize = 0;
        while j < result.len() && entry_key(result[j]) < key
            invariant
                0 <= j <= result@.len(),
                result@ == prev,
                strictly_sorted_by_key(result@),
                forall|t: int| 0 <= t < j ==> key_of(#[trigger] result@[t]) < key,
            decreases result@.len() - j,
        {
            j = j + 1;
        }
        if j < result.len() && entry_key(result[j]) == key {
            let c = result[j];
            proof {
                lemma_key_count_bounds(data@, p as int, key);
                lemma_sum_weights_update(result@, j as int, Colors(c.0, c.1, c.2, (c.3 + 1) as u64));
            }
            result[j] = Colors(c.0, c.1, c.2, c.3 + 1);
            proof {
                lemma_count_invariants_after_update(data@, prev, result@, p as int, j as int, key);
            }
        } else {
            proof {
                assert forall|t: int| 0 <= t < result@.len() implies key_of(
                    #[trigger] result@[t],
                ) != key by {
                    if t > j {
                        assert(key_of(result@[j as int]) < key_of(result@[t]));
                    }
                }
                lemma_key_count_bounds(data@, p as int, key);
                if key_count(data@, p as int, key) > 0 {
                    lemma_key_count_witness(data@, p as int, key);
                    let q = choose|q: int| 0 <= q < p && key_at(data@, q) == key;
                    assert(has_key(result@, key_at(data@, q)));
                    let t = choose|t: int| 0 <= t < result@.len() && key_of(result@[t]) == key;
                    assert(false);
                }
                lemma_sum_weights_insert(result@, j as int, Colors(r, g, b, 1));
            }
            result.insert(j, Colors(r, g, b, 1));
            proof {
                lemma_count_invariants_after_insert(data@, prev, result@, p as int, j as int, key, Colors(r, g, b, 1));
            }
        }
        p = p + 1;
    }
    result
}

/// Restores the counting loop's invariants after incrementing the weight of
/// the entry that carries the current pixel's key.
proof fn lemma_count_invariants_after_update(
    data: Seq<u8>,
    prev: Seq<Colors>,
    cur: Seq<Colors>,
    p: int,
    j: int,
    key: u32,
)
    requires
        0 <= j < prev.len(),
        0 <= p,
        key_at(data, p) == key,
        key_of(prev[j]) == key,
        cur == prev.update(j, Colors(prev[j].0, prev[j].1, prev[j].2, (prev[j].3 + 1) as u64)),
        prev[j].3 + 1 <= u64::MAX,
        strictly_sorted_by_key(prev),
        forall|t: int|
            0 <= t < prev.len() ==> (#[trigger] prev[t]).3 == key_count(data, p, key_of(prev[t])),
        forall|t: int| 0 <= t < prev.len() ==> (#[trigger] prev[t]).3 >= 1,
        forall|q: int| 0 <= q < p ==> has_key(prev, #[trigger] key_at(data, q)),
    ensures
        strictly_sorted_by_key(cur),
        forall|t: int|
            0 <= t < cur.len() ==> (#[trigger] cur[t]).3 == key_count(data, p + 1, key_of(cur[t])),
        forall|t: int| 0 <= t < cur.len() ==> (#[trigger] cur[t]).3 >= 1,
        forall|q: int| 0 <= q < p + 1 ==> has_key(cur, #[trigger] key_at(data, q)),
{
    assert(forall|t: int| 0 <= t < cur.len() ==> key_of(#[trigger] cur[t]) == key_of(prev[t]));
    assert forall|t: int| 0 <= t < cur.len() implies (#[trigger] cur[t]).3 == key_count(
        data,
        p + 1,
        key_of(cur[t]),
    ) by {
        assert(key_count(data, p + 1, key_of(cur[t])) == key_count(data, p, key_of(cur[t]))
            + if key_at(data, p) == key_of(cur[t]) {
            1int
        } else {
            0int
        });
        if t != j {
            assert(key_of(cur[t]) != key);
        }
    }
    assert forall|q: int| 0 <= q < p + 1 implies has_key(cur, #[trigger] key_at(data, q)) by {
        if q < p {
            let w = choose|w: int| 0 <= w < prev.len() && key_of(prev[w]) == key_at(data, q);
            assert(key_of(cur[w]) == key_at(data, q));
        } else {
            assert(key_of(cur[j]) == key_at(data, q));
        }
    }
}

/// Restores the counting loop's invariants after inserting a fresh entry of
/// weight 1 for the current pixel's key.
proof fn lemma_count_invariants_after_insert(
    data: Seq<u8>,
    prev: Seq<Colors>,
    cur: Seq<Colors>,
    p: int,
    j: int,
    key: u32,
    c: Colors,
)
    requires
        0 <= j <= prev.len(),
        0 <= p,
        key_at(data, p) == key,
        key_of(c) == key,
        c.3 == 1,
        cur == prev.insert(j, c),
        key_count(data, p, key) == 0,
        strictly_sorted_by_key(prev),
        forall|t: int| 0 <= t < j ==> key_of(#[trigger] prev[t]) < key,
        j < prev.len() ==> key_of(prev[j]) > key,
        forall|t: int|
            0 <= t < prev.len() ==> (#[trigger] prev[t]).3 == key_count(data, p, key_of(prev[t])),
        forall|t: int| 0 <= t < prev.len() ==> (#[trigger] prev[t]).3 >= 1,
        forall|q: int| 0 <= q < p ==> has_key(prev, #[trigger] key_at(data, q)),
    ensures
        strictly_sorted_by_key(cur),
        forall|t: int|
            0 <= t < cur.len() ==> (#[trigger] cur[t]).3 == key_count(data, p + 1, key_of(cur[t])),
        forall|t: int| 0 <= t < cur.len() ==> (#[trigger] cur[t]).3 >= 1,
        forall|q: int| 0 <= q < p + 1 ==> has_key(cur, #[trigger] key_at(data, q)),
{
    prev.insert_ensures(j, c);
    assert(cur.len() == prev.len() + 1);
    assert(forall|t: int| 0 <= t < j ==> #[trigger] cur[t] == prev[t]);
    assert(cur[j] == c);
    assert forall|t: int| j < t < cur.len() implies #[trigger] cur[t] == prev[t - 1] by {
        assert(cur[(t - 1) + 1] == prev[t - 1]);
    }
    assert forall|a: int, b: int|
        #![trigger key_of(cur[a]), key_of(cur[b])]
        0 <= a < b < cur.len() implies key_of(cur[a]) < key_of(cur[b]) by {
        if a < j && b < j {
            assert(key_of(prev[a]) < key_of(prev[b]));
        } else if a < j && b == j {
            assert(key_of(cur[a]) < key);
        } else if a < j && b > j {
            assert(key_of(cur[b]) == key_of(prev[b - 1]));
            if b - 1 == j {
                assert(key_of(cur[a]) < key && key < key_of(prev[j]));
            } else {
                assert(key_of(prev[a]) < key_of(prev[b - 1]));
            }
        } else if a == j {
            assert(key_of(cur[b]) == key_of(prev[b - 1]));
            if b - 1 == j {
                assert(key < key_of(prev[j]));
            } else {
                assert(key_of(prev[j]) < key_of(prev[b - 1]));
                assert(key < key_of(prev[j]));
            }
        } else {
            assert(key_of(prev[a - 1]) < key_of(prev[b - 1]));
        }
    }
    assert forall|t: int| 0 <= t < cur.len() implies (#[trigger] cur[t]).3 == key_count(
        data,
        p + 1,
        key_of(cur[t]),
    ) by {
        assert(key_count(data, p + 1, key_of(cur[t])) == key_count(data, p, key_of(cur[t]))
            + if key_at(data, p) == key_of(cur[t]) {
            1int
        } else {
            0int
        });
        if t != j {
            assert(key_of(cur[t]) != key);
        }
    }
    assert forall|q: int| 0 <= q < p + 1 implies has_key(cur, #[trigger] key_at(data, q)) by {
        if q < p {
            let w = choose|w: int| 0 <= w < prev.len() && key_of(prev[w]) == key_at(data, q);
            if w < j {
                assert(key_of(cur[w]) == key_at(data, q));
            } else {
                assert(key_of(cur[w + 1]) == key_at(data, q));
            }
        } else {
            assert(key_of(cur[j]) == key_at(data, q));
        }
    }
}

} // verus!
