use mediancut::Channel;
use mediancut::Colors;
use mediancut::QuantizeError;
use mediancut::average_color;
use mediancut::build_palette;
use mediancut::calculate_count;
use mediancut::fact;
use mediancut::get_total_and_greatest_range_channel;
use mediancut::reduce;
use mediancut::remap_image;

fn four_pixels() -> Vec<u8> {
    vec![255, 0, 0, 255, 255, 0, 0, 255, 0, 255, 0, 255, 0, 0, 255, 255]
}

#[test]
fn test_calculate_count() {
    let data: Vec<u8> = vec![255, 0, 0, 255, 255, 0, 0, 255, 0, 255, 0, 255, 0, 0, 255, 255];
    let result = calculate_count(&data);
    assert_eq!(result, [
        Colors(255, 0, 0, 2),
        Colors(0, 255, 0, 1),
        Colors(0, 0, 255, 1)
    ]);
}

#[test]
fn test_average_color() {
    let colors: Vec<Colors> = vec![
        Colors(255, 0, 0, 2),
        Colors(0, 255, 0, 1),
        Colors(0, 0, 255, 1),
    ];
    let result = average_color(colors.clone());
    println!("{:?}", result);
    assert_eq!(result, (128, 64, 64));
}

#[test]
fn test_average_color_single() {
    let colors: Vec<Colors> = vec![Colors(10, 20, 30, 7)];
    assert_eq!(average_color(colors), (10, 20, 30));
}

#[test]
fn test_calculate_count_orders_by_key() {
    // Keys ascend as r | g<<8 | b<<16, whatever the pixel order.
    let data: Vec<u8> = vec![0, 0, 255, 9, 255, 0, 0, 9, 0, 255, 0, 9];
    let result = calculate_count(&data);
    assert_eq!(result, [
        Colors(255, 0, 0, 1),
        Colors(0, 255, 0, 1),
        Colors(0, 0, 255, 1)
    ]);
}

#[test]
fn test_channel_selection_red() {
    let bucket = get_total_and_greatest_range_channel(vec![
        Colors(0, 5, 5, 1),
        Colors(10, 5, 5, 1),
    ]);
    assert_eq!(bucket.channel, Channel::R);
    assert_eq!(bucket.total, 2);
    assert_eq!(bucket.min_r, 0);
    assert_eq!(bucket.max_r, 10);
}

#[test]
fn test_channel_selection_blue_wins_when_weighted_range_larger() {
    // Blue range 10 scores 50; red range 5 scores 30.
    let bucket = get_total_and_greatest_range_channel(vec![
        Colors(0, 0, 0, 1),
        Colors(5, 0, 10, 1),
    ]);
    assert_eq!(bucket.channel, Channel::B);
}

#[test]
fn test_channel_tie_prefers_red() {
    // Red range 5 scores 6*5 == 30; blue range 6 scores 5*6 == 30: tie goes to red.
    let bucket = get_total_and_greatest_range_channel(vec![
        Colors(0, 0, 0, 1),
        Colors(5, 0, 6, 1),
    ]);
    assert_eq!(bucket.channel, Channel::R);
}

#[test]
fn test_bucket_sorted_by_selected_channel() {
    let bucket = get_total_and_greatest_range_channel(vec![
        Colors(9, 0, 0, 1),
        Colors(3, 0, 0, 1),
        Colors(7, 0, 0, 1),
    ]);
    assert_eq!(bucket.channel, Channel::R);
    assert_eq!(bucket.colors, [
        Colors(3, 0, 0, 1),
        Colors(7, 0, 0, 1),
        Colors(9, 0, 0, 1)
    ]);
}

#[test]
fn test_fact_splits_heaviest_bucket() {
    let counts = calculate_count(&four_pixels());
    let initial = vec![get_total_and_greatest_range_channel(counts)];
    let buckets = fact(initial, 2);
    assert_eq!(buckets.len(), 2);
    // Weight conservation: totals still sum to the pixel count.
    let total: u64 = buckets.iter().map(|b| b.total).sum();
    assert_eq!(total, 4);
}

#[test]
fn test_fact_weight_conservation_full_split() {
    let counts = calculate_count(&four_pixels());
    let initial = vec![get_total_and_greatest_range_channel(counts)];
    let buckets = fact(initial, 255);
    // Three distinct colors: splitting stops at three singleton buckets.
    assert_eq!(buckets.len(), 3);
    for b in &buckets {
        assert_eq!(b.colors.len(), 1);
    }
    let total: u64 = buckets.iter().map(|b| b.total).sum();
    assert_eq!(total, 4);
}

#[test]
fn test_fact_size_reached_returns_unchanged() {
    let counts = calculate_count(&four_pixels());
    let initial = vec![get_total_and_greatest_range_channel(counts)];
    let buckets = fact(initial, 1);
    assert_eq!(buckets.len(), 1);
    assert_eq!(buckets[0].total, 4);
}

#[test]
fn test_palette_covers_every_color() {
    let counts = calculate_count(&four_pixels());
    let initial = vec![get_total_and_greatest_range_channel(counts)];
    let buckets = fact(initial, 2);
    let pm = build_palette(&buckets);
    // Every distinct (R,G,B) of the source appears as a key exactly once.
    assert_eq!(pm.len(), 3);
    assert!(pm.contains_key(&255u32));
    assert!(pm.contains_key(&(255u32 << 8)));
    assert!(pm.contains_key(&(255u32 << 16)));
}

#[test]
fn test_remap_preserves_alpha_and_length() {
    let data: Vec<u8> = vec![255, 0, 0, 17, 0, 255, 0, 201, 0, 0, 255, 0];
    let counts = calculate_count(&data);
    let initial = vec![get_total_and_greatest_range_channel(counts)];
    let buckets = fact(initial, 2);
    let pm = build_palette(&buckets);
    let out = remap_image(&data, &pm);
    assert_eq!(out.len(), data.len());
    assert_eq!(out[3], 17);
    assert_eq!(out[7], 201);
    assert_eq!(out[11], 0);
}

#[test]
fn test_reduce_single_color_output() {
    // Palette size 1 paints every pixel with the weighted average (128, 64, 64).
    let out = reduce(&four_pixels(), 1).unwrap();
    assert_eq!(out, vec![
        128, 64, 64, 255,
        128, 64, 64, 255,
        128, 64, 64, 255,
        128, 64, 64, 255
    ]);
}

#[test]
fn test_reduce_identity_when_size_covers_colors() {
    // Three distinct colors and room for four: every pixel keeps its color.
    let data = four_pixels();
    let out = reduce(&data, 4).unwrap();
    assert_eq!(out, data);
}

#[test]
fn test_reduce_palette_bound() {
    // Four distinct colors reduced to two: at most two distinct output colors.
    let data: Vec<u8> = vec![
        255, 0, 0, 255, 250, 0, 0, 255, 0, 255, 0, 255, 0, 250, 0, 255,
    ];
    let out = reduce(&data, 2).unwrap();
    let mut triples: Vec<(u8, u8, u8)> = Vec::new();
    for px in out.chunks(4) {
        let t = (px[0], px[1], px[2]);
        if !triples.contains(&t) {
            triples.push(t);
        }
    }
    assert!(triples.len() <= 2);
}

#[test]
fn test_reduce_deterministic() {
    let data: Vec<u8> = vec![
        1, 2, 3, 4, 5, 6, 7, 8, 9, 10, 11, 12, 13, 14, 15, 16, 1, 2, 3, 200,
    ];
    let first = reduce(&data, 3).unwrap();
    let second = reduce(&data, 3).unwrap();
    assert_eq!(first, second);
}

#[test]
fn test_reduce_empty_buffer() {
    let data: Vec<u8> = Vec::new();
    assert_eq!(reduce(&data, 8), Ok(Vec::new()));
}

#[test]
fn test_reduce_rejects_bad_length() {
    let data: Vec<u8> = vec![1, 2, 3];
    assert_eq!(reduce(&data, 8), Err(QuantizeError::InvalidInput));
}

#[test]
fn test_reduce_rejects_zero_size() {
    let data = four_pixels();
    assert_eq!(reduce(&data, 0), Err(QuantizeError::DegenerateSize));
}

#[test]
fn test_reduce_output_length_matches() {
    let data: Vec<u8> = vec![7, 7, 7, 1, 8, 8, 8, 2, 9, 9, 9, 3, 7, 7, 7, 4];
    let out = reduce(&data, 2).unwrap();
    assert_eq!(out.len(), data.len());
    assert_eq!(out[3], 1);
    assert_eq!(out[7], 2);
    assert_eq!(out[11], 3);
    assert_eq!(out[15], 4);
}
