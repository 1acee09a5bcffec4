use orber::binary32::Binary32;
use orber::cluster::{
    best_run, clusters_of_run, derive_background_rgba, dominant_index, drop_dominant,
    extract_clusters, Centroid, Cluster, ClusterError,
};
use orber::picture::RgbPicture;

fn b(x: f32) -> Binary32 {
    Binary32::from_bits(x.to_bits())
}

fn f(x: Binary32) -> f32 {
    f32::from_bits(x.bits)
}

fn picture(width: u32, height: u32, pixel: impl Fn(u32, u32) -> [u8; 3]) -> RgbPicture {
    let mut data = Vec::new();
    for y in 0..height {
        for x in 0..width {
            data.extend_from_slice(&pixel(x, y));
        }
    }
    RgbPicture { width, height, data }
}

fn cluster(color: [u8; 3], weight: f32) -> Cluster {
    Cluster { color, centroid: Centroid { x: b(0.5), y: b(0.5) }, weight: b(weight) }
}

fn approx(a: f32, b: f32, eps: f32, label: &str) {
    assert!((a - b).abs() < eps, "{label}: expected ~{b}, got {a} (eps={eps})");
}

#[test]
fn single_color_k1() {
    let img = picture(256, 256, |_, _| [255, 0, 0]);
    let clusters = extract_clusters(&img, 1).expect("clusters");
    assert_eq!(clusters.len(), 1);
    let c = clusters[0];
    approx(c.color[0] as f32, 255.0, 2.0, "color.r");
    approx(c.color[1] as f32, 0.0, 2.0, "color.g");
    approx(c.color[2] as f32, 0.0, 2.0, "color.b");
    approx(f(c.centroid.x), 0.5, 0.05, "centroid.x");
    approx(f(c.centroid.y), 0.5, 0.05, "centroid.y");
    approx(f(c.weight), 1.0, 1e-4, "weight");
}

#[test]
fn top_red_bottom_blue_k2() {
    let img = picture(100, 100, |_, y| if y < 50 { [255, 0, 0] } else { [0, 0, 255] });
    let clusters = extract_clusters(&img, 2).expect("clusters");
    assert_eq!(clusters.len(), 2);
    let red = clusters.iter().find(|c| c.color[0] > c.color[2]).expect("red cluster");
    let blue = clusters.iter().find(|c| c.color[2] > c.color[0]).expect("blue cluster");
    approx(red.color[0] as f32, 255.0, 2.0, "red.color.r");
    approx(red.color[2] as f32, 0.0, 2.0, "red.color.b");
    approx(blue.color[0] as f32, 0.0, 2.0, "blue.color.r");
    approx(blue.color[2] as f32, 255.0, 2.0, "blue.color.b");
    approx(f(red.centroid.x), 0.5, 0.05, "red.centroid.x");
    approx(f(blue.centroid.x), 0.5, 0.05, "blue.centroid.x");
    approx(f(red.centroid.y), 0.247, 0.05, "red.centroid.y");
    approx(f(blue.centroid.y), 0.752, 0.05, "blue.centroid.y");
    approx(f(red.weight), 0.5, 0.02, "red.weight");
    approx(f(blue.weight), 0.5, 0.02, "blue.weight");
}

#[test]
fn single_pixel_image_k1() {
    let img = picture(1, 1, |_, _| [128, 64, 200]);
    let clusters = extract_clusters(&img, 1).expect("clusters");
    assert_eq!(clusters.len(), 1);
    let c = clusters[0];
    approx(f(c.centroid.x), 0.0, 1e-6, "centroid.x");
    approx(f(c.centroid.y), 0.0, 1e-6, "centroid.y");
    approx(f(c.weight), 1.0, 1e-4, "weight");
    approx(c.color[0] as f32, 128.0, 2.0, "color.r");
    approx(c.color[1] as f32, 64.0, 2.0, "color.g");
    approx(c.color[2] as f32, 200.0, 2.0, "color.b");
}

#[test]
fn empty_image_returns_error() {
    let img = picture(0, 0, |_, _| [0, 0, 0]);
    match extract_clusters(&img, 3) {
        Err(ClusterError::EmptyImage) => {}
        other => panic!("expected EmptyImage, got {other:?}"),
    }
}

#[test]
fn k_zero_returns_error() {
    let img = picture(8, 8, |_, _| [10, 20, 30]);
    match extract_clusters(&img, 0) {
        Err(ClusterError::KZero) => {}
        other => panic!("expected KZero, got {other:?}"),
    }
}

#[test]
fn derive_background_picks_max_weight_cluster() {
    let clusters =
        vec![cluster([10, 20, 30], 0.2), cluster([200, 100, 50], 0.7), cluster([0, 0, 0], 0.1)];
    assert_eq!(derive_background_rgba(&clusters), [200, 100, 50, 255]);
}

#[test]
fn derive_background_unsorted_input() {
    let clusters = vec![cluster([200, 100, 50], 0.7), cluster([10, 20, 30], 0.2)];
    assert_eq!(derive_background_rgba(&clusters), [200, 100, 50, 255]);
}

#[test]
fn derive_background_unsorted_three_clusters() {
    let clusters =
        vec![cluster([10, 10, 10], 0.2), cluster([20, 20, 20], 0.5), cluster([30, 30, 30], 0.3)];
    assert_eq!(derive_background_rgba(&clusters), [20, 20, 20, 255]);
}

#[test]
fn derive_background_empty_clusters_yields_black() {
    let clusters: Vec<Cluster> = vec![];
    assert_eq!(derive_background_rgba(&clusters), [0, 0, 0, 255]);
}

#[test]
fn drop_dominant_removes_max_weight() {
    let clusters =
        vec![cluster([10, 20, 30], 0.2), cluster([200, 100, 50], 0.7), cluster([0, 0, 0], 0.1)];
    let rest = drop_dominant(&clusters);
    assert_eq!(rest.len(), 2);
    assert!(rest.iter().all(|c| c.color != [200, 100, 50]));
    assert_eq!(rest[0].color, [10, 20, 30]);
    assert_eq!(rest[1].color, [0, 0, 0]);
}

#[test]
fn drop_dominant_on_sorted_input_returns_tail() {
    let clusters =
        vec![cluster([200, 100, 50], 0.6), cluster([10, 20, 30], 0.3), cluster([0, 0, 0], 0.1)];
    let rest = drop_dominant(&clusters);
    assert_eq!(rest.len(), 2);
    assert_eq!(rest[0].color, [10, 20, 30]);
    assert_eq!(rest[1].color, [0, 0, 0]);
}

#[test]
fn drop_dominant_empty_input() {
    let clusters: Vec<Cluster> = vec![];
    assert!(drop_dominant(&clusters).is_empty());
}

#[test]
fn drop_dominant_single_cluster_yields_empty() {
    assert!(drop_dominant(&[cluster([200, 100, 50], 1.0)]).is_empty());
}

#[test]
fn downsample_matches_pre_shrunk_visually() {
    let stripe = |i: u32| match i {
        0 => [200u8, 50, 50],
        1 => [50, 200, 50],
        2 => [50, 50, 200],
        _ => [200, 200, 50],
    };
    let big = picture(1600, 1600, |_, y| stripe(y / 400));
    let small = picture(256, 256, |_, y| stripe(y / 64));
    let clusters_big = extract_clusters(&big, 4).expect("big clusters");
    let clusters_small = extract_clusters(&small, 4).expect("small clusters");
    assert_eq!(clusters_big.len(), 4, "big should yield 4 clusters");
    assert_eq!(clusters_small.len(), 4, "small should yield 4 clusters");
    for i in 0..4 {
        approx(
            f(clusters_big[i].weight),
            f(clusters_small[i].weight),
            0.05,
            &format!("weight[{i}]"),
        );
        for ch in 0..3 {
            let diff =
                (clusters_big[i].color[ch] as i32 - clusters_small[i].color[ch] as i32).abs();
            assert!(diff <= 15, "color[{i}][{ch}] diff {diff} too large");
        }
    }
}

#[test]
fn small_image_passes_through_unchanged() {
    let img = picture(100, 100, |_, _| [128, 64, 32]);
    let clusters = extract_clusters(&img, 1).expect("clusters");
    assert_eq!(clusters.len(), 1);
    approx(f(clusters[0].weight), 1.0, 1e-3, "single cluster weight");
}

#[test]
fn members_give_place_and_weight() {
    let colors: Vec<[u8; 3]> = vec![[1, 2, 3], [4, 5, 6], [7, 8, 9]];
    let found = clusters_of_run(&colors, &vec![1, 1, 1, 0], 2, 2);
    assert_eq!(found.len(), 2, "a colour without a pixel is left out");
    assert_eq!(found[0].color, [4, 5, 6]);
    assert_eq!(f(found[0].weight), 0.75);
    assert_eq!(f(found[0].centroid.x), 1.0 / 3.0);
    assert_eq!(f(found[0].centroid.y), 1.0 / 3.0);
    assert_eq!(found[1].color, [1, 2, 3]);
    assert_eq!((f(found[1].centroid.x), f(found[1].centroid.y)), (1.0, 1.0));
}

#[test]
fn the_lowest_score_wins() {
    assert_eq!(best_run(&vec![b(3.0), b(1.0), b(2.0), b(1.0)]), Some(1));
    assert_eq!(best_run(&vec![]), None);
}

#[test]
fn the_dominant_cluster_is_the_last_of_the_heaviest() {
    let clusters =
        vec![cluster([1, 1, 1], 0.4), cluster([2, 2, 2], 0.4), cluster([3, 3, 3], 0.2)];
    assert_eq!(dominant_index(&clusters), Some(1));
    assert_eq!(derive_background_rgba(&clusters), [2, 2, 2, 255]);
    assert_eq!(drop_dominant(&clusters).len(), 2);
    assert_eq!(dominant_index(&[]), None);
}

#[test]
fn errors_are_told() {
    assert_eq!(ClusterError::EmptyImage.message(), "input image is empty (0x0)");
    assert_eq!(ClusterError::KZero.message(), "k must be at least 1");
}

#[test]
fn clusters_come_by_weight_and_within_the_picture() {
    let img = picture(60, 40, |x, y| {
        if x < 40 {
            [220, 30, 30]
        } else if y < 10 {
            [30, 220, 30]
        } else {
            [30, 30, 220]
        }
    });
    let clusters = extract_clusters(&img, 3).expect("clusters");
    let total: f32 = clusters.iter().map(|c| f(c.weight)).sum();
    approx(total, 1.0, 1e-4, "weights");
    for pair in clusters.windows(2) {
        assert!(f(pair[0].weight) >= f(pair[1].weight));
    }
    for c in &clusters {
        for v in [c.centroid.x, c.centroid.y, c.weight] {
            assert!((0.0..=1.0).contains(&f(v)));
        }
    }
}

#[test]
fn the_groups_of_a_run_share_the_pixels() {
    let indices: Vec<u8> = (0..64u32).map(|i| (i * i % 5) as u8).collect();
    let colors = vec![[1, 2, 3], [4, 5, 6], [7, 8, 9], [10, 11, 12], [13, 14, 15]];
    let clusters = clusters_of_run(&colors, &indices, 8, 8);
    let pixels: f32 = clusters.iter().map(|c| f(c.weight) * 64.0).sum();
    assert_eq!(pixels, 64.0);
    // 0, 1 and 4 are the squares modulo 5
    assert_eq!(clusters.len(), 3);
}

#[test]
fn the_clusters_of_a_picture_share_it() {
    for (w, h, k) in [(1, 1, 1), (1, 1, 7), (2, 1, 9), (5, 3, 4), (300, 7, 6), (31, 29, 40)] {
        let img = picture(w, h, |x, y| [(x * 37 % 256) as u8, (y * 91 % 256) as u8, 40]);
        let clusters = extract_clusters(&img, k).expect("clusters");
        assert!((1..=k).contains(&clusters.len()));
        assert!(clusters.len() <= (w * h) as usize);
        assert!(clusters.iter().all(|c| f(c.weight) > 0.0));
        let total: f64 = clusters.iter().map(|c| f(c.weight) as f64).sum();
        assert!((total - 1.0).abs() <= 1.0 / 8388608.0, "{w}x{h} {k}: {total}");
    }
}
