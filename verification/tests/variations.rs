use orber::animate::{MotionDirection, MotionSpeed};
use orber::binary32::Binary32;
use orber::variations::random_ranges;
use orber::variations::{
    default_variations, gui_video_directions, gui_video_speeds, random_batch_specs, select_specs,
    spec_from_draws, SpecDraws, VariationKind, VariationMode, GUI_VIDEO_COUNT_DEFAULT,
};
use rand::{Rng, SeedableRng};

fn f(x: Binary32) -> f32 {
    f32::from_bits(x.bits)
}

#[test]
fn default_set_has_ten_specs() {
    assert_eq!(default_variations().len(), 10);
}

#[test]
fn default_set_balance() {
    let specs = default_variations();
    let png = specs.iter().filter(|s| s.kind == VariationKind::Png).count();
    let mp4 = specs.iter().filter(|s| s.kind == VariationKind::Mp4).count();
    assert!(png >= 1, "expected at least 1 still variation");
    assert!(mp4 >= 1, "expected at least 1 video variation");
    assert_eq!((png, mp4), (4, 6));
}

#[test]
fn default_set_covers_all_directions() {
    let mut seen_lr = false;
    let mut seen_rl = false;
    let mut seen_tb = false;
    let mut seen_bt = false;
    for s in default_variations() {
        match s.direction {
            MotionDirection::LeftToRight => seen_lr = true,
            MotionDirection::RightToLeft => seen_rl = true,
            MotionDirection::TopToBottom => seen_tb = true,
            MotionDirection::BottomToTop => seen_bt = true,
        }
    }
    assert!(seen_lr, "LeftToRight not represented");
    assert!(seen_rl, "RightToLeft not represented");
    assert!(seen_tb, "TopToBottom not represented");
    assert!(seen_bt, "BottomToTop not represented");
}

#[test]
fn labels_have_no_color_axis() {
    let forbidden = [
        "warm", "cool", "aurora", "dream", "hi_key", "dark_mood", "drift", "glow", "mist",
    ];
    for s in default_variations() {
        for tag in forbidden {
            assert!(!s.label.contains(tag), "label {:?} contains {tag:?}", s.label);
        }
    }
}

#[test]
fn count_is_in_screen_filling_range() {
    for s in default_variations() {
        assert!(
            (10..=50).contains(&s.count),
            "spec {:?} has count {} outside the 10..=50 range",
            s.label,
            s.count
        );
    }
}

#[test]
fn labels_unique_and_ascii_safe() {
    let mut seen = std::collections::HashSet::new();
    for s in default_variations() {
        assert!(seen.insert(s.label.clone()), "duplicate label: {}", s.label);
        for ch in s.label.chars() {
            assert!(
                ch.is_ascii_alphanumeric() || ch == '_',
                "non shell-safe char in label {:?}: {ch:?}",
                s.label
            );
        }
    }
}

#[test]
fn default_set_keeps_its_numbers() {
    let specs = default_variations();
    let sizes = [3.0, 4.5, 2.5, 3.5, 3.0, 3.8, 2.8, 3.5, 1.5, 5.0f32];
    let blurs = [0.5, 0.6, 0.4, 0.8, 0.5, 0.6, 0.5, 0.7, 0.3, 0.6f32];
    let counts = [25, 12, 30, 20, 20, 15, 28, 18, 50, 10usize];
    for i in 0..10 {
        assert_eq!(f(specs[i].orb_size), sizes[i]);
        assert_eq!(f(specs[i].blur), blurs[i]);
        assert_eq!(specs[i].count, counts[i]);
        assert_eq!(specs[i].seed, i as u64 + 1);
        assert_eq!(specs[i].duration_ms, if i < 4 { 0 } else { 8000 });
    }
    assert_eq!(specs[8].label, "flow_lr_dense_small");
}

#[test]
fn select_specs_respects_mode() {
    let still = select_specs(10, VariationMode::Still);
    assert!(still.iter().all(|s| s.kind == VariationKind::Png));
    let video = select_specs(10, VariationMode::Video);
    assert!(video.iter().all(|s| s.kind == VariationKind::Mp4));
    let mixed = select_specs(10, VariationMode::Mixed);
    assert_eq!(mixed.len(), 10);
    assert_eq!((still.len(), video.len()), (4, 6));
}

#[test]
fn select_specs_respects_n() {
    let three = select_specs(3, VariationMode::Mixed);
    assert_eq!(three.len(), 3);
    let zero = select_specs(0, VariationMode::Mixed);
    assert_eq!(zero.len(), 0);
}

#[test]
fn random_batch_specs_keeps_kind_split() {
    let specs = random_batch_specs(42, 10, 5);
    assert_eq!(specs.len(), 10);
    for s in &specs[..5] {
        assert_eq!(s.kind, VariationKind::Png, "first 5 (still_count) must be PNG");
        assert_eq!(s.duration_ms, 0, "PNG specs must have duration_ms=0");
    }
    for s in &specs[5..] {
        assert_eq!(s.kind, VariationKind::Mp4, "remaining must be MP4");
        assert!(
            (random_ranges::DURATION_MS_MIN..=random_ranges::DURATION_MS_MAX)
                .contains(&s.duration_ms),
            "MP4 spec duration_ms {} out of range",
            s.duration_ms
        );
    }
}

#[test]
fn gui_video_directions_are_unique_and_cover_all_axes() {
    let dirs = gui_video_directions();
    assert_eq!(dirs.len(), GUI_VIDEO_COUNT_DEFAULT);
    assert_eq!(dirs[0], MotionDirection::LeftToRight);
    assert_eq!(dirs[1], MotionDirection::RightToLeft);
    assert_eq!(dirs[2], MotionDirection::TopToBottom);
    assert_eq!(dirs[3], MotionDirection::BottomToTop);
    let mut sorted = dirs.to_vec();
    sorted.sort_by_key(|d| match d {
        MotionDirection::LeftToRight => 0,
        MotionDirection::RightToLeft => 1,
        MotionDirection::TopToBottom => 2,
        MotionDirection::BottomToTop => 3,
    });
    sorted.dedup();
    assert_eq!(
        sorted.len(),
        GUI_VIDEO_COUNT_DEFAULT,
        "all 4 directions must appear exactly once"
    );
}

#[test]
fn gui_video_speeds_alternate() {
    let speeds = gui_video_speeds();
    assert_eq!(speeds.len(), GUI_VIDEO_COUNT_DEFAULT);
    let cycles: Vec<u32> = speeds.iter().map(|s| s.cycle_count()).collect();
    assert_eq!(cycles, vec![1, 2, 1, 2]);
}

#[test]
fn random_batch_specs_in_range() {
    let specs = random_batch_specs(123, 10, 5);
    for s in &specs {
        assert!(
            (random_ranges::COUNT_MIN..=random_ranges::COUNT_MAX).contains(&s.count),
            "count {} out of range",
            s.count
        );
        let size = f(s.orb_size);
        assert!(
            size >= f32::from_bits(random_ranges::ORB_SIZE_MIN)
                && size <= f32::from_bits(random_ranges::ORB_SIZE_MAX),
            "orb_size {size} out of range"
        );
        assert!((1.5..=5.0).contains(&size));
        let blur = f(s.blur);
        assert!(
            blur >= f32::from_bits(random_ranges::BLUR_MIN)
                && blur <= f32::from_bits(random_ranges::BLUR_MAX),
            "blur {blur} out of range"
        );
        assert!((0.5..=0.85).contains(&blur));
    }
}

#[test]
fn random_batch_specs_is_deterministic_per_seed() {
    let a = random_batch_specs(7, 10, 5);
    let b = random_batch_specs(7, 10, 5);
    assert_eq!(a.len(), b.len());
    for (l, r) in a.iter().zip(b.iter()) {
        assert_eq!(l.kind, r.kind);
        assert_eq!(l.direction, r.direction);
        assert_eq!(l.speed, r.speed);
        assert_eq!(l.count, r.count);
        assert_eq!(l.seed, r.seed);
        assert_eq!(l.duration_ms, r.duration_ms);
    }
}

#[test]
fn random_batch_specs_differ_across_seeds() {
    let a = random_batch_specs(1, 10, 5);
    let b = random_batch_specs(2, 10, 5);
    let any_seed_diff = a.iter().zip(b.iter()).any(|(l, r)| l.seed != r.seed);
    assert!(
        any_seed_diff,
        "different base seed must produce different spec seeds"
    );
}

#[test]
fn random_batch_specs_total_one_still_one_returns_png() {
    let specs = random_batch_specs(1, 1, 1);
    assert_eq!(specs.len(), 1);
    assert_eq!(specs[0].kind, VariationKind::Png);
}

#[test]
fn random_batch_specs_clamps_still_count_to_total() {
    let specs = random_batch_specs(1, 3, 999);
    assert_eq!(specs.len(), 3);
    for s in &specs {
        assert_eq!(s.kind, VariationKind::Png, "all-still expected");
    }
}

#[test]
fn random_batch_specs_count_extremes_are_inclusive() {
    let mut hit_max = false;
    let mut hit_min = false;
    for seed in 0u64..2000 {
        for s in random_batch_specs(seed, 10, 5) {
            if s.count == random_ranges::COUNT_MAX {
                hit_max = true;
            }
            if s.count == random_ranges::COUNT_MIN {
                hit_min = true;
            }
        }
    }
    assert!(hit_max, "COUNT_MAX never reached");
    assert!(hit_min, "COUNT_MIN never reached");
}

#[test]
fn random_batch_specs_pins_wasm32_sequence() {
    let specs = random_batch_specs(42, 12, 8);
    assert_eq!(specs[8].count, 38);
    assert_eq!(specs[8].seed, 0x10cc204f3db50cf9);
    assert_eq!(specs[0].count, 27);
    assert_eq!(specs[0].seed, 0x49e149d8bcb642b0);
}

#[test]
fn random_batch_specs_directions_diversify() {
    let specs = random_batch_specs(42, 10, 5);
    let mut seen = [false; 4];
    for s in &specs {
        let idx = match s.direction {
            MotionDirection::LeftToRight => 0,
            MotionDirection::RightToLeft => 1,
            MotionDirection::TopToBottom => 2,
            MotionDirection::BottomToTop => 3,
        };
        seen[idx] = true;
    }
    let unique = seen.iter().filter(|b| **b).count();
    assert!(unique >= 2, "expected at least 2 distinct directions, got {unique}");
}

#[test]
fn random_labels_count_from_one_with_two_digits() {
    let specs = random_batch_specs(5, 120, 120);
    assert_eq!(specs[0].label, "random_01");
    assert_eq!(specs[11].label, "random_12");
    assert_eq!(specs[99].label, "random_100");
    assert_eq!(specs[119].label, "random_120");
}

#[test]
fn kinds_have_their_extensions_and_modes() {
    assert_eq!(VariationKind::Png.ext(), "png");
    assert_eq!(VariationKind::Mp4.ext(), "mp4");
    assert!(VariationMode::Mixed.accepts(VariationKind::Png));
    assert!(VariationMode::Mixed.accepts(VariationKind::Mp4));
    assert!(VariationMode::Still.accepts(VariationKind::Png));
    assert!(!VariationMode::Still.accepts(VariationKind::Mp4));
    assert!(!VariationMode::Video.accepts(VariationKind::Png));
    assert!(VariationMode::Video.accepts(VariationKind::Mp4));
}

/// The draws of a batch, made one after the other on one generator.
#[test]
fn random_batch_specs_reads_one_stream() {
    let mut rng = rand_chacha::ChaCha8Rng::seed_from_u64(99);
    let specs = random_batch_specs(99, 6, 3);
    for (i, s) in specs.iter().enumerate() {
        let direction: u8 = rng.gen_range(0..4u8);
        let expected = [
            MotionDirection::LeftToRight,
            MotionDirection::RightToLeft,
            MotionDirection::TopToBottom,
            MotionDirection::BottomToTop,
        ][direction as usize];
        assert_eq!(s.direction, expected);
        let slow = rng.gen_bool(0.5);
        assert_eq!(s.speed.cycle_count(), if slow { 2 } else { 1 });
        assert_eq!(s.count, rng.gen_range(10u32..=50) as usize);
        assert_eq!(f(s.orb_size), rng.gen_range(1.5f32..=5.0));
        assert_eq!(f(s.blur), rng.gen_range(0.5f32..=0.85));
        assert_eq!(s.seed, rng.gen::<u64>());
        if i >= 3 {
            assert_eq!(s.duration_ms, rng.gen_range(6000u64..=10000));
        }
    }
}

#[test]
fn a_random_variation_follows_its_draws() {
    let draws = SpecDraws {
        direction: 2,
        slow: false,
        count: 17,
        orb_size: Binary32::from_bits(2.5f32.to_bits()),
        blur: Binary32::from_bits(0.25f32.to_bits()),
        seed: 99,
        duration_ms: 4200,
    };
    let spec = spec_from_draws(8, VariationKind::Mp4, draws);
    assert_eq!(spec.label, "random_09");
    assert_eq!(spec.kind, VariationKind::Mp4);
    assert_eq!((spec.direction, spec.speed), (MotionDirection::TopToBottom, MotionSpeed::VerySlow));
    assert_eq!((spec.count, spec.seed, spec.duration_ms), (17, 99, 4200));
    assert_eq!((f(spec.orb_size), f(spec.blur)), (2.5, 0.25));
    let directions = [0, 1, 3].map(|direction| {
        spec_from_draws(0, VariationKind::Png, SpecDraws { direction, slow: true, ..draws })
    });
    assert_eq!(directions[0].direction, MotionDirection::LeftToRight);
    assert_eq!(directions[1].direction, MotionDirection::RightToLeft);
    assert_eq!(directions[2].direction, MotionDirection::BottomToTop);
    assert!(directions.iter().all(|s| s.speed == MotionSpeed::Slow && s.label == "random_01"));
    assert_eq!(spec_from_draws(122, VariationKind::Png, draws).label, "random_123");
}
