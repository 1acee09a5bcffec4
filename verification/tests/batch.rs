use orber::batch::{encode_batch, plan_batch, BatchError, BatchInput};
use orber::cluster::ClusterError;
use orber::orb::OrbShape;
use orber::picture::{RgbPicture, RgbaPicture};
use orber::scene::picture_scene;
use orber::variations::default_variations;

fn synthetic_source() -> RgbPicture {
    let pixels: [[u8; 3]; 16] = [
        [255, 0, 0],
        [200, 30, 30],
        [255, 0, 0],
        [200, 30, 30],
        [0, 200, 0],
        [30, 220, 30],
        [0, 200, 0],
        [30, 220, 30],
        [0, 0, 200],
        [30, 30, 220],
        [0, 0, 200],
        [30, 30, 220],
        [240, 240, 240],
        [200, 200, 200],
        [240, 240, 240],
        [200, 200, 200],
    ];
    RgbPicture { width: 4, height: 4, data: pixels.concat() }
}

fn input(k: usize) -> BatchInput {
    BatchInput {
        source: synthetic_source(),
        k,
        width: 64,
        height: 64,
        shape: OrbShape::Orb,
        specs: default_variations().into_iter().take(2).collect(),
    }
}

#[test]
fn generate_batch_returns_one_png_per_spec() {
    let input = input(4);
    let n = input.specs.len();
    let plan = plan_batch(&input).expect("kmeans should succeed on 4x4 RGB input");
    let stills: Vec<RgbaPicture> = plan
        .frames
        .iter()
        .map(|o| RgbaPicture {
            width: o.width,
            height: o.height,
            data: o.background.repeat((o.width * o.height) as usize),
        })
        .collect();
    let pngs = encode_batch(&stills).expect("encoding");
    assert_eq!(pngs.len(), n, "1 PNG per spec");
    let magic: &[u8] = &[0x89, b'P', b'N', b'G', b'\r', b'\n', 0x1a, b'\n'];
    for (i, png) in pngs.iter().enumerate() {
        assert!(png.starts_with(magic), "spec {i} output does not start with PNG magic bytes");
        assert!(png.len() > magic.len(), "spec {i} PNG is suspiciously small");
        let back = image::load_from_memory(png).expect("decodes").to_rgba8();
        assert_eq!(back.into_raw(), stills[i].data);
    }
}

#[test]
fn a_plan_has_a_frame_for_each_variation() {
    let input = input(4);
    let plan = plan_batch(&input).unwrap();
    assert_eq!(plan.frames.len(), 2);
    let scene = picture_scene(&input.source, 4).unwrap();
    assert_eq!(plan.clusters, scene.clusters);
    for (frame, spec) in plan.frames.iter().zip(&input.specs) {
        assert_eq!((frame.width, frame.height), (64, 64));
        assert_eq!((frame.seed, frame.count), (spec.seed, Some(spec.count)));
        assert_eq!((frame.orb_size, frame.blur), (spec.orb_size, spec.blur));
        assert_eq!(frame.background, scene.background);
    }
}

#[test]
fn batches_fail_where_a_step_does() {
    match plan_batch(&input(0)) {
        Err(BatchError::Cluster(ClusterError::KZero)) => {}
        other => panic!("expected KZero, got {other:?}"),
    }
    assert_eq!(
        BatchError::Cluster(ClusterError::KZero).message(),
        "cluster extraction failed: k must be at least 1"
    );
    assert_eq!(BatchError::Encode("x".to_string()).message(), "PNG encode failed: x");
    let empty = RgbaPicture { width: 0, height: 0, data: vec![] };
    assert!(matches!(encode_batch(&vec![empty]), Err(BatchError::Encode(_))));
    assert_eq!(encode_batch(&vec![]).unwrap().len(), 0);
}

#[test]
fn a_batch_ends_at_the_first_still_that_cannot_be_encoded() {
    let good = RgbaPicture { width: 1, height: 1, data: vec![1, 2, 3, 4] };
    let flat = RgbaPicture { width: 4, height: 0, data: vec![] };
    let thin = RgbaPicture { width: 0, height: 4, data: vec![] };
    let told = |stills: Vec<RgbaPicture>| match encode_batch(&stills) {
        Err(BatchError::Encode(e)) => e,
        _ => panic!("encoded"),
    };
    let alone = told(vec![thin.clone()]);
    assert_eq!(told(vec![good.clone(), thin.clone(), flat.clone()]), alone);
    assert_eq!(told(vec![good.clone(), flat.clone(), thin]), told(vec![flat]));
    let files = encode_batch(&vec![good.clone(), good]).expect("files");
    assert_eq!(files[0], files[1]);
}
