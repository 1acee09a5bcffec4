use orber::cli::CliVariationMode;
use orber::orb::OrbShape;
use orber::scene::{wanted_variations, VariationTask};
use orber::style::SoftnessPreset;
use orber::variation_run::{VariationRun, VariationStep};

fn run(n: usize) -> VariationRun {
    let specs = wanted_variations(n, CliVariationMode::Mixed).unwrap().0;
    let shape = OrbShape::Image { sdf: vec![7, 8, 9, 10], size: 2 };
    VariationRun::new(specs, [1, 2, 3, 255], shape, SoftnessPreset::High)
}

fn file_of(step: VariationStep) -> Option<(String, String)> {
    match step {
        VariationStep::Render { notice, file, .. } => Some((notice, file)),
        VariationStep::End => None,
    }
}

#[test]
fn a_run_writes_the_variations_in_their_order() {
    let mut run = run(5);
    let labels: Vec<String> = run.specs.iter().map(|s| s.label.clone()).collect();
    for (i, label) in labels.iter().enumerate() {
        let (notice, file) = file_of(run.next_step()).expect("a file");
        let kind = run.specs[i].kind.ext();
        assert_eq!(file, format!("0{}_{label}.{kind}", i + 1));
        assert_eq!(notice, format!("orber: variation {}/5 ({file})", i + 1));
        assert_eq!(run.file_done(Ok(())), Ok(()));
    }
    assert!(file_of(run.next_step()).is_none());
    assert_eq!((run.written, run.failed), (5, false));
}

#[test]
fn nothing_follows_a_failure() {
    let mut run = run(4);
    assert_eq!(run.file_done(Ok(())), Ok(()));
    let (_, file) = file_of(run.next_step()).expect("a file");
    assert_eq!(
        run.file_done(Err("disk full".to_string())),
        Err(format!("orber: variation 2 ({file}) failed: disk full"))
    );
    assert!(file_of(run.next_step()).is_none());
    assert_eq!((run.written, run.failed), (1, true));
}

#[test]
fn a_run_without_variations_ends_at_once() {
    let run = VariationRun::new(vec![], [0; 4], OrbShape::Orb, SoftnessPreset::Mid);
    assert!(matches!(run.next_step(), VariationStep::End));
}

#[test]
fn every_variation_has_the_shape_of_the_run() {
    let mut run = run(3);
    while let VariationStep::Render { task, .. } = run.next_step() {
        let shape = match task {
            VariationTask::Still { options } => options.shape,
            VariationTask::Video { options, .. } => options.shape,
        };
        match shape {
            OrbShape::Image { sdf, size } => assert_eq!((sdf, size), (vec![7, 8, 9, 10], 2)),
            _ => panic!("another shape"),
        }
        run.file_done(Ok(())).unwrap();
    }
    assert_eq!(run.written, 3);
}
