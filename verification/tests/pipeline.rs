use spektra::pipeline::{plan_frames, Analyzer, Channel, PipelineError, Source, Step, BANDS, FFT_SIZE};

fn run(total: usize, hop: usize, num_cols: usize) -> Vec<Step> {
    let plan = plan_frames(total, hop, num_cols).unwrap();
    let mut analyzer = Analyzer::new(plan);
    let mut steps = Vec::new();
    loop {
        let s = analyzer.step();
        steps.push(s);
        if s == Step::Finished {
            return steps;
        }
    }
}

#[test]
fn constants_match_the_fft() {
    assert_eq!(FFT_SIZE, 2048);
    assert_eq!(BANDS, 1025);
}

#[test]
fn plan_rejects_stream_shorter_than_one_window() {
    let r = plan_frames(2047, 1024, 800);
    assert_eq!(r.unwrap_err(), PipelineError::TooShort);
    assert_eq!(PipelineError::TooShort.message(), "Audio too short");
}

#[test]
fn plan_counts_frames() {
    let p = plan_frames(4096, 1024, 800).unwrap();
    assert_eq!(p.num_frames, 3);
    let p = plan_frames(2048, 1024, 800).unwrap();
    assert_eq!(p.num_frames, 1);
    let p = plan_frames(2048 + 1023, 1024, 800).unwrap();
    assert_eq!(p.num_frames, 1);
    let p = plan_frames(2048 * 10, 1, 800).unwrap();
    assert_eq!(p.num_frames, 2048 * 9 + 1);
}

#[test]
fn run_emits_each_column_once_in_order() {
    // ten frames over four columns: 3, 2, 3 and 2 frames
    let steps = run(2048 + 1024 * 9, 1024, 4);
    assert_eq!(steps.len(), 10 + 4 + 1);
    let emitted: Vec<(usize, usize)> = steps
        .iter()
        .filter_map(|s| match s {
            Step::Emit { col, divisor } => Some((*col, *divisor)),
            _ => None,
        })
        .collect();
    assert_eq!(emitted, vec![(0, 3), (1, 2), (2, 3), (3, 2)]);
    let analyzed: Vec<(usize, usize, usize)> = steps
        .iter()
        .filter_map(|s| match s {
            Step::Analyze { frame, col, offset } => Some((*frame, *col, *offset)),
            _ => None,
        })
        .collect();
    let expected_cols = [0, 0, 0, 1, 1, 2, 2, 2, 3, 3];
    assert_eq!(analyzed.len(), 10);
    for (i, (frame, col, offset)) in analyzed.iter().enumerate() {
        assert_eq!(*frame, i);
        assert_eq!(*col, expected_cols[i]);
        assert_eq!(*offset, i * 1024);
    }
}

#[test]
fn no_frame_goes_to_an_emitted_column() {
    let steps = run(2048 + 512 * 37, 512, 7);
    let mut emitted_upto = 0usize;
    for s in &steps {
        match s {
            Step::Emit { col, .. } => {
                assert_eq!(*col, emitted_upto);
                emitted_upto += 1;
            }
            Step::Analyze { col, .. } => assert!(*col >= emitted_upto),
            Step::Finished => {}
        }
    }
    assert_eq!(emitted_upto, 7);
}

#[test]
fn columns_without_frames_are_divided_by_one() {
    let steps = run(2048, 1024, 3);
    assert_eq!(
        steps,
        vec![
            Step::Analyze { frame: 0, col: 0, offset: 0 },
            Step::Emit { col: 0, divisor: 1 },
            Step::Emit { col: 1, divisor: 1 },
            Step::Emit { col: 2, divisor: 1 },
            Step::Finished,
        ]
    );
}

#[test]
fn windows_stay_inside_the_stream() {
    let total = 2048 + 1000 * 5 + 999;
    let steps = run(total, 1000, 800);
    for s in &steps {
        if let Step::Analyze { frame, offset, .. } = s {
            assert_eq!(*offset, frame * 1000);
            assert!(offset + FFT_SIZE <= total);
        }
    }
}

#[test]
fn finished_stays_finished() {
    let plan = plan_frames(2048, 2048, 1).unwrap();
    let mut a = Analyzer::new(plan);
    assert_eq!(a.step(), Step::Analyze { frame: 0, col: 0, offset: 0 });
    assert_eq!(a.step(), Step::Emit { col: 0, divisor: 1 });
    assert_eq!(a.step(), Step::Finished);
    assert_eq!(a.step(), Step::Finished);
}

#[test]
fn column_and_offset_helpers() {
    let plan = plan_frames(2048 + 1024 * 9, 1024, 4).unwrap();
    assert_eq!(plan.column_for_frame(0), 0);
    assert_eq!(plan.column_for_frame(4), 1);
    assert_eq!(plan.column_for_frame(9), 3);
    assert_eq!(plan.offset_for_frame(9), 9 * 1024);
}

#[test]
fn channel_sources() {
    assert_eq!(Channel::Left.sources(), (Source::Left, None));
    assert_eq!(Channel::Right.sources(), (Source::Right, None));
    assert_eq!(Channel::Mix.sources(), (Source::Mix, None));
    assert_eq!(Channel::Split.sources(), (Source::Left, Some(Source::Right)));
}
