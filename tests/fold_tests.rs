use ccwt::{fold_schedule, FoldStep, SessionLayout};

fn step(output_x: usize, input_x: usize, accumulate: bool) -> FoldStep {
    FoldStep { output_x, input_x, accumulate }
}

fn run(steps: &[FoldStep], values: &[i64], init: &[i64]) -> Vec<i64> {
    let mut out = init.to_vec();
    for s in steps {
        if s.accumulate {
            out[s.output_x] += values[s.input_x];
        } else {
            out[s.output_x] = values[s.input_x];
        }
    }
    out
}

#[test]
fn schedule_with_whole_blocks_and_a_tail() {
    // 16 input bins onto 6 output bins: one direct block, one added block, a tail of 4.
    let l = SessionLayout::new(10, 3, 4).unwrap();
    let steps = fold_schedule(&l);
    assert_eq!(steps.len(), 16);
    for i in 0..6 {
        assert_eq!(steps[i], step(i, i, false));
    }
    for i in 6..12 {
        assert_eq!(steps[i], step(i - 6, i, true));
    }
    for i in 12..16 {
        assert_eq!(steps[i], step(i - 12, i, true));
    }
}

#[test]
fn schedule_without_downsampling_is_direct() {
    let l = SessionLayout::new(8, 0, 8).unwrap();
    let steps = fold_schedule(&l);
    let expected: Vec<FoldStep> = (0..8).map(|i| step(i, i, false)).collect();
    assert_eq!(steps, expected);
    let values: Vec<i64> = vec![3, -1, 4, 1, -5, 9, 2, -6];
    assert_eq!(run(&steps, &values, &[7; 8]), values);
}

#[test]
fn schedule_with_exact_blocks_has_no_tail() {
    // 12 input bins onto 4 output bins.
    let l = SessionLayout::new(6, 3, 2).unwrap();
    assert_eq!(l.input_sample_count, 12);
    assert_eq!(l.output_sample_count, 4);
    let steps = fold_schedule(&l);
    assert_eq!(steps.len(), 12);
    assert_eq!(steps[4], step(0, 4, true));
    assert_eq!(steps[11], step(3, 11, true));
}

#[test]
fn folded_spectrum_is_the_sum_of_strided_slices() {
    let l = SessionLayout::new(10, 3, 4).unwrap();
    let steps = fold_schedule(&l);
    let values: Vec<i64> = (0..16).map(|i| (i * i) as i64 - 3 * i as i64).collect();
    let folded = run(&steps, &values, &[100; 6]);
    let mut expected = vec![0i64; 6];
    for (i, v) in values.iter().enumerate() {
        expected[i % 6] += v;
    }
    assert_eq!(folded, expected);
}

#[test]
fn folded_float_spectrum_matches_strided_sums() {
    let l = SessionLayout::new(9, 2, 3).unwrap();
    let m = l.output_sample_count;
    let steps = fold_schedule(&l);
    let values: Vec<f64> = (0..l.input_sample_count).map(|i| 0.5 * i as f64).collect();
    let mut out = vec![f64::NAN; m];
    for s in &steps {
        if s.accumulate {
            out[s.output_x] += values[s.input_x];
        } else {
            out[s.output_x] = values[s.input_x];
        }
    }
    for j in 0..m {
        let direct: f64 = (j..values.len()).step_by(m).map(|i| values[i]).sum();
        assert!((out[j] - direct).abs() < 1e-12);
    }
}

#[test]
fn schedule_is_deterministic() {
    let l = SessionLayout::new(13, 5, 6).unwrap();
    assert_eq!(fold_schedule(&l), fold_schedule(&l));
}
