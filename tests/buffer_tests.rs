use ccwt::{emit_interleaved, pad_input, SessionLayout};

#[test]
fn samples_sit_between_zero_padding() {
    let l = SessionLayout::new(8, 4, 8).unwrap();
    let samples: Vec<f64> = vec![0.0, 1.0, 0.0, -1.0, 0.0, 1.0, 0.0, -1.0];
    let padded = pad_input(&l, &samples, 0.0);
    assert_eq!(padded.len(), 16);
    assert_eq!(&padded[0..4], &[0.0; 4]);
    assert_eq!(&padded[4..12], &samples[..]);
    assert_eq!(&padded[12..16], &[0.0; 4]);
}

#[test]
fn padding_uses_the_given_zero() {
    let l = SessionLayout::new(2, 1, 1).unwrap();
    let padded = pad_input(&l, &vec![5i32, 6], -1);
    assert_eq!(padded, vec![-1, 5, 6, -1]);
}

#[test]
fn no_padding_copies_the_samples() {
    let l = SessionLayout::new(3, 0, 2).unwrap();
    assert_eq!(pad_input(&l, &vec![1u8, 2, 3], 0), vec![1, 2, 3]);
}

#[test]
fn emitted_series_drops_padding_and_interleaves() {
    let l = SessionLayout::new(10, 3, 4).unwrap();
    assert_eq!(l.output_padding, 1);
    let re: Vec<f32> = (0..6).map(|i| i as f32).collect();
    let im: Vec<f32> = (0..6).map(|i| -(i as f32) - 0.5).collect();
    let out = emit_interleaved(&l, &re, &im);
    assert_eq!(out, vec![1.0, -1.5, 2.0, -2.5, 3.0, -3.5, 4.0, -4.5]);
}

#[test]
fn emitted_series_has_output_width_pairs() {
    for (n, p, w) in [(8usize, 4usize, 8usize), (10, 3, 4), (5, 0, 1), (7, 9, 3)] {
        let l = SessionLayout::new(n, p, w).unwrap();
        let re = vec![0i32; l.output_sample_count];
        let im = vec![1i32; l.output_sample_count];
        let out = emit_interleaved(&l, &re, &im);
        assert_eq!(out.len(), 2 * w);
    }
}
