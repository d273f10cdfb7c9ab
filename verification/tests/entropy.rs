use diskchurn::entropy::{sample_histogram, SAMPLE_SIZE};

fn shannon(buf: &[u8]) -> f32 {
    let mut counts = [0u64; 256];
    for &b in buf {
        counts[b as usize] += 1;
    }
    let n = buf.len() as f64;
    counts.iter().filter(|&&c| c > 0).fold(0f64, |acc, &c| {
        let p = c as f64 / n;
        acc - p * p.log2()
    }) as f32
}

#[test]
fn single_byte_value_has_zero_entropy() {
    let buf = vec![0x42u8; 4096];
    let h = shannon(&buf);
    assert!(h < 0.001, "constant byte stream must have H=0, got {}", h);
}

#[test]
fn uniform_distribution_approaches_eight() {
    let buf: Vec<u8> = (0u8..=255).cycle().take(1024).collect();
    let h = shannon(&buf);
    assert!((h - 8.0).abs() < 0.01, "uniform dist must have H≈8.0, got {}", h);
}

#[test]
fn histogram_counts_each_byte() {
    let buf = vec![1u8, 2, 2, 255, 1, 1, 9, 9];
    let h = sample_histogram(&buf, 6).unwrap();
    assert_eq!(h.len(), 256);
    assert_eq!(h[1], 3);
    assert_eq!(h[2], 2);
    assert_eq!(h[255], 1);
    assert_eq!(h[9], 0);
    assert_eq!(h.iter().sum::<u64>(), 6);
}

#[test]
fn empty_read_has_no_histogram() {
    let buf = vec![0u8; SAMPLE_SIZE];
    assert!(sample_histogram(&buf, 0).is_none());
    let h = sample_histogram(&buf, SAMPLE_SIZE).unwrap();
    assert_eq!(h[0], SAMPLE_SIZE as u64);
}
