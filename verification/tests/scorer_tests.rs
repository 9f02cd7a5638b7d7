use codewatch::scorer::{format_size, score_ranges, ScorerInput};

#[test]
fn test_format_size() {
    assert_eq!(format_size(500), "500B");
    assert_eq!(format_size(1024), "1.0KB");
    assert_eq!(format_size(1024 * 1024), "1.0MB");
    assert_eq!(format_size(1500 * 1024), "1.5MB");
}

fn float_formatted(bytes: u64) -> String {
    if bytes < 1024 {
        format!("{}B", bytes)
    } else if bytes < 1024 * 1024 {
        format!("{:.1}KB", bytes as f64 / 1024.0)
    } else {
        format!("{:.1}MB", bytes as f64 / (1024.0 * 1024.0))
    }
}

#[test]
fn format_size_matches_float_formatting() {
    let mut samples: Vec<u64> = Vec::new();
    for b in 0..5000u64 {
        samples.push(b);
    }
    for b in (1024 * 1024 - 3000)..(1024 * 1024 + 3000) {
        samples.push(b);
    }
    // Values whose tenths fall exactly half-way: 0.05 KiB steps.
    for k in 0..400u64 {
        samples.push(k * 512 + 51);
        samples.push(k * 52428 + 104857);
        samples.push(k * 1024 * 1024 / 20);
    }
    let mut x: u64 = 0x9E37_79B9_7F4A_7C15;
    for _ in 0..20000 {
        x ^= x << 13;
        x ^= x >> 7;
        x ^= x << 17;
        samples.push(x);
        samples.push(x >> 20);
        samples.push(x >> 40);
    }
    samples.push(u64::MAX);
    samples.push(u64::MAX - 1);
    samples.push(1 << 53);
    samples.push((1 << 53) + 1);
    samples.push((1 << 63) + 1024 * 1024 * 5 / 100);
    for b in samples {
        assert_eq!(format_size(b), float_formatted(b), "bytes = {}", b);
    }
}

#[test]
fn format_size_boundaries() {
    assert_eq!(format_size(0), "0B");
    assert_eq!(format_size(1023), "1023B");
    assert_eq!(format_size(1048575), "1024.0KB");
    assert_eq!(format_size(1126), "1.1KB");
    // 1.25 KiB lies half-way between 1.2 and 1.3 and rounds to the even tenth.
    assert_eq!(format_size(1280), "1.2KB");
    assert_eq!(format_size(1331), "1.3KB");
    assert_eq!(format_size(u64::MAX), "17592186044416.0MB");
}

#[test]
fn score_ranges_empty() {
    assert!(score_ranges(&[]).is_none());
}

#[test]
fn score_ranges_single() {
    let inputs = vec![ScorerInput { git_commits: 10, file_size: 2000, ref_count: 5 }];
    let r = score_ranges(&inputs).unwrap();
    assert_eq!((r.git_commits.min, r.git_commits.max), (10, 10));
    assert_eq!((r.file_size.min, r.file_size.max), (2000, 2000));
    assert_eq!((r.ref_count.min, r.ref_count.max), (5, 5));
}

#[test]
fn score_ranges_multiple() {
    let inputs = vec![
        ScorerInput { git_commits: 0, file_size: 1000, ref_count: 0 },
        ScorerInput { git_commits: 10, file_size: 2000, ref_count: 20 },
        ScorerInput { git_commits: 4, file_size: 500, ref_count: 7 },
    ];
    let r = score_ranges(&inputs).unwrap();
    assert_eq!((r.git_commits.min, r.git_commits.max), (0, 10));
    assert_eq!((r.file_size.min, r.file_size.max), (500, 2000));
    assert_eq!((r.ref_count.min, r.ref_count.max), (0, 20));
}
