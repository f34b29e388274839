use guise::ai::{compact, AIUsage};

#[test]
fn compact_counts_stay_short() {
    assert_eq!(compact(0), "0");
    assert_eq!(compact(999), "999");
    assert_eq!(compact(1_000), "1.0k");
    assert_eq!(compact(9_949), "9.9k");
    assert_eq!(compact(12_500), "13k");
    assert_eq!(compact(200_000), "200k");
    assert_eq!(compact(1_500_000), "1.5M");
}

#[test]
fn compact_rounds_the_double_it_formats() {
    // 1.05 and 1.35 are stored a hair above, 1.15 a hair below, and 1.25
    // exactly, where the tie goes to the even digit.
    assert_eq!(compact(1_050), "1.1k");
    assert_eq!(compact(1_150), "1.1k");
    assert_eq!(compact(1_250), "1.2k");
    assert_eq!(compact(1_350), "1.4k");
    assert_eq!(compact(9_950), "9.9k");
    // Whole thousands round half away from zero.
    assert_eq!(compact(10_500), "11k");
    assert_eq!(compact(11_500), "12k");
    assert_eq!(compact(999_999), "1000k");
    assert_eq!(compact(1_050_000), "1.1M");
    assert_eq!(compact(2_250_000), "2.2M");
    assert_eq!(compact(u64::MAX), "18446744073709.6M");
}

#[test]
fn usage_adds_without_overflowing() {
    let huge = AIUsage {
        input: u64::MAX,
        output: u64::MAX,
        cache_read: u64::MAX,
    };
    assert_eq!(huge.add(huge).input, u64::MAX);
    assert_eq!(huge.total(), u64::MAX);
    // Summing a session's requests uses the same saturating add.
    let total = AIUsage::sum(&[AIUsage::new(1, 2), AIUsage::new(3, 4)]);
    assert_eq!(total, AIUsage::new(4, 6));
}

#[test]
fn usage_totals_every_token() {
    let usage = AIUsage::new(100, 20).cache_read(5);
    assert_eq!(usage.total(), 125);
    assert_eq!(AIUsage::default(), AIUsage::new(0, 0));
    assert_eq!(AIUsage::sum(&[]), AIUsage::default());
}
