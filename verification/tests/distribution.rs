use sheety::Distribution;
use sheety::utils::IVec2;

#[test]
fn distribution_coverage() {
    for count in 1..=1000usize {
        for dist in [
            Distribution::FixedColumns(1),
            Distribution::FixedColumns(4),
            Distribution::FixedColumns(7),
            Distribution::FixedLines(1),
            Distribution::FixedLines(3),
            Distribution::FixedLines(10),
            Distribution::Packed(true),
            Distribution::Packed(false),
        ] {
            let size = dist.get_min_size(count);
            assert!(size.x >= 1, "no columns for {count} tiles");
            assert!(size.y >= 1, "no lines for {count} tiles");
            assert!(size.x * size.y >= count, "shape too small for {count} tiles");
        }
    }
}

#[test]
fn fixed_columns_exact() {
    assert_eq!(Distribution::FixedColumns(4).get_min_size(10), IVec2::new(4, 3));
    assert_eq!(Distribution::FixedColumns(4).get_min_size(8), IVec2::new(4, 2));
    assert_eq!(Distribution::FixedColumns(3).get_min_size(1), IVec2::new(3, 1));
    assert_eq!(Distribution::FixedColumns(1).get_min_size(5), IVec2::new(1, 5));
}

#[test]
fn fixed_lines_exact() {
    assert_eq!(Distribution::FixedLines(5).get_min_size(11), IVec2::new(3, 5));
    assert_eq!(Distribution::FixedLines(2).get_min_size(4), IVec2::new(2, 2));
    assert_eq!(Distribution::FixedLines(1).get_min_size(7), IVec2::new(7, 1));
}

#[test]
fn packed_round_half_up() {
    // sqrt(1) = 1: ceil 1, round 1
    assert_eq!(Distribution::Packed(true).get_min_size(1), IVec2::new(1, 1));
    // sqrt(2) ~ 1.41: ceil 2, round 1
    assert_eq!(Distribution::Packed(true).get_min_size(2), IVec2::new(2, 1));
    assert_eq!(Distribution::Packed(false).get_min_size(2), IVec2::new(1, 2));
    // sqrt(10) ~ 3.16: ceil 4, round 3
    assert_eq!(Distribution::Packed(true).get_min_size(10), IVec2::new(4, 3));
    // 12 = 3*3 + 3 is the last count that still rounds down to 3
    assert_eq!(Distribution::Packed(true).get_min_size(12), IVec2::new(4, 3));
    // sqrt(13) ~ 3.61 rounds up to 4
    assert_eq!(Distribution::Packed(true).get_min_size(13), IVec2::new(4, 4));
    // a perfect square packs exactly
    assert_eq!(Distribution::Packed(true).get_min_size(16), IVec2::new(4, 4));
    assert_eq!(Distribution::Packed(false).get_min_size(16), IVec2::new(4, 4));
}

#[test]
fn packed_symmetry() {
    for count in 1..=1000usize {
        let cols_first = Distribution::Packed(true).get_min_size(count);
        let lines_first = Distribution::Packed(false).get_min_size(count);
        assert_eq!(cols_first.x, lines_first.y);
        assert_eq!(cols_first.y, lines_first.x);
    }
}
