use queens::{parse_color_region_boards, parse_color_region_inds};

#[test]
fn test_good_region_input() {
    // The example 8x8 grid: eight regions whose cells partition all 64
    // indices, each index in exactly one region.
    let input = "11233456 12234456 11233456 12273456 11233456 88885556 66888886 66666666";
    let (regions, n_rows, n_cols) = parse_color_region_inds(input).expect("well-formed grid");
    assert_eq!(n_rows, 8);
    assert_eq!(n_cols, 8);
    assert_eq!(regions.len(), 8);

    let mut seen = [0usize; 64];
    for (_, cells) in &regions {
        for &c in cells {
            assert!(c < 64);
            seen[c] += 1;
        }
    }
    assert!(seen.iter().all(|&count| count == 1), "each index in exactly one region");

    // symbols are distinct and appear in first-appearance order
    let ids: Vec<u8> = regions.iter().map(|r| r.0).collect();
    assert_eq!(ids, vec![b'1', b'2', b'3', b'4', b'5', b'6', b'7', b'8']);

    // round trip through boards: re-extracting the indices reproduces each
    // region's cell set exactly
    let boards = parse_color_region_boards(&regions, n_rows, n_cols);
    assert_eq!(boards.len(), regions.len());
    for (board, (_, cells)) in boards.iter().zip(regions.iter()) {
        assert_eq!(&board.get_linear_indices(), cells);
    }
}

#[test]
fn test_parse_region_contents() {
    let (regions, n_rows, n_cols) = parse_color_region_inds("12 21").expect("well-formed grid");
    assert_eq!((n_rows, n_cols), (2, 2));
    assert_eq!(regions.len(), 2);
    assert_eq!(regions[0], (b'1', vec![0, 3]));
    assert_eq!(regions[1], (b'2', vec![1, 2]));
}

#[test]
fn test_parse_rejects_bad_input() {
    // no rows at all
    assert!(parse_color_region_inds("").is_none());
    assert!(parse_color_region_inds("   \t\n").is_none());
    // mismatched row lengths
    assert!(parse_color_region_inds("11 222").is_none());
    // non-ASCII symbols
    assert!(parse_color_region_inds("ää aa").is_none());
    // a grid past the board capacity of 192 cells
    let wide_row = "a".repeat(200);
    assert!(parse_color_region_inds(&wide_row).is_none());
    let mut big = String::new();
    for _ in 0..14 {
        big.push_str("aaaaaaaaaaaaaa ");
    }
    // 14 rows of 14 columns is 196 cells
    assert!(parse_color_region_inds(&big).is_none());
}

#[test]
fn test_parse_accepts_any_whitespace() {
    let (regions, n_rows, n_cols) =
        parse_color_region_inds("12\n12\t12").expect("whitespace-separated rows");
    assert_eq!((n_rows, n_cols), (3, 2));
    assert_eq!(regions.len(), 2);
    assert_eq!(regions[0], (b'1', vec![0, 2, 4]));
    assert_eq!(regions[1], (b'2', vec![1, 3, 5]));
}
