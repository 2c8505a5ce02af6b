use wad_gfx::{scale, Flat, Fraction, GfxError};

fn grid() -> Vec<Vec<u8>> {
    vec![vec![1, 2, 3], vec![4, 5, 6]]
}

#[test]
fn unit_factors_are_the_identity() {
    assert_eq!(scale(&grid(), 3, 1, Fraction::new(1, 1)), grid());
}

#[test]
fn integer_factor_repeats_each_pixel_in_a_block() {
    let scaled = scale(&grid(), 3, 2, Fraction::new(2, 1));
    assert_eq!(
        scaled,
        vec![
            vec![1, 1, 2, 2, 3, 3],
            vec![1, 1, 2, 2, 3, 3],
            vec![4, 4, 5, 5, 6, 6],
            vec![4, 4, 5, 5, 6, 6],
        ]
    );
}

#[test]
fn fractional_vertical_factor() {
    // Five rows stretched by 6/5 give six rows; output row 5 maps to 5*5/6 = 4.
    let rows: Vec<Vec<u8>> = (0..5).map(|r| vec![r]).collect();
    let scaled = scale(&rows, 1, 1, Fraction::new(6, 5));
    assert_eq!(scaled, vec![vec![0], vec![0], vec![1], vec![2], vec![3], vec![4]]);
}

#[test]
fn aspect_correction_composed_with_scale() {
    // Scale 2 with a 6/5 aspect correction: 2 * 6/5 = 12/5; 5 rows become 12.
    let rows: Vec<Vec<u8>> = (0..5).map(|r| vec![r]).collect();
    let scaled = scale(&rows, 1, 2, Fraction::new(12, 5));
    assert_eq!(scaled.len(), 12);
    let firsts: Vec<u8> = scaled.iter().map(|r| r[0]).collect();
    assert_eq!(firsts, vec![0, 0, 0, 1, 1, 2, 2, 2, 3, 3, 4, 4]);
    assert!(scaled.iter().all(|r| r.len() == 2));
}

#[test]
fn shrinking_drops_rows() {
    let rows: Vec<Vec<u8>> = (0..4).map(|r| vec![r, r]).collect();
    let scaled = scale(&rows, 2, 1, Fraction::new(1, 2));
    assert_eq!(scaled, vec![vec![0, 0], vec![2, 2]]);
}

#[test]
fn empty_grid_stays_empty() {
    let rows: Vec<Vec<[u8; 4]>> = vec![];
    assert!(scale(&rows, 0, 3, Fraction::new(3, 1)).is_empty());
}

#[test]
fn flat_must_be_4096_bytes() {
    assert_eq!(Flat::new(&[0u8; 4095]).err(), Some(GfxError::MalformedAsset));
    assert_eq!(Flat::new(&[0u8; 4097]).err(), Some(GfxError::MalformedAsset));
    assert!(Flat::new(&[0u8; 4096]).is_ok());
}

#[test]
fn flat_is_stored_column_by_column() {
    let bytes: Vec<u8> = (0..4096).map(|i| (i % 251) as u8).collect();
    let flat = Flat::new(&bytes).unwrap();
    // (row 1, col 2) is byte 2 * 64 + 1 = 129.
    assert_eq!(flat.pixel(1, 2), 129);
    let rows = flat.view();
    assert_eq!(rows.len(), 64);
    assert_eq!(rows[1][2], 129);
    assert_eq!(rows[2][1], 66);
    assert_eq!(rows[63][63], (4095 % 251) as u8);
}
