/// A 41 × 57 sprite with its hotspot at (21, 52). The hotspot values are
/// arbitrary; no test here depends on them.
const IMP_SPRITE: [u8; 1630] = [
    41, 0, 57, 0, 21, 0, 52, 0, 172, 0, 0, 0, 178, 0, 0, 0, 184, 0, 0, 0,
    202, 0, 0, 0, 233, 0, 0, 0, 8, 1, 0, 0, 38, 1, 0, 0, 68, 1, 0, 0,
    91, 1, 0, 0, 109, 1, 0, 0, 125, 1, 0, 0, 141, 1, 0, 0, 157, 1, 0, 0,
    187, 1, 0, 0, 225, 1, 0, 0, 15, 2, 0, 0, 74, 2, 0, 0, 136, 2, 0, 0,
    197, 2, 0, 0, 1, 3, 0, 0, 63, 3, 0, 0, 125, 3, 0, 0, 182, 3, 0, 0,
    229, 3, 0, 0, 20, 4, 0, 0, 78, 4, 0, 0, 135, 4, 0, 0, 192, 4, 0, 0,
    240, 4, 0, 0, 33, 5, 0, 0, 83, 5, 0, 0, 115, 5, 0, 0, 141, 5, 0, 0,
    157, 5, 0, 0, 182, 5, 0, 0, 210, 5, 0, 0, 243, 5, 0, 0, 18, 6, 0, 0,
    48, 6, 0, 0, 72, 6, 0, 0, 85, 6, 0, 0, 23, 1, 1, 90, 0, 255, 23, 1,
    1, 81, 0, 255, 23, 13, 13, 75, 75, 74, 73, 72, 72, 72, 72, 73, 73, 75, 75, 74,
    0, 255, 10, 1, 1, 96, 0, 17, 1, 1, 96, 0, 21, 16, 16, 75, 75, 74, 73, 72,
    71, 70, 71, 72, 72, 73, 74, 74, 73, 75, 79, 0, 255, 10, 2, 2, 90, 96, 0, 17,
    20, 20, 96, 75, 75, 75, 76, 77, 73, 73, 73, 74, 75, 75, 75, 75, 75, 73, 72, 73,
    77, 79, 0, 255, 11, 1, 1, 92, 0, 17, 20, 20, 90, 75, 74, 75, 77, 78, 76, 75,
    75, 75, 76, 77, 77, 78, 78, 76, 72, 76, 78, 79, 0, 255, 11, 2, 2, 96, 93, 0,
    17, 12, 12, 81, 74, 74, 76, 78, 79, 78, 77, 77, 77, 77, 78, 0, 33, 3, 3, 77,
    77, 79, 0, 255, 11, 3, 3, 99, 90, 98, 0, 16, 11, 11, 77, 76, 75, 76, 77, 79,
    79, 79, 78, 78, 78, 0, 255, 12, 13, 13, 81, 90, 73, 74, 76, 77, 76, 77, 79, 79,
    77, 76, 76, 0, 255, 12, 11, 11, 70, 72, 73, 75, 76, 78, 78, 79, 79, 78, 76, 0,
    255, 11, 11, 11, 70, 68, 70, 72, 74, 77, 78, 79, 79, 79, 77, 0, 255, 11, 11, 11,
    68, 67, 68, 69, 71, 73, 76, 78, 79, 76, 78, 0, 255, 11, 12, 12, 67, 69, 67, 68,
    70, 73, 74, 76, 78, 77, 76, 78, 0, 32, 9, 9, 76, 77, 78, 78, 78, 78, 77, 77,
    77, 0, 255, 10, 14, 14, 68, 68, 70, 69, 69, 71, 73, 74, 75, 77, 78, 77, 77, 77,
    0, 28, 15, 15, 77, 77, 76, 76, 75, 75, 75, 76, 76, 75, 73, 73, 75, 76, 78, 0,
    255, 10, 35, 35, 69, 70, 74, 72, 70, 71, 96, 74, 75, 76, 77, 77, 76, 76, 76, 77,
    76, 75, 75, 75, 74, 73, 73, 73, 73, 73, 73, 74, 75, 74, 73, 75, 76, 78, 77, 0,
    55, 2, 2, 73, 73, 0, 255, 4, 3, 3, 71, 70, 70, 0, 9, 40, 40, 69, 70, 73,
    76, 74, 73, 71, 88, 77, 77, 77, 77, 76, 75, 76, 78, 79, 77, 76, 76, 76, 75, 74,
    73, 72, 71, 70, 71, 72, 74, 75, 74, 76, 77, 79, 79, 77, 77, 77, 76, 0, 54, 3,
    3, 73, 72, 89, 0, 255, 2, 49, 49, 72, 72, 66, 74, 73, 70, 72, 72, 72, 75, 77,
    76, 75, 77, 74, 75, 75, 75, 77, 75, 76, 78, 79, 78, 78, 77, 76, 77, 76, 75, 74,
    73, 72, 71, 70, 70, 73, 74, 77, 78, 79, 76, 74, 74, 77, 77, 78, 78, 78, 0, 53,
    4, 4, 75, 73, 72, 77, 0, 255, 1, 56, 56, 72, 69, 65, 64, 76, 187, 73, 69, 67,
    68, 69, 70, 71, 73, 75, 77, 76, 75, 74, 77, 74, 77, 77, 79, 77, 78, 78, 75, 76,
    77, 76, 75, 74, 73, 72, 72, 73, 74, 76, 77, 78, 79, 75, 74, 83, 82, 78, 78, 78,
    77, 76, 75, 73, 72, 76, 77, 0, 255, 0, 55, 55, 72, 70, 69, 68, 65, 70, 175, 190,
    74, 79, 77, 76, 75, 74, 75, 72, 75, 77, 76, 75, 78, 75, 76, 75, 79, 75, 76, 78,
    74, 74, 75, 77, 76, 76, 75, 75, 76, 76, 77, 76, 77, 77, 78, 76, 74, 74, 75, 78,
    78, 78, 76, 74, 73, 72, 73, 0, 255, 0, 57, 57, 71, 69, 70, 71, 67, 68, 78, 76,
    73, 96, 185, 185, 185, 96, 63, 74, 74, 76, 77, 77, 78, 77, 74, 75, 78, 73, 76, 77,
    73, 73, 75, 76, 77, 78, 78, 78, 78, 78, 77, 76, 75, 75, 77, 78, 78, 78, 77, 77,
    77, 77, 76, 73, 72, 72, 74, 74, 76, 0, 255, 0, 57, 57, 68, 69, 70, 73, 70, 66,
    77, 73, 69, 168, 79, 188, 184, 168, 61, 75, 73, 78, 77, 78, 78, 78, 75, 77, 77, 75,
    77, 77, 74, 75, 76, 75, 76, 77, 79, 79, 77, 76, 75, 75, 75, 75, 76, 77, 78, 78,
    77, 76, 75, 75, 76, 75, 74, 74, 74, 72, 89, 0, 255, 0, 36, 36, 68, 69, 70, 73,
    70, 66, 76, 73, 69, 89, 79, 188, 184, 89, 61, 75, 73, 79, 79, 78, 78, 76, 79, 79,
    77, 78, 78, 76, 75, 77, 78, 75, 76, 77, 79, 79, 0, 46, 4, 4, 75, 74, 74, 75,
    0, 53, 4, 4, 76, 75, 72, 76, 0, 255, 0, 36, 36, 71, 69, 70, 71, 67, 68, 78,
    76, 73, 96, 185, 185, 185, 96, 63, 74, 74, 78, 77, 78, 78, 78, 75, 77, 77, 74, 77,
    77, 73, 75, 76, 75, 76, 77, 79, 79, 0, 55, 2, 2, 75, 75, 0, 255, 0, 42, 42,
    72, 70, 69, 68, 65, 70, 175, 190, 74, 79, 77, 76, 75, 74, 75, 72, 75, 76, 76, 76,
    78, 77, 74, 75, 78, 73, 76, 77, 72, 73, 75, 76, 77, 77, 77, 77, 78, 78, 78, 77,
    76, 76, 0, 255, 1, 53, 53, 72, 69, 65, 64, 76, 187, 73, 69, 67, 68, 69, 70, 71,
    73, 75, 76, 74, 75, 75, 77, 75, 76, 75, 78, 75, 76, 78, 73, 75, 76, 77, 77, 77,
    76, 76, 76, 77, 78, 78, 77, 77, 77, 78, 78, 78, 77, 78, 78, 78, 77, 77, 76, 76,
    0, 255, 2, 52, 52, 72, 69, 66, 74, 73, 70, 72, 72, 72, 75, 77, 76, 74, 73, 72,
    72, 74, 75, 77, 74, 77, 77, 78, 77, 78, 77, 75, 76, 77, 77, 76, 76, 75, 74, 74,
    75, 76, 77, 78, 78, 78, 78, 78, 78, 78, 78, 78, 77, 76, 76, 77, 90, 0, 255, 4,
    3, 3, 71, 70, 70, 0, 9, 45, 45, 69, 70, 73, 76, 74, 71, 70, 70, 71, 73, 74,
    77, 75, 76, 78, 78, 78, 78, 77, 76, 77, 77, 76, 75, 75, 74, 73, 73, 73, 73, 75,
    77, 78, 76, 75, 77, 79, 79, 79, 77, 76, 76, 75, 76, 77, 0, 255, 9, 43, 43, 71,
    69, 70, 74, 72, 70, 69, 90, 72, 74, 76, 77, 76, 75, 76, 78, 78, 77, 76, 76, 77,
    76, 75, 74, 73, 72, 72, 72, 73, 74, 75, 76, 77, 76, 83, 90, 96, 79, 79, 77, 76,
    76, 76, 0, 255, 10, 44, 44, 69, 68, 70, 69, 68, 69, 81, 77, 77, 77, 77, 77, 76,
    76, 76, 77, 76, 75, 75, 75, 75, 74, 74, 73, 73, 73, 74, 74, 75, 76, 77, 77, 77,
    76, 77, 78, 78, 78, 78, 77, 76, 75, 76, 90, 0, 255, 10, 14, 14, 72, 67, 69, 67,
    68, 69, 70, 73, 75, 77, 77, 78, 78, 77, 0, 28, 20, 20, 76, 76, 76, 75, 75, 74,
    74, 75, 75, 76, 76, 77, 78, 78, 78, 78, 78, 78, 77, 77, 0, 51, 3, 3, 76, 76,
    76, 0, 255, 11, 12, 12, 68, 67, 68, 69, 70, 73, 75, 76, 78, 76, 77, 78, 0, 31,
    11, 11, 76, 76, 76, 76, 76, 76, 77, 78, 78, 78, 77, 0, 255, 11, 11, 11, 69, 68,
    69, 70, 72, 74, 76, 77, 78, 78, 79, 0, 33, 6, 6, 77, 77, 77, 77, 77, 77, 0,
    255, 11, 11, 11, 90, 69, 70, 71, 73, 76, 77, 78, 79, 79, 79, 0, 255, 10, 13, 13,
    99, 81, 70, 71, 72, 73, 74, 76, 78, 77, 76, 76, 78, 0, 32, 3, 3, 75, 77, 78,
    0, 255, 10, 14, 14, 90, 90, 99, 72, 73, 74, 75, 76, 77, 76, 75, 74, 75, 105, 0,
    31, 5, 5, 73, 76, 77, 78, 79, 0, 255, 9, 3, 3, 95, 92, 99, 0, 15, 21, 21,
    76, 76, 76, 77, 76, 74, 73, 74, 77, 78, 79, 79, 78, 78, 77, 77, 71, 73, 76, 77,
    79, 0, 255, 9, 2, 2, 89, 99, 0, 16, 20, 20, 81, 76, 77, 76, 75, 74, 75, 77,
    78, 79, 78, 77, 76, 76, 75, 71, 73, 74, 74, 79, 0, 255, 8, 2, 2, 95, 99, 0,
    16, 19, 19, 90, 76, 78, 77, 76, 76, 77, 79, 78, 78, 77, 76, 76, 75, 74, 73, 73,
    73, 75, 0, 255, 16, 1, 1, 95, 0, 19, 14, 14, 78, 78, 78, 79, 79, 76, 75, 74,
    74, 73, 73, 73, 72, 72, 0, 255, 23, 8, 8, 77, 76, 74, 73, 72, 72, 72, 74, 0,
    255, 25, 4, 4, 75, 73, 73, 100, 0, 255,
];

use wad_gfx::sprite::Column;
use wad_gfx::{GfxError, Sprite};

#[test]
fn dimensions() {
    let sprite = Sprite::new(&IMP_SPRITE).unwrap();
    assert_eq!(sprite.dim(), (57, 41));
}

#[test]
fn column() {
    let sprite = Sprite::new(&IMP_SPRITE).unwrap();
    assert_eq!(sprite.spans(6).unwrap().len(), 3);
}

#[test]
fn all_columns_can_be_iterated() {
    let sprite = Sprite::new(&IMP_SPRITE).unwrap();
    for i in 0..sprite.dim().1 {
        sprite.spans(i as u32).unwrap().iter().for_each(|_| ());
    }
}

#[test]
fn every_post_of_the_fixture_is_visited() {
    let sprite = Sprite::new(&IMP_SPRITE).unwrap();
    let total: usize = (0..sprite.width() as u32).map(|i| sprite.spans(i).unwrap().len()).sum();
    assert_eq!(total, 68);
}

#[test]
fn origin_is_top_then_left() {
    let sprite = Sprite::new(&IMP_SPRITE).unwrap();
    assert_eq!(sprite.origin(), (52, 21));
    assert_eq!(sprite.left(), 21);
    assert_eq!(sprite.top(), 52);
    assert_eq!(sprite.width(), 41);
    assert_eq!(sprite.height(), 57);
}

#[test]
fn short_header_is_malformed() {
    assert_eq!(Sprite::new(&[1, 0, 1, 0, 0, 0]).err(), Some(GfxError::MalformedAsset));
}

#[test]
fn short_directory_is_malformed() {
    // Width 2 needs 8 directory bytes; only 4 are present.
    assert_eq!(
        Sprite::new(&[2, 0, 1, 0, 0, 0, 0, 0, 16, 0, 0, 0]).err(),
        Some(GfxError::MalformedAsset)
    );
}

/// Decodes a sprite whose header fits, and reads its only column.
fn first_column(bytes: &[u8]) -> Result<usize, GfxError> {
    let sprite = Sprite::new(bytes).unwrap();
    sprite.spans(0).map(|v| v.len())
}

#[test]
fn column_offset_into_directory_is_malformed() {
    let bytes = [1, 0, 1, 0, 0, 0, 0, 0, 4, 0, 0, 0, 255];
    assert_eq!(first_column(&bytes), Err(GfxError::MalformedAsset));
    let sprite = Sprite::new(&bytes).unwrap();
    assert_eq!(sprite.col(0).err(), Some(GfxError::MalformedAsset));
    assert_eq!(sprite.validate(), Err(GfxError::MalformedAsset));
}

#[test]
fn column_index_past_the_width_is_malformed() {
    let bytes = [1, 0, 1, 0, 0, 0, 0, 0, 12, 0, 0, 0, 255];
    let sprite = Sprite::new(&bytes).unwrap();
    assert_eq!(sprite.validate(), Ok(()));
    assert_eq!(sprite.spans(1).err(), Some(GfxError::MalformedAsset));
    assert_eq!(sprite.col(7).err(), Some(GfxError::MalformedAsset));
}

#[test]
fn post_running_past_the_buffer_is_malformed() {
    // One post at row 0 declaring 5 pixels, but only 2 follow.
    let bytes = [1, 0, 1, 0, 0, 0, 0, 0, 12, 0, 0, 0, 0, 5, 5, 7, 7];
    assert_eq!(first_column(&bytes), Err(GfxError::MalformedAsset));
}

#[test]
fn missing_terminator_is_malformed() {
    let bytes = [1, 0, 1, 0, 0, 0, 0, 0, 12, 0, 0, 0, 0, 1, 1, 9, 0];
    assert_eq!(first_column(&bytes), Err(GfxError::MalformedAsset));
}

#[test]
fn two_posts_and_an_empty_column() {
    let bytes = [
        2, 0, 8, 0, 1, 0, 2, 0, // header
        16, 0, 0, 0, 28, 0, 0, 0, // directory
        1, 2, 2, 10, 11, 0, 5, 1, 1, 12, 0, 255, // column 0
        255, // column 1
    ];
    let sprite = Sprite::new(&bytes).unwrap();
    let spans = sprite.spans(0).unwrap();
    assert_eq!(spans.len(), 2);
    assert_eq!(spans[0].top, 1);
    assert_eq!(spans[0].pixels, &[10, 11]);
    assert_eq!(spans[1].top, 5);
    assert_eq!(spans[1].pixels, &[12]);
    assert_eq!(sprite.spans(1).unwrap().len(), 0);
}

#[test]
fn column_cursor_steps_through_posts() {
    let bytes = [0, 3, 3, 1, 2, 3, 0, 255];
    let mut col = Column::new(&bytes, 0);
    let span = col.next().unwrap().unwrap();
    assert_eq!(span.top, 0);
    assert_eq!(span.pixels, &[1, 2, 3]);
    assert!(col.next().unwrap().is_none());
    assert!(col.next().unwrap().is_none());
    let mut broken = Column::new(&bytes[..5], 0);
    assert_eq!(broken.next().err(), Some(GfxError::MalformedAsset));
}
