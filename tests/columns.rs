use wad_gfx::{Flat, Fraction, Graphic, Sprite};

/// One column, height 8; a post of two pixels (10, 11) at row 1.
const POST_SPRITE: [u8; 19] = [1, 0, 8, 0, 0, 0, 0, 0, 12, 0, 0, 0, 1, 2, 2, 10, 11, 0, 255];

#[test]
fn pixel_aspect_ratios() {
    let bytes = vec![0u8; 4096];
    let tile = Graphic::Tile(Flat::new(&bytes).unwrap());
    assert_eq!(tile.pixel_aspect_ratio(), Fraction::new(1, 1));
    let sprite = Graphic::Sprite(Sprite::new(&POST_SPRITE).unwrap());
    assert_eq!(sprite.pixel_aspect_ratio(), Fraction::new(6, 5));
}

#[test]
fn sprite_column_doubled() {
    let sprite = Graphic::Sprite(Sprite::new(&POST_SPRITE).unwrap());
    let mut out = vec![99u8; 8];
    sprite.draw_column(0, &mut out, Fraction::new(2, 1)).unwrap();
    assert_eq!(out, vec![99, 99, 10, 10, 11, 11, 99, 99]);
}

#[test]
fn sprite_column_fractional_scale_rounds_bounds_up() {
    // Scale 3/2: the post covers source rows 1 and 2, i.e. output rows from
    // ceil(1.5) = 2 up to ceil(4.5) = 5 (exclusive).
    let sprite = Graphic::Sprite(Sprite::new(&POST_SPRITE).unwrap());
    let mut out = vec![0u8; 7];
    sprite.draw_column(0, &mut out, Fraction::new(3, 2)).unwrap();
    assert_eq!(out, vec![0, 0, 10, 11, 11, 0, 0]);
}

#[test]
fn sprite_column_clipped_to_output() {
    let sprite = Graphic::Sprite(Sprite::new(&POST_SPRITE).unwrap());
    let mut out = vec![0u8; 3];
    sprite.draw_column(0, &mut out, Fraction::new(2, 1)).unwrap();
    assert_eq!(out, vec![0, 0, 10]);
}

#[test]
fn missing_column_is_malformed() {
    let sprite = Graphic::Sprite(Sprite::new(&POST_SPRITE).unwrap());
    let mut out = vec![1u8; 4];
    assert!(sprite.draw_column(1, &mut out, Fraction::new(1, 1)).is_err());
    let bytes = vec![0u8; 4096];
    let tile = Graphic::Tile(Flat::new(&bytes).unwrap());
    assert!(tile.draw_column(64, &mut out, Fraction::new(1, 1)).is_err());
    assert_eq!(out, vec![1, 1, 1, 1]);
}

#[test]
fn tile_column_walks_every_row() {
    let bytes: Vec<u8> = (0..4096).map(|i| (i / 64) as u8).collect();
    let tile = Graphic::Tile(Flat::new(&bytes).unwrap());
    let mut out = vec![255u8; 130];
    tile.draw_column(5, &mut out, Fraction::new(2, 1)).unwrap();
    assert!(out[..128].iter().all(|&v| v == 5));
    assert_eq!(&out[128..], &[255, 255]);

    let bytes: Vec<u8> = (0..4096).map(|i| (i % 64) as u8).collect();
    let tile = Graphic::Tile(Flat::new(&bytes).unwrap());
    let mut out = vec![0u8; 6];
    tile.draw_column(0, &mut out, Fraction::new(6, 5)).unwrap();
    assert_eq!(out, vec![0, 0, 1, 2, 3, 4]);
}
