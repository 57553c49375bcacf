use sheety::error::Error;
use sheety::utils::IVec2;
use sheety::{Distribution, Sprite, SpriteCell, SpriteSheet, UnorderedSpriteSheet};

fn tile(side: usize, value: u8) -> Sprite {
    Sprite::new(IVec2::new(side, side), vec![value; 4 * side * side])
}

#[test]
fn set_cell_rejects_out_of_bounds() {
    let mut sheet = SpriteSheet::new(IVec2::new(2, 3), IVec2::new(4, 4));
    match sheet
        .set_cell(IVec2::new(2, 0), SpriteCell::Empty)
        .unwrap_err()
    {
        Error::OutOfBounds { max, provided } => {
            assert_eq!(max, IVec2::new(2, 3));
            assert_eq!(provided, IVec2::new(2, 0));
        }
        other => panic!("expected Error::OutOfBounds, got {:?}", other),
    }
}

#[test]
fn set_cell_rejects_wrong_sprite_size() {
    let mut sheet = SpriteSheet::new(IVec2::new(2, 2), IVec2::new(4, 4));
    match sheet
        .set_cell(IVec2::new(0, 0), SpriteCell::Sprite(tile(8, 1)))
        .unwrap_err()
    {
        Error::MismatchedSpriteSize { required, provided } => {
            assert_eq!(required, IVec2::new(4, 4));
            assert_eq!(provided, IVec2::new(8, 8));
        }
        other => panic!("expected Error::MismatchedSpriteSize, got {:?}", other),
    }
}

#[test]
fn set_cell_returns_previous() {
    let mut sheet = SpriteSheet::new(IVec2::new(2, 1), IVec2::new(4, 4));
    let prev = sheet
        .set_cell(IVec2::new(1, 0), SpriteCell::Sprite(tile(4, 3)))
        .unwrap();
    assert!(prev.is_empty());
    let prev = sheet.set_cell(IVec2::new(1, 0), SpriteCell::Empty).unwrap();
    let bytes = prev.sprite().unwrap().into_image();
    assert_eq!(bytes, vec![3u8; 4 * 4 * 4]);
    assert!(sheet.get_cell(IVec2::new(1, 0)).unwrap().is_empty());
}

#[test]
fn sprite_transparency() {
    // only the alpha channel (every fourth byte) decides emptiness
    let opaque = Sprite::new(IVec2::new(1, 2), vec![9, 9, 9, 0, 9, 9, 9, 1]);
    assert!(!opaque.is_empty());
    let clear = Sprite::new(IVec2::new(1, 2), vec![9, 9, 9, 0, 9, 9, 9, 0]);
    assert!(clear.is_empty());
}

#[test]
fn unordered_rejects_mixed_sizes() {
    let sprites = vec![tile(4, 1), tile(4, 2), tile(8, 3)];
    match UnorderedSpriteSheet::new(sprites).unwrap_err() {
        Error::MismatchedSpriteSize { required, provided } => {
            assert_eq!(required, IVec2::new(4, 4));
            assert_eq!(provided, IVec2::new(8, 8));
        }
        other => panic!("expected Error::MismatchedSpriteSize, got {:?}", other),
    }
}

#[test]
fn unordered_rejects_empty() {
    match UnorderedSpriteSheet::new(vec![]).unwrap_err() {
        Error::EmptyUnorderedSpriteSheet => (),
        other => panic!("expected Error::EmptyUnorderedSpriteSheet, got {:?}", other),
    }
}

#[test]
fn into_unordered_rejects_all_empty() {
    let sheet = SpriteSheet::new(IVec2::new(3, 2), IVec2::new(4, 4));
    match sheet.into_unordered().unwrap_err() {
        Error::EmptyUnorderedSpriteSheet => (),
        other => panic!("expected Error::EmptyUnorderedSpriteSheet, got {:?}", other),
    }
}

#[test]
fn round_trip_keeps_tiles() {
    let originals: Vec<u8> = vec![10, 20, 30, 40];
    let sprites: Vec<Sprite> = originals.iter().map(|v| tile(1, *v)).collect();
    let unordered = UnorderedSpriteSheet::new(sprites).unwrap();

    // 4 tiles pack into a full 2x2 grid: no empty cells
    let sheet = SpriteSheet::from_unordered(unordered, Distribution::Packed(true));
    assert_eq!(sheet.size(), IVec2::new(2, 2));

    let back = sheet.into_unordered().unwrap();
    assert_eq!(back.len(), 4);
    for (i, v) in originals.iter().enumerate() {
        let bytes = back.inner()[i].clone().into_image();
        assert_eq!(bytes, vec![*v; 4]);
    }
}

#[test]
fn from_unordered_orders_row_major() {
    let unordered =
        UnorderedSpriteSheet::new(vec![tile(1, 1), tile(1, 2), tile(1, 3)]).unwrap();
    let sheet = SpriteSheet::from_unordered(unordered, Distribution::FixedColumns(2));
    assert_eq!(sheet.size(), IVec2::new(2, 2));
    let a = sheet.get_cell(IVec2::new(0, 0)).unwrap().clone();
    let b = sheet.get_cell(IVec2::new(1, 0)).unwrap().clone();
    let c = sheet.get_cell(IVec2::new(0, 1)).unwrap().clone();
    assert_eq!(a.sprite().unwrap().into_image(), vec![1u8; 4]);
    assert_eq!(b.sprite().unwrap().into_image(), vec![2u8; 4]);
    assert_eq!(c.sprite().unwrap().into_image(), vec![3u8; 4]);
    assert!(sheet.get_cell(IVec2::new(1, 1)).unwrap().is_empty());
}

#[test]
fn into_image_renders_cells_and_blanks() {
    let mut sheet = SpriteSheet::new(IVec2::new(2, 1), IVec2::new(1, 1));
    sheet.push_sprite(Sprite::new(IVec2::new(1, 1), vec![1, 2, 3, 4])).unwrap();
    // second cell stays empty
    let image = sheet.into_image();
    assert_eq!(image.size(), IVec2::new(2, 1));
    assert_eq!(image.into_image(), vec![1, 2, 3, 4, 0, 0, 0, 0]);
}

#[test]
fn into_image_places_rows() {
    // 1x2 grid of 1x2-pixel tiles: tile bytes stack vertically
    let mut sheet = SpriteSheet::new(IVec2::new(1, 2), IVec2::new(1, 2));
    sheet
        .push_sprite(Sprite::new(IVec2::new(1, 2), vec![1, 1, 1, 1, 2, 2, 2, 2]))
        .unwrap();
    sheet
        .push_sprite(Sprite::new(IVec2::new(1, 2), vec![3, 3, 3, 3, 4, 4, 4, 4]))
        .unwrap();
    let bytes = sheet.into_image().into_image();
    assert_eq!(
        bytes,
        vec![1, 1, 1, 1, 2, 2, 2, 2, 3, 3, 3, 3, 4, 4, 4, 4]
    );
}

#[test]
fn from_image_div_splits_and_drops_transparent() {
    // a 2x1 image of two 1x1 cells: left pixel opaque, right transparent
    let image = Sprite::new(IVec2::new(2, 1), vec![5, 5, 5, 255, 0, 0, 0, 0]);
    let sheet = SpriteSheet::from_image_div(image, IVec2::new(2, 1));
    assert_eq!(sheet.size(), IVec2::new(2, 1));
    assert_eq!(sheet.cell_size(), IVec2::new(1, 1));
    let left = sheet.get_cell(IVec2::new(0, 0)).unwrap().clone();
    assert_eq!(left.sprite().unwrap().into_image(), vec![5, 5, 5, 255]);
    assert!(sheet.get_cell(IVec2::new(1, 0)).unwrap().is_empty());
}

#[test]
fn from_image_cell_size_computes_divisions() {
    // a 4x2 image cut into 2x2 cells gives a 2x1 sheet
    let image = Sprite::new(IVec2::new(4, 2), vec![7; 4 * 4 * 2]);
    let sheet = SpriteSheet::from_image_cell_size(image, IVec2::new(2, 2));
    assert_eq!(sheet.size(), IVec2::new(2, 1));
    assert_eq!(sheet.cell_size(), IVec2::new(2, 2));
    assert!(sheet.get_cell(IVec2::new(0, 0)).unwrap().is_sprite());
    assert!(sheet.get_cell(IVec2::new(1, 0)).unwrap().is_sprite());
}

#[test]
fn sub_sprite_copies_region() {
    // 2x2 image with distinct pixels; take the right column
    let image = Sprite::new(
        IVec2::new(2, 2),
        vec![1, 1, 1, 1, 2, 2, 2, 2, 3, 3, 3, 3, 4, 4, 4, 4],
    );
    let right = image.sub_sprite(IVec2::new(1, 0), IVec2::new(1, 2));
    assert_eq!(right.size(), IVec2::new(1, 2));
    assert_eq!(right.into_image(), vec![2, 2, 2, 2, 4, 4, 4, 4]);
}
