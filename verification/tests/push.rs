use sheety::error::Error;
use sheety::utils::IVec2;
use sheety::{Sprite, SpriteSheet, UnorderedSpriteSheet};

fn tile(side: usize, value: u8) -> Sprite {
    Sprite::new(IVec2::new(side, side), vec![value; 4 * side * side])
}

#[test]
fn push_one() {
    let mut sheet = SpriteSheet::new(IVec2::new(5, 5), IVec2::new(256, 256));
    let sussypiss_prime = tile(256, 7);
    sheet.push_sprite(sussypiss_prime).unwrap();

    assert!(sheet.get_cell(IVec2::new(0, 0)).unwrap().is_sprite());
    assert!(sheet.get_cell(IVec2::new(1, 0)).unwrap().is_empty());
    sheet.get_cell(IVec2::new(5, 0)).unwrap_err();
}

#[test]
fn push_several() {
    let mut sheet = SpriteSheet::new(IVec2::new(2, 1), IVec2::new(256, 256));
    let sussypiss_prime = tile(256, 7);
    let three_sussyphuses = UnorderedSpriteSheet::new(vec![
        sussypiss_prime.clone(),
        sussypiss_prime.clone(),
        sussypiss_prime,
    ])
    .unwrap();

    match sheet.push_sprites(three_sussyphuses).unwrap_err() {
        Error::SheetFull { amount_fitted } => assert_eq!(amount_fitted, 2),
        other => panic!("expected Error::SheetFull, got {:?}", other),
    }
}

#[test]
fn push_full_partial_report() {
    let mut sheet = SpriteSheet::new(IVec2::new(2, 1), IVec2::new(8, 8));
    let sprites =
        UnorderedSpriteSheet::new(vec![tile(8, 1), tile(8, 2), tile(8, 3)]).unwrap();

    match sheet.push_sprites(sprites).unwrap_err() {
        Error::SheetFull { amount_fitted } => assert_eq!(amount_fitted, 2),
        other => panic!("expected Error::SheetFull, got {:?}", other),
    }
    // the two sprites that fitted stay in place
    assert!(sheet.get_cell(IVec2::new(0, 0)).unwrap().is_sprite());
    assert!(sheet.get_cell(IVec2::new(1, 0)).unwrap().is_sprite());
    let first = sheet
        .get_cell(IVec2::new(0, 0))
        .unwrap()
        .clone()
        .sprite()
        .unwrap()
        .into_image();
    assert_eq!(first, vec![1u8; 4 * 8 * 8]);
}

#[test]
fn push_into_full_sheet() {
    let mut sheet = SpriteSheet::new(IVec2::new(1, 1), IVec2::new(2, 2));
    sheet.push_sprite(tile(2, 5)).unwrap();
    match sheet.push_sprite(tile(2, 6)).unwrap_err() {
        Error::SheetFull { amount_fitted } => assert_eq!(amount_fitted, 0),
        other => panic!("expected Error::SheetFull, got {:?}", other),
    }
}
