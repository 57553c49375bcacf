use sheety::error::Error;
use sheety::utils::IVec2;
use sheety::{Distribution, Sprite, SpriteSheet, UnorderedSpriteSheet};

fn tile(side: usize, value: u8) -> Sprite {
    Sprite::new(IVec2::new(side, side), vec![value; 4 * side * side])
}

#[test]
fn concat() {
    let sussypiss_prime = tile(16, 9);
    let three_sussyphuses = UnorderedSpriteSheet::new(vec![
        sussypiss_prime.clone(),
        sussypiss_prime.clone(),
        sussypiss_prime,
    ])
    .unwrap();

    let mario = tile(16, 4);
    let four_marios =
        UnorderedSpriteSheet::new(vec![mario.clone(), mario.clone(), mario.clone(), mario])
            .unwrap();

    // packed with prio on columns
    SpriteSheet::concat(
        vec![three_sussyphuses.clone(), four_marios.clone()],
        Distribution::Packed(false),
    )
    .unwrap();

    // packed with prio on lines
    SpriteSheet::concat(
        vec![three_sussyphuses.clone(), four_marios.clone()],
        Distribution::Packed(true),
    )
    .unwrap();

    // fixed columns
    SpriteSheet::concat(
        vec![three_sussyphuses.clone(), four_marios.clone()],
        Distribution::FixedColumns(4),
    )
    .unwrap();

    // fixed lines
    SpriteSheet::concat(
        vec![three_sussyphuses, four_marios],
        Distribution::FixedLines(1),
    )
    .unwrap();
}

#[test]
fn concat_size_and_order() {
    let a = UnorderedSpriteSheet::new(vec![tile(1, 1), tile(1, 2), tile(1, 3)]).unwrap();
    let b =
        UnorderedSpriteSheet::new(vec![tile(1, 4), tile(1, 5), tile(1, 6), tile(1, 7)]).unwrap();

    let sheet = SpriteSheet::concat(vec![a, b], Distribution::FixedColumns(4)).unwrap();
    assert_eq!(sheet.size(), IVec2::new(4, 2));

    let mut occupied = 0;
    for y in 0..2 {
        for x in 0..4 {
            if sheet.get_cell(IVec2::new(x, y)).unwrap().is_sprite() {
                occupied += 1;
            }
        }
    }
    assert_eq!(occupied, 7);

    // row-major: a's three tiles first, then b's four
    for (slot, expected) in (1u8..=7).enumerate() {
        let cell = sheet
            .get_cell(IVec2::new(slot % 4, slot / 4))
            .unwrap()
            .clone();
        let bytes = cell.sprite().unwrap().into_image();
        assert_eq!(bytes, vec![expected; 4]);
    }
    assert!(sheet.get_cell(IVec2::new(3, 1)).unwrap().is_empty());
}

#[test]
fn concat_rejects_mismatched_sizes() {
    let a = UnorderedSpriteSheet::new(vec![tile(4, 1)]).unwrap();
    let b = UnorderedSpriteSheet::new(vec![tile(8, 2)]).unwrap();
    match SpriteSheet::concat(vec![a, b], Distribution::Packed(true)).unwrap_err() {
        Error::MismatchedSpriteSize { required, provided } => {
            assert_eq!(required, IVec2::new(4, 4));
            assert_eq!(provided, IVec2::new(8, 8));
        }
        other => panic!("expected Error::MismatchedSpriteSize, got {:?}", other),
    }
}

#[test]
fn concat_rejects_empty_input() {
    match SpriteSheet::concat(vec![], Distribution::Packed(true)).unwrap_err() {
        Error::EmptyIterator => (),
        other => panic!("expected Error::EmptyIterator, got {:?}", other),
    }
}
