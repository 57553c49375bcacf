use sheety::error::Error;
use sheety::utils::{IVec2, UnboundRange};
use sheety::{Sprite, UnorderedSpriteSheet};

fn tile(value: u8) -> Sprite {
    Sprite::new(IVec2::new(1, 1), vec![value; 4])
}

fn five_tiles() -> UnorderedSpriteSheet {
    UnorderedSpriteSheet::new((0u8..5).map(tile).collect()).unwrap()
}

fn values(sheet: &UnorderedSpriteSheet) -> Vec<u8> {
    sheet
        .inner()
        .iter()
        .map(|s| s.clone().into_image()[0])
        .collect()
}

#[test]
fn delete_removes_range() {
    let mut sheet = five_tiles();
    sheet
        .delete(UnboundRange { start: 1, end: Some(3) })
        .unwrap();
    assert_eq!(sheet.len(), 3);
    assert_eq!(values(&sheet), vec![0, 3, 4]);
}

#[test]
fn delete_single_index() {
    let mut sheet = five_tiles();
    sheet
        .delete(UnboundRange { start: 2, end: Some(3) })
        .unwrap();
    assert_eq!(values(&sheet), vec![0, 1, 3, 4]);
}

#[test]
fn delete_open_end() {
    let mut sheet = five_tiles();
    sheet.delete(UnboundRange { start: 2, end: None }).unwrap();
    assert_eq!(values(&sheet), vec![0, 1]);
}

#[test]
fn delete_rejects_out_of_range() {
    let mut sheet = five_tiles();
    match sheet
        .delete(UnboundRange { start: 0, end: Some(10) })
        .unwrap_err()
    {
        Error::IndexOutOfRange { index, max } => {
            assert_eq!(index, 9);
            assert_eq!(max, 5);
        }
        other => panic!("expected Error::IndexOutOfRange, got {:?}", other),
    }
    // nothing was removed
    assert_eq!(sheet.len(), 5);
}

#[test]
fn slice_keeps_range() {
    let mut sheet = five_tiles();
    sheet
        .slice(UnboundRange { start: 1, end: Some(3) })
        .unwrap();
    assert_eq!(sheet.len(), 2);
    assert_eq!(values(&sheet), vec![1, 2]);
}

#[test]
fn slice_open_end() {
    let mut sheet = five_tiles();
    sheet.slice(UnboundRange { start: 3, end: None }).unwrap();
    assert_eq!(values(&sheet), vec![3, 4]);
}

#[test]
fn slice_rejects_out_of_range() {
    let mut sheet = five_tiles();
    match sheet
        .slice(UnboundRange { start: 0, end: Some(6) })
        .unwrap_err()
    {
        Error::IndexOutOfRange { index, max } => {
            assert_eq!(index, 5);
            assert_eq!(max, 5);
        }
        other => panic!("expected Error::IndexOutOfRange, got {:?}", other),
    }
    assert_eq!(sheet.len(), 5);
}

#[test]
fn reverse_flips_order() {
    let mut sheet = five_tiles();
    sheet.reverse();
    assert_eq!(values(&sheet), vec![4, 3, 2, 1, 0]);
    assert_eq!(sheet.size(), IVec2::new(1, 1));
}

#[test]
fn into_range_defaults_to_length() {
    let open = UnboundRange { start: 2, end: None }.into_range(7);
    assert_eq!(open.start, 2);
    assert_eq!(open.end, 7);
    let closed = UnboundRange { start: 1, end: Some(4) }.into_range(7);
    assert_eq!(closed.start, 1);
    assert_eq!(closed.end, 4);
}
