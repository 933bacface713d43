use searcher::chars::chars_of;
use searcher::word::{place_of, Place};

#[test]
fn words_compare_in_dictionary_order() {
    assert_eq!(place_of(&chars_of("balance"), &chars_of("balle")), Place::Before);
    assert_eq!(place_of(&chars_of("balle"), &chars_of("balle")), Place::Same);
    assert_eq!(place_of(&chars_of("balle"), &chars_of("bal")), Place::After);
}

#[test]
fn attribute_ids_hold_their_uuid() {
    let id = uuid::Uuid::from_u128(0x1234_5678_9abc_def0_1234_5678_9abc_def0);
    let a = searcher::AttrId::new(id);
    let b = searcher::AttrId::from(id);
    assert!(a == b);
    assert_eq!(a.0, id);
}
