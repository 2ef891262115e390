use tag_manager::codec::SEPARATOR;
use tag_manager::hash_set_to_vec_u8;
use tag_manager::vec_u8_to_hash_set;
use tag_manager::TagSet;

#[test]
fn vec_u8_to_set_string_empty() {
    let empty_u8: Vec<u8> = Vec::new();
    let empty_set: TagSet = TagSet::new();
    assert_eq!(empty_set, vec_u8_to_hash_set(empty_u8));
}

#[test]
fn vec_u8_to_set_string_one() {
    // ["ACDC"]
    let vec_u8: Vec<u8> = vec![65, 67, 68, 67];
    let mut set_string = TagSet::new();
    set_string.insert("ACDC".to_string());
    assert_eq!(set_string, vec_u8_to_hash_set(vec_u8));
}

#[test]
fn vec_u8_to_set_string_two() {
    // ["ACDC", "BOB"]
    let vec_u8: Vec<u8> = vec![65, 67, 68, 67, SEPARATOR, 66, 79, 66];
    let mut set_string = TagSet::new();
    set_string.insert("ACDC".to_string());
    set_string.insert("BOB".to_string());
    assert_eq!(set_string, vec_u8_to_hash_set(vec_u8));
}

#[test]
fn set_string_to_vec_u8_empty() {
    let empty_u8: Vec<u8> = Vec::new();
    let empty_set: TagSet = TagSet::new();
    assert_eq!(empty_u8, hash_set_to_vec_u8(&empty_set));
}

#[test]
fn set_string_to_vec_u8_one() {
    // ["ACDC"]
    let vec_u8: Vec<u8> = vec![65, 67, 68, 67];
    let mut set_string = TagSet::new();
    set_string.insert("ACDC".to_string());
    assert_eq!(vec_u8, hash_set_to_vec_u8(&set_string));
}

#[test]
fn decode_collapses_duplicates() {
    // "bob,bob,max" decodes to ["bob", "max"], first occurrence kept
    let raw: Vec<u8> = b"bob,bob,max".to_vec();
    let mut expected = TagSet::new();
    expected.insert("bob".to_string());
    expected.insert("max".to_string());
    assert_eq!(expected, vec_u8_to_hash_set(raw));
}

#[test]
fn encode_two_tags_joins_with_comma() {
    let mut set_string = TagSet::new();
    set_string.insert("bob".to_string());
    set_string.insert("max".to_string());
    assert_eq!(b"bob,max".to_vec(), hash_set_to_vec_u8(&set_string));
}

#[test]
fn decode_never_fails_on_garbage() {
    // tampered buffer: empty tokens and a non-ASCII byte still decode
    let raw: Vec<u8> = vec![SEPARATOR, 255, SEPARATOR];
    let decoded = vec_u8_to_hash_set(raw);
    // tokens: "", "\u{ff}", "" -> two distinct tags
    assert_eq!(2, decoded.len());
}
