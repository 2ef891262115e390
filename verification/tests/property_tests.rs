use tag_manager::apply::apply_delete;
use tag_manager::apply::apply_rename;
use tag_manager::apply::apply_set;
use tag_manager::apply::decode_stored;
use tag_manager::apply::tag_collides;
use tag_manager::apply::tags_collide;
use tag_manager::hash_set_to_vec_u8;
use tag_manager::vec_u8_to_hash_set;
use tag_manager::TagSet;

#[test]
fn round_trip_multi_tag() {
    let mut s = TagSet::new();
    s.insert("work".to_string());
    s.insert("geneva".to_string());
    s.insert("2024".to_string());
    assert_eq!(s, vec_u8_to_hash_set(hash_set_to_vec_u8(&s)));
}

#[test]
fn set_is_idempotent() {
    let mut tags = TagSet::new();
    tags.insert("a".to_string());
    tags.insert("b".to_string());
    let once = apply_set(None, &tags);
    assert_eq!(Some(b"a,b".to_vec()), once);
    let twice = apply_set(once.clone(), &tags);
    assert_eq!(once, twice);
}

#[test]
fn selective_delete_keeps_the_rest() {
    let stored = Some(b"bob,max".to_vec());
    let mut bob = TagSet::new();
    bob.insert("bob".to_string());
    let after = apply_delete(stored, &bob);
    assert_eq!(Some(b"max".to_vec()), after);
}

#[test]
fn delete_of_absent_tag_is_no_op() {
    let stored = Some(b"bob,max".to_vec());
    let mut zzz = TagSet::new();
    zzz.insert("zzz".to_string());
    let after = apply_delete(stored, &zzz);
    assert_eq!(Some(b"bob,max".to_vec()), after);
}

#[test]
fn deleting_last_tag_clears_attribute() {
    let stored = Some(b"bob".to_vec());
    let mut bob = TagSet::new();
    bob.insert("bob".to_string());
    assert_eq!(None, apply_delete(stored, &bob));
}

#[test]
fn delete_on_absent_attribute_stays_absent() {
    let mut bob = TagSet::new();
    bob.insert("bob".to_string());
    assert_eq!(None, apply_delete(None, &bob));
}

#[test]
fn absent_attribute_reads_as_none() {
    assert!(decode_stored(None).is_none());
    // the application layer treats that as the empty tag set
    let empty = decode_stored(None).unwrap_or_else(TagSet::new);
    assert_eq!(0, empty.len());
}

#[test]
fn merge_adds_without_duplicating() {
    let stored = Some(b"x".to_vec());
    let mut incoming = TagSet::new();
    incoming.insert("x".to_string());
    incoming.insert("y".to_string());
    let after = apply_set(stored, &incoming);
    assert_eq!(Some(b"x,y".to_vec()), after);
}

#[test]
fn merge_result_ignores_incoming_order() {
    let mut one_way = TagSet::new();
    one_way.insert("x".to_string());
    one_way.insert("y".to_string());
    let mut other_way = TagSet::new();
    other_way.insert("y".to_string());
    other_way.insert("x".to_string());
    let a = vec_u8_to_hash_set(apply_set(Some(b"x".to_vec()), &one_way).unwrap());
    let b = vec_u8_to_hash_set(apply_set(Some(b"x".to_vec()), &other_way).unwrap());
    assert_eq!(2, a.len());
    assert_eq!(2, b.len());
    for t in ["x", "y"] {
        assert!(a.contains(&t.to_string()));
        assert!(b.contains(&t.to_string()));
    }
}

#[test]
fn rename_replaces_stored_tag() {
    let stored = Some(b"bob,max".to_vec());
    let after = apply_rename(stored, &"bob".to_string(), &"rob".to_string());
    let decoded = vec_u8_to_hash_set(after.unwrap());
    assert_eq!(2, decoded.len());
    assert!(decoded.contains(&"rob".to_string()));
    assert!(decoded.contains(&"max".to_string()));
    assert!(!decoded.contains(&"bob".to_string()));
}

#[test]
fn rename_of_absent_tag_writes_nothing() {
    let stored = Some(b"bob".to_vec());
    assert_eq!(None, apply_rename(stored, &"zzz".to_string(), &"yyy".to_string()));
    assert_eq!(None, apply_rename(None, &"zzz".to_string(), &"yyy".to_string()));
}

#[test]
fn delimiter_in_tag_is_detected() {
    assert!(tag_collides(&"a,b".to_string()));
    assert!(!tag_collides(&"ab".to_string()));
    let mut bad = TagSet::new();
    bad.insert("fine".to_string());
    bad.insert("not,fine".to_string());
    assert!(tags_collide(&bad));
    let mut good = TagSet::new();
    good.insert("fine".to_string());
    assert!(!tags_collide(&good));
}

#[test]
fn union_keeps_order_and_collapses() {
    let mut a = TagSet::new();
    a.insert("a".to_string());
    a.insert("b".to_string());
    let mut b = TagSet::new();
    b.insert("b".to_string());
    b.insert("c".to_string());
    let u = a.union(&b);
    assert_eq!(b"a,b,c".to_vec(), hash_set_to_vec_u8(&u));
}

#[test]
fn difference_removes_only_named() {
    let mut a = TagSet::new();
    a.insert("a".to_string());
    a.insert("b".to_string());
    a.insert("c".to_string());
    let mut b = TagSet::new();
    b.insert("b".to_string());
    let d = a.difference(&b);
    assert_eq!(b"a,c".to_vec(), hash_set_to_vec_u8(&d));
}

#[test]
fn tag_list_constructor_collapses_duplicates() {
    let items: Vec<&str> = vec!["work", "home", "work"];
    let s = tag_manager::hash_set_str_to_hash_set_string(&items);
    assert_eq!(2, s.len());
    assert!(s.contains(&"work".to_string()));
    assert!(s.contains(&"home".to_string()));
}
