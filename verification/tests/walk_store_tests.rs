use tag_manager::apply::apply_set;
use tag_manager::del_tags;
use tag_manager::get_tags;
use tag_manager::rename_tag;
use tag_manager::set_tags;
use tag_manager::vec_u8_to_hash_set;
use tag_manager::TagError;
use tag_manager::TagSet;
use tag_manager::Worklist;

#[test]
fn worklist_pops_children_in_given_order() {
    let mut wl = Worklist::new("root".to_string());
    assert_eq!(Some("root".to_string()), wl.pop());
    wl.push_children(vec!["first".to_string(), "second".to_string()]);
    assert_eq!(Some("first".to_string()), wl.pop());
    assert_eq!(Some("second".to_string()), wl.pop());
    assert_eq!(None, wl.pop());
    assert!(wl.is_done());
}

#[test]
fn recursive_set_applies_preorder_to_whole_subtree() {
    // directory D holds file D/a and directory D/sub, which holds D/sub/b;
    // the filesystem is simulated as a list of (path, children, stored value)
    let mut store: Vec<(String, Vec<String>, Option<Vec<u8>>)> = vec![
        ("D".to_string(), vec!["D/a".to_string(), "D/sub".to_string()], None),
        ("D/a".to_string(), vec![], None),
        ("D/sub".to_string(), vec!["D/sub/b".to_string()], None),
        ("D/sub/b".to_string(), vec![], None),
    ];
    let mut proj = TagSet::new();
    proj.insert("proj".to_string());

    let mut visited: Vec<String> = Vec::new();
    let mut wl = Worklist::new("D".to_string());
    while let Some(path) = wl.pop() {
        visited.push(path.clone());
        let mut children: Vec<String> = Vec::new();
        for entry in store.iter_mut() {
            if entry.0 == path {
                children = entry.1.clone();
                entry.2 = apply_set(entry.2.take(), &proj);
            }
        }
        wl.push_children(children);
    }

    // every entry got the tag, parents before children, siblings in order
    assert_eq!(vec!["D", "D/a", "D/sub", "D/sub/b"], visited);
    for entry in store.iter() {
        let tags = vec_u8_to_hash_set(entry.2.clone().expect("tag must be stored"));
        assert_eq!(1, tags.len());
        assert!(tags.contains(&"proj".to_string()));
    }
}

#[test]
fn missing_path_reports_not_found() {
    let mut tags = TagSet::new();
    tags.insert("work".to_string());
    assert_eq!(Err(TagError::NotFound), set_tags("/no/such/path/anywhere", &tags));
    assert_eq!(Err(TagError::NotFound), del_tags("/no/such/path/anywhere", &tags));
}

#[test]
fn missing_path_reads_as_no_tags() {
    assert!(get_tags("/no/such/path/anywhere").is_none());
}

#[test]
fn delimiter_tag_is_rejected_before_io() {
    let mut bad = TagSet::new();
    bad.insert("a,b".to_string());
    assert_eq!(Err(TagError::EncodingViolation), set_tags("/no/such/path/anywhere", &bad));
    assert_eq!(
        Err(TagError::EncodingViolation),
        rename_tag("/no/such/path/anywhere", "a".to_string(), "b,c".to_string())
    );
}
