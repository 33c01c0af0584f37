use suki::{File, InvalidArgument, Tag};

fn tag(label: &str, files: &[&str]) -> Tag {
    Tag { tag: label.to_string(), files: files.iter().map(|f| f.to_string()).collect() }
}

fn labels(of: &[&str]) -> Vec<String> {
    of.iter().map(|l| l.to_string()).collect()
}

#[test]
fn add_to_empty_database_makes_the_tag() {
    let mut db = File { tags: vec![] };
    assert_eq!(db.add_file_to_tags("a.txt", &labels(&["work"])), Ok(()));
    assert_eq!(db, File { tags: vec![tag("work", &["a.txt"])] });
}

#[test]
fn add_to_a_known_tag_appends() {
    let mut db = File { tags: vec![tag("work", &["a.txt"])] };
    assert_eq!(db.add_file_to_tags("b.txt", &labels(&["work"])), Ok(()));
    assert_eq!(db, File { tags: vec![tag("work", &["a.txt", "b.txt"])] });
}

#[test]
fn add_to_several_tags_in_order() {
    let mut db = File { tags: vec![tag("work", &["a.txt"]), tag("home", &[])] };
    assert_eq!(db.add_file_to_tags("b.txt", &labels(&["new", "home", "work", "other"])), Ok(()));
    assert_eq!(
        db,
        File {
            tags: vec![
                tag("work", &["a.txt", "b.txt"]),
                tag("home", &["b.txt"]),
                tag("new", &["b.txt"]),
                tag("other", &["b.txt"]),
            ]
        }
    );
}

#[test]
fn add_does_not_look_for_duplicates() {
    let mut db = File { tags: vec![tag("work", &["a.txt"])] };
    assert_eq!(db.add_file_to_tags("a.txt", &labels(&["work", "work"])), Ok(()));
    assert_eq!(db, File { tags: vec![tag("work", &["a.txt", "a.txt", "a.txt"])] });
}

#[test]
fn add_of_a_new_label_twice_makes_one_tag() {
    let mut db = File { tags: vec![] };
    assert_eq!(db.add_file_to_tags("a.txt", &labels(&["x", "x"])), Ok(()));
    assert_eq!(db, File { tags: vec![tag("x", &["a.txt", "a.txt"])] });
}

#[test]
fn add_without_tags_changes_nothing() {
    let mut db = File { tags: vec![tag("work", &["a.txt"])] };
    assert_eq!(db.add_file_to_tags("b.txt", &[]), Ok(()));
    assert_eq!(db, File { tags: vec![tag("work", &["a.txt"])] });
}

#[test]
fn add_goes_to_the_first_of_two_tags_with_one_label() {
    let mut db = File { tags: vec![tag("work", &["a"]), tag("work", &["b"])] };
    assert_eq!(db.add_file_to_tags("c", &labels(&["work"])), Ok(()));
    assert_eq!(db, File { tags: vec![tag("work", &["a", "c"]), tag("work", &["b"])] });
}

#[test]
fn add_refuses_the_empty_file_name() {
    let mut db = File { tags: vec![tag("work", &["a.txt"])] };
    assert_eq!(db.add_file_to_tags("", &labels(&["work", "new"])), Err(InvalidArgument::EmptyFilename));
    assert_eq!(db, File { tags: vec![tag("work", &["a.txt"])] });
}

#[test]
fn remove_from_an_unknown_tag_changes_nothing() {
    let mut db = File { tags: vec![tag("work", &["a.txt"])] };
    assert_eq!(db.remove_file_from_tags("a.txt", &labels(&["nonexistent"])), Ok(()));
    assert_eq!(db, File { tags: vec![tag("work", &["a.txt"])] });
}

#[test]
fn remove_takes_every_occurrence() {
    let mut db = File { tags: vec![tag("work", &["a.txt", "b.txt", "a.txt", "c.txt", "a.txt"])] };
    assert_eq!(db.remove_file_from_tags("a.txt", &labels(&["work"])), Ok(()));
    assert_eq!(db, File { tags: vec![tag("work", &["b.txt", "c.txt"])] });
}

#[test]
fn remove_keeps_a_tag_that_is_left_empty() {
    let mut db = File { tags: vec![tag("work", &["a.txt"]), tag("home", &["a.txt"])] };
    assert_eq!(db.remove_file_from_tags("a.txt", &labels(&["work"])), Ok(()));
    assert_eq!(db, File { tags: vec![tag("work", &[]), tag("home", &["a.txt"])] });
}

#[test]
fn remove_from_several_tags() {
    let mut db = File { tags: vec![tag("a", &["x", "y"]), tag("b", &["y", "x"]), tag("c", &["x"])] };
    assert_eq!(db.remove_file_from_tags("x", &labels(&["c", "ghost", "a", "a"])), Ok(()));
    assert_eq!(db, File { tags: vec![tag("a", &["y"]), tag("b", &["y", "x"]), tag("c", &[])] });
}

#[test]
fn remove_without_tags_changes_nothing() {
    let mut db = File { tags: vec![tag("work", &["a.txt"])] };
    assert_eq!(db.remove_file_from_tags("a.txt", &[]), Ok(()));
    assert_eq!(db, File { tags: vec![tag("work", &["a.txt"])] });
}

#[test]
fn remove_refuses_the_empty_file_name() {
    let mut db = File { tags: vec![tag("work", &["", "a.txt"])] };
    assert_eq!(db.remove_file_from_tags("", &labels(&["work"])), Err(InvalidArgument::EmptyFilename));
    assert_eq!(db, File { tags: vec![tag("work", &["", "a.txt"])] });
}

#[test]
fn find_tag_gives_the_first_place_of_a_label() {
    let db = File { tags: vec![tag("a", &[]), tag("b", &[]), tag("a", &[])] };
    assert_eq!(db.find_tag(&"a".to_string()), Some(0));
    assert_eq!(db.find_tag(&"b".to_string()), Some(1));
    assert_eq!(db.find_tag(&"c".to_string()), None);
    assert_eq!(File { tags: vec![] }.find_tag(&"a".to_string()), None);
}

#[test]
fn labels_stay_distinct_under_add_and_remove() {
    let mut db = File { tags: vec![] };
    assert_eq!(db.add_file_to_tags("a", &labels(&["x", "y", "x", "z", "y"])), Ok(()));
    assert_eq!(db.remove_file_from_tags("a", &labels(&["y"])), Ok(()));
    let names: Vec<&str> = db.tags.iter().map(|t| t.tag.as_str()).collect();
    assert_eq!(names, vec!["x", "y", "z"]);
}
