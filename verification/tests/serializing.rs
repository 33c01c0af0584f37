use suki::{suki_path, File, Tag};

fn tag(label: &str, files: &[&str]) -> Tag {
    Tag { tag: label.to_string(), files: files.iter().map(|f| f.to_string()).collect() }
}

#[test]
fn new_tag_has_its_label_and_no_file() {
    let t = Tag::new("work");
    assert_eq!(t.tag, "work");
    assert!(t.files.is_empty());
}

#[test]
fn serializes_each_tag_and_its_files() {
    let file = File { tags: vec![tag("work", &["report.docx", "budget.xlsx"]), tag("urgent", &["report.docx"])] };
    assert_eq!(file.serialize(), "work:\n\treport.docx\n\tbudget.xlsx\nurgent:\n\treport.docx\n");
}

#[test]
fn serializes_the_empty_database_as_the_empty_text() {
    assert_eq!(File { tags: vec![] }.serialize(), "");
}

#[test]
fn serializes_a_tag_without_files_as_one_line() {
    assert_eq!(File { tags: vec![tag("a", &[]), tag("", &[""])] }.serialize(), "a:\n:\n\t\n");
}

#[test]
fn written_database_reads_back() {
    let file = File {
        tags: vec![
            tag("work", &["report.docx", "budget.xlsx", "report.docx"]),
            tag("empty", &[]),
            tag("a:", &["notes:", "\tindented", "", "日本語.txt"]),
            tag("", &["x"]),
            tag("work", &["again"]),
        ],
    };
    let text = file.clone().serialize();
    assert_eq!(File::new(&text), Ok(file));
}

#[test]
fn read_text_writes_back() {
    let text = "work:\n\treport.docx\n\tbudget.xlsx\nurgent:\n\treport.docx\n";
    assert_eq!(File::new(text).expect("the text is well formed").serialize(), text);
    let unterminated = "work:\n\ta.txt";
    assert_eq!(File::new(unterminated).expect("the text is well formed").serialize(), "work:\n\ta.txt\n");
}

#[test]
fn label_with_a_line_feed_does_not_read_back() {
    let file = File { tags: vec![tag("a:\nb", &[])] };
    let text = file.clone().serialize();
    assert_eq!(text, "a:\nb:\n");
    assert_eq!(File::new(&text), Ok(File { tags: vec![tag("a", &[]), tag("b", &[])] }));
}

#[test]
fn path_of_the_database_of_a_directory() {
    assert_eq!(suki_path("/home/me"), "/home/me/.suki");
    assert_eq!(suki_path(""), "/.suki");
    assert_eq!(suki_path("."), "./.suki");
}
