use suki::{File, SyntaxError, SyntaxReason, Tag};

fn tag(label: &str, files: &[&str]) -> Tag {
    Tag { tag: label.to_string(), files: files.iter().map(|f| f.to_string()).collect() }
}

#[test]
fn empty_text_is_a_database_without_tags() {
    let file = File::new("").expect("the empty text is accepted");
    assert_eq!(file.tags.len(), 0);
}

#[test]
fn parses_tags_and_their_files_in_order() {
    let text = "work:\n\treport.docx\n\tbudget.xlsx\nurgent:\n\treport.docx\n";
    let file = File::new(text).expect("the text is well formed");
    assert_eq!(
        file,
        File { tags: vec![tag("work", &["report.docx", "budget.xlsx"]), tag("urgent", &["report.docx"])] }
    );
}

#[test]
fn last_line_may_lack_its_line_feed() {
    let file = File::new("work:\n\ta.txt").expect("the text is well formed");
    assert_eq!(file, File { tags: vec![tag("work", &["a.txt"])] });
    let file = File::new("work:").expect("the text is well formed");
    assert_eq!(file, File { tags: vec![tag("work", &[])] });
}

#[test]
fn tag_without_files_is_kept() {
    let file = File::new("a:\nb:\n\tx\n").expect("the text is well formed");
    assert_eq!(file, File { tags: vec![tag("a", &[]), tag("b", &["x"])] });
}

#[test]
fn line_without_tab_and_colon_is_refused_with_its_number() {
    assert_eq!(
        File::new("work:\n\ta.txt\nurgent\n\tb.txt\n"),
        Err(SyntaxError { line_number: 3, reason: SyntaxReason::MissingColon })
    );
    assert_eq!(File::new("work"), Err(SyntaxError { line_number: 1, reason: SyntaxReason::MissingColon }));
}

#[test]
fn file_line_before_any_tag_line_is_refused() {
    assert_eq!(
        File::new("\ta.txt\nwork:\n"),
        Err(SyntaxError { line_number: 1, reason: SyntaxReason::FileBeforeTag })
    );
}

#[test]
fn first_fault_is_the_one_reported() {
    assert_eq!(
        File::new("work:\nbad one\nbad two\n"),
        Err(SyntaxError { line_number: 2, reason: SyntaxReason::MissingColon })
    );
    assert_eq!(
        File::new("\tx\nbad\n"),
        Err(SyntaxError { line_number: 1, reason: SyntaxReason::FileBeforeTag })
    );
}

#[test]
fn empty_line_is_refused() {
    assert_eq!(
        File::new("work:\n\n\ta.txt\n"),
        Err(SyntaxError { line_number: 2, reason: SyntaxReason::MissingColon })
    );
    assert_eq!(File::new("\n"), Err(SyntaxError { line_number: 1, reason: SyntaxReason::MissingColon }));
}

#[test]
fn only_the_last_colon_is_stripped() {
    let file = File::new("a::\n:\n").expect("both lines end with a colon");
    assert_eq!(file, File { tags: vec![tag("a:", &[]), tag("", &[])] });
}

#[test]
fn whitespace_is_kept() {
    let file = File::new(" work :\n\t a b \n\t\tc\n\t\n").expect("the text is well formed");
    assert_eq!(file, File { tags: vec![tag(" work ", &[" a b ", "\tc", ""])] });
}

#[test]
fn line_that_begins_with_a_tab_is_a_file_line_whatever_its_end() {
    let file = File::new("work:\n\tnotes:\n").expect("the text is well formed");
    assert_eq!(file, File { tags: vec![tag("work", &["notes:"])] });
}

#[test]
fn repeated_label_opens_a_second_tag() {
    let file = File::new("work:\n\ta\nwork:\n\tb\n").expect("the text is well formed");
    assert_eq!(file, File { tags: vec![tag("work", &["a"]), tag("work", &["b"])] });
}

#[test]
fn characters_of_several_bytes_are_read_whole() {
    let file = File::new("räksmörgås:\n\t日本語.txt\n\t🙂\n").expect("the text is well formed");
    assert_eq!(file, File { tags: vec![tag("räksmörgås", &["日本語.txt", "🙂"])] });
}

#[test]
fn syntax_reasons_in_words() {
    assert_eq!(SyntaxReason::FileBeforeTag.describe(), "cannot start suki file with filename");
    assert_eq!(SyntaxReason::MissingColon.describe(), "missing ':' at end of label descriptor");
}
