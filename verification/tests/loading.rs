use cedict::entry::{Entry, LoadError, RawRow};
use cedict::load::{load, load_rows};

fn chars(s: &str) -> Vec<char> {
    s.chars().collect()
}

fn row(sim: &str, tra: &str, pin: &str, def: &str, level: Option<u32>) -> RawRow {
    RawRow {
        simplified: sim.to_string(),
        traditional: tra.to_string(),
        pronunciation: pin.to_string(),
        definition: def.to_string(),
        level,
    }
}

#[test]
fn load_example_line_and_comment() {
    let source = "你好 你好 [ni3 hao3] /hello/hi/\n# comment line";
    let entries = load(source).unwrap();
    assert_eq!(entries.len(), 1);
    let e = &entries[0];
    assert_eq!(e.head_simplified(), &chars("你好"));
    assert_eq!(e.head_traditional(), &chars("你好"));
    assert_eq!(e.pronunciation(), &chars("ni3 hao3"));
    assert_eq!(e.definition(), &chars("hello/hi"));
    let senses: Vec<String> = e.senses();
    assert_eq!(senses, vec!["hello".to_string(), "hi".to_string()]);
    assert_eq!(e.level(), None);
    assert!(!e.is_single_char());
    assert_eq!(e.index(), '你');
}

#[test]
fn load_traditional_and_simplified_in_source_order() {
    let entries = load("楊 杨 [yang2] /poplar/").unwrap();
    assert_eq!(entries.len(), 1);
    assert_eq!(entries[0].head_traditional(), &chars("楊"));
    assert_eq!(entries[0].head_simplified(), &chars("杨"));
    assert!(entries[0].is_single_char());
    assert_eq!(entries[0].index(), '杨');
}

#[test]
fn load_skips_comments_and_empty_lines() {
    let source = "# header\n\n個 个 [ge4] /classifier/\n\n# tail\n";
    let entries = load(source).unwrap();
    assert_eq!(entries.len(), 1);
    assert_eq!(entries[0].head_simplified(), &chars("个"));
}

#[test]
fn load_empty_source_gives_no_entries() {
    assert_eq!(load("").unwrap().len(), 0);
    assert_eq!(load("# only a comment").unwrap().len(), 0);
}

#[test]
fn malformed_line_fails_whole_load() {
    let source = "你好 你好 [ni3 hao3] /hello/\nnot a dictionary line\n个 個 [ge4] /classifier/";
    let err = load(source).unwrap_err();
    assert_eq!(err, LoadError::MalformedLine { line: 1 });
}

#[test]
fn malformed_variants_are_rejected() {
    // No space-separated head forms.
    assert!(load("word").is_err());
    // Missing bracketed pronunciation.
    assert!(load("你 你 /hi/").is_err());
    // Unclosed bracket.
    assert!(load("你 你 [ni3 /hi/").is_err());
    // Missing definition.
    assert!(load("你 你 [ni3]").is_err());
    // Trailing data after the closing slash.
    assert!(load("你 你 [ni3] /hi/ extra").is_err());
    // Empty simplified head form (two separating spaces).
    assert!(load("你  [ni3] /hi/").is_err());
}

#[test]
fn definition_may_hold_many_senses() {
    let entries = load("好 好 [hao3] /good/well/proper/").unwrap();
    let senses = entries[0].senses();
    assert_eq!(
        senses,
        vec!["good".to_string(), "well".to_string(), "proper".to_string()]
    );
}

#[test]
fn from_row_derives_fields() {
    let e = Entry::from_row(&row("你好", "你好", "ni3 hao3", "hello/hi", Some(1))).unwrap();
    assert_eq!(e.head_simplified(), &chars("你好"));
    assert_eq!(e.level(), Some(1));
    assert!(!e.is_single_char());
    assert_eq!(e.index(), '你');

    let single = Entry::from_row(&row("杨", "楊", "yang2", "poplar", None)).unwrap();
    assert!(single.is_single_char());
    assert_eq!(single.index(), '杨');
}

#[test]
fn from_row_rejects_empty_head_forms() {
    assert!(Entry::from_row(&row("", "你好", "p", "d", None)).is_none());
    assert!(Entry::from_row(&row("你好", "", "p", "d", None)).is_none());
}

#[test]
fn load_rows_fails_on_first_bad_row() {
    let rows = vec![
        row("你好", "你好", "p", "d", None),
        row("", "好", "p", "d", None),
        row("好", "好", "p", "d", None),
    ];
    let err = load_rows(&rows).unwrap_err();
    assert_eq!(err, LoadError::MalformedRow { row: 1 });
}

#[test]
fn load_rows_keeps_order_and_levels() {
    let rows = vec![
        row("你好", "你好", "ni3 hao3", "hello", Some(1)),
        row("杨", "楊", "yang2", "poplar", None),
    ];
    let entries = load_rows(&rows).unwrap();
    assert_eq!(entries.len(), 2);
    assert_eq!(entries[0].head_simplified(), &chars("你好"));
    assert_eq!(entries[0].level(), Some(1));
    assert_eq!(entries[1].head_simplified(), &chars("杨"));
    assert_eq!(entries[1].level(), None);
}

#[test]
fn error_messages_name_the_place() {
    assert_eq!(
        LoadError::MalformedLine { line: 12 }.message(),
        "malformed line 12"
    );
    assert_eq!(LoadError::MalformedRow { row: 0 }.message(), "malformed row 0");
    assert_eq!(LoadError::SourceUnreadable.message(), "source unreadable");
}
