use bookmark_census::parse::decode_entities;
use bookmark_census::{parse, Folder, ParseError};

#[test]
fn text_without_tags_is_an_empty_root() {
    let root = parse("just some text, no markup at all").unwrap();
    assert_eq!(root.title, "Bookmarks");
    assert!(root.bookmarks.is_empty());
    assert!(root.folders.is_empty());
    assert_eq!(root.last_modified, None);
    let empty = parse("").unwrap();
    assert_eq!(empty.title, "Bookmarks");
}

#[test]
fn plain_text_decodes_to_itself() {
    assert_eq!(decode_entities("no entities here; <tags> \"quotes\""), "no entities here; <tags> \"quotes\"");
    assert_eq!(decode_entities(""), "");
}

#[test]
fn every_known_entity_decodes() {
    assert_eq!(decode_entities("&amp;&lt;&gt;&quot;&apos;&#39;"), "&<>\"''");
    assert_eq!(decode_entities("a&amp;b"), "a&b");
}

#[test]
fn long_entity_names_are_not_decoded() {
    // the scan gives up after more than eight bytes of name
    assert_eq!(decode_entities("&abcdefghij;"), "&abcdefghij;");
    // a second ampersand ends the first one's scan
    assert_eq!(decode_entities("&&amp;"), "&&");
    assert_eq!(decode_entities("A & B &amp; C"), "A & B & C");
    assert_eq!(decode_entities("&a b;"), "&a b;");
    assert_eq!(decode_entities("x &"), "x &");
    assert_eq!(decode_entities("&ééééé;"), "&ééééé;");
}

#[test]
fn unquoted_attributes_and_other_dates() {
    let doc = "<DL><p><DT><A HREF=https://u.example/ ADD_DATE=+42 LAST_MODIFIED=-7 ICON=data:x>U</A></DL><p>";
    let root = parse(doc).unwrap();
    let b = &root.bookmarks[0];
    assert_eq!(b.url, "https://u.example/");
    assert_eq!(b.add_date, Some(42));
    assert_eq!(b.last_modified, Some(-7));
    assert_eq!(b.icon, Some("data:x".to_string()));
    assert_eq!(b.title, "U");
}

#[test]
fn dates_out_of_range_or_malformed_are_absent() {
    let doc = r#"<DL><p>
        <DT><A HREF="a" ADD_DATE="9223372036854775808">big</A>
        <DT><A HREF="b" ADD_DATE="-9223372036854775808">min</A>
        <DT><A HREF="c" ADD_DATE="12x">junk</A>
        <DT><A HREF="d" ADD_DATE="-">sign</A>
        <DT><A HREF="e" ADD_DATE="0009223372036854775807">zeros</A>
        <DT><A ADD_DATE="">no href</A>
    </DL><p>"#;
    let root = parse(doc).unwrap();
    assert_eq!(root.bookmarks[0].add_date, None);
    assert_eq!(root.bookmarks[1].add_date, Some(i64::MIN));
    assert_eq!(root.bookmarks[2].add_date, None);
    assert_eq!(root.bookmarks[3].add_date, None);
    assert_eq!(root.bookmarks[4].add_date, Some(i64::MAX));
    assert_eq!(root.bookmarks[5].add_date, None);
    assert_eq!(root.bookmarks[5].url, "");
    assert_eq!(root.bookmarks[5].icon, None);
}

#[test]
fn folder_modification_time_comes_from_h3() {
    let doc = r#"<DL><p><DT><H3 ADD_DATE="1" LAST_MODIFIED="1700000001">F</H3><DL><p></DL><p></DL><p>"#;
    let root = parse(doc).unwrap();
    assert_eq!(root.folders[0].title, "F");
    assert_eq!(root.folders[0].last_modified, Some(1700000001));
}

#[test]
fn unclosed_h1_leaves_the_default_title() {
    let root = parse("<H1>Never closed<DL><p></DL><p>").unwrap();
    assert_eq!(root.title, "Bookmarks");
}

#[test]
fn h1_title_is_decoded_and_close_tags_tolerate_case_and_space() {
    let root = parse("<h1>Tom &amp; Jerry</ H1 ><DL><p></dl>").unwrap();
    assert_eq!(root.title, "Tom & Jerry");
}

#[test]
fn a_close_tag_with_no_matching_open_is_unbalanced() {
    match parse("<DL><p></DL><p></DL>") {
        Err(ParseError::UnbalancedTags) => {}
        other => panic!("expected UnbalancedTags, got {:?}", other),
    }
    match parse("</DL>") {
        Err(ParseError::UnbalancedTags) => {}
        other => panic!("expected UnbalancedTags, got {:?}", other),
    }
}

#[test]
fn bookmarks_before_any_list_go_to_the_root() {
    let root = parse(r#"<A HREF="x">X</A>"#).unwrap();
    assert_eq!(root.bookmarks.len(), 1);
    assert_eq!(root.bookmarks[0].title, "X");
}

#[test]
fn error_messages() {
    assert_eq!(ParseError::UnbalancedTags.to_string(), "unbalanced <DL> tags in bookmark export");
    assert_eq!(ParseError::UnclosedTag("h3").to_string(), "unclosed <h3> tag in bookmark export");
}

#[test]
fn new_folder_is_empty_and_clone_is_equal() {
    let f = Folder::new("Work".to_string());
    assert_eq!(f.title, "Work");
    assert!(f.bookmarks.is_empty() && f.folders.is_empty());
    assert_eq!(f.last_modified, None);
    let root = parse(r#"<DL><p><DT><H3>A</H3><DL><p><DT><A HREF="u" ICON="i">T</A></DL><p></DL><p>"#).unwrap();
    let copy = root.clone();
    assert_eq!(copy, root);
}

#[test]
fn parsed_trees_are_small_compared_to_their_text() {
    let doc = r#"<DL><p><DT><H3>A</H3><DL><p><DT><A HREF="u">T</A><DT><A>T</A></DL><p></DL><p>"#;
    let root = parse(doc).unwrap();
    let items = 1 + root.folders[0].bookmarks.len();
    assert!(3 * items <= doc.chars().count());
}
