use bookmark_census::{analyze, parse, render, OutputFormat, Report};

const DOC: &str = r#"
<H1>Root</H1>
<DL><p>
  <DT><H3>Work</H3>
  <DL><p>
    <DT><A HREF="https://github.com/">GH</A>
    <DT><H3>old team wiki</H3>
    <DL><p>
    </DL><p>
  </DL><p>
  <DT><A HREF="https://github.com/">GH again</A>
  <DT><A HREF="https://news.ycombinator.com/">HN</A>
  <DT><A HREF="https://github.com/">GH 3</A>
  <DT><A HREF="https://news.ycombinator.com/">HN 2</A>
  <DT><H3>Empty</H3>
  <DL><p></DL><p>
</DL><p>
"#;

#[test]
fn analyze_counts_and_finds_cruft() {
    let report = analyze(&parse(DOC).unwrap());
    assert_eq!(report.folder_count, 4);
    assert_eq!(report.bookmark_count, 5);
    assert_eq!(report.max_depth, 3);
    assert_eq!(
        report.duplicate_urls,
        vec![
            ("https://github.com/".to_string(), 3),
            ("https://news.ycombinator.com/".to_string(), 2)
        ]
    );
    assert_eq!(report.empty_folders, vec!["Root/Work/old team wiki".to_string(), "Root/Empty".to_string()]);
}

#[test]
fn report_numbers_hang_together() {
    let report = analyze(&parse(DOC).unwrap());
    assert!(1 <= report.max_depth && report.max_depth <= report.folder_count);
    assert!(report.empty_folders.len() <= report.folder_count);
    let sum: usize = report.duplicate_urls.iter().map(|(_, c)| *c).sum();
    assert!(sum <= report.bookmark_count);
}

#[test]
fn duplicates_are_sorted_by_code_point() {
    let doc = r#"<DL><p>
        <A HREF="é">1</A><A HREF="b">2</A><A HREF="B">3</A><A HREF="z">4</A>
        <A HREF="é">5</A><A HREF="b">6</A><A HREF="B">7</A><A HREF="z">8</A><A HREF="only">9</A>
    </DL><p>"#;
    let report = analyze(&parse(doc).unwrap());
    let urls: Vec<&str> = report.duplicate_urls.iter().map(|(u, _)| u.as_str()).collect();
    assert_eq!(urls, vec!["B", "b", "z", "é"]);
    assert!(report.duplicate_urls.iter().all(|(_, c)| *c == 2));
}

#[test]
fn an_empty_export_has_an_empty_root() {
    let report = analyze(&parse("<DL><p></DL><p>").unwrap());
    assert_eq!(report.folder_count, 1);
    assert_eq!(report.bookmark_count, 0);
    assert_eq!(report.max_depth, 1);
    assert!(report.duplicate_urls.is_empty());
    assert_eq!(report.empty_folders, vec!["Bookmarks".to_string()]);
}

#[test]
fn human_rendering() {
    let report = analyze(&parse(DOC).unwrap());
    let text = render(&report, OutputFormat::Human);
    assert_eq!(
        text,
        "folders:       4\nbookmarks:     5\nmax depth:     3\nduplicates:    2\n  3x  https://github.com/\n  2x  https://news.ycombinator.com/\nempty folders: 2\n  Root/Work/old team wiki\n  Root/Empty\n"
    );
}

#[test]
fn human_rendering_of_nothing() {
    let report = analyze(&parse("<DL><p><DT><A HREF=\"x\">X</A></DL><p>").unwrap());
    let text = render(&report, OutputFormat::Human);
    assert_eq!(
        text,
        "folders:       1\nbookmarks:     1\nmax depth:     1\nduplicates:    none\nempty folders: none\n"
    );
}

#[test]
fn json_rendering() {
    let report = analyze(&parse(DOC).unwrap());
    let text = render(&report, OutputFormat::Json);
    assert_eq!(
        text,
        r#"{"folder_count":4,"bookmark_count":5,"max_depth":3,"duplicate_urls":[{"url":"https://github.com/","count":3},{"url":"https://news.ycombinator.com/","count":2}],"empty_folders":["Root/Work/old team wiki","Root/Empty"]}"#
    );
}

#[test]
fn json_strings_are_escaped() {
    let report = Report {
        folder_count: 10,
        bookmark_count: 1234567890,
        max_depth: 0,
        duplicate_urls: vec![("a\"b\\c\n\r\t\u{1}\u{1f}é".to_string(), 2)],
        empty_folders: vec!["x".to_string(), "y/\u{7f}".to_string()],
    };
    let text = render(&report, OutputFormat::Json);
    assert_eq!(
        text,
        "{\"folder_count\":10,\"bookmark_count\":1234567890,\"max_depth\":0,\"duplicate_urls\":[{\"url\":\"a\\\"b\\\\c\\n\\r\\t\\u0001\\u001fé\",\"count\":2}],\"empty_folders\":[\"x\",\"y/\u{7f}\"]}"
    );
}

#[test]
fn json_string_quotes_and_escapes() {
    assert_eq!(bookmark_census::format::json_string("a\"b"), "\"a\\\"b\"");
    assert_eq!(bookmark_census::format::json_string(""), "\"\"");
    assert_eq!(bookmark_census::format::json_string("line\nbreak"), "\"line\\nbreak\"");
}

#[test]
fn json_rendering_is_one_line() {
    let report = Report {
        folder_count: 1,
        bookmark_count: 0,
        max_depth: 1,
        duplicate_urls: vec![],
        empty_folders: vec!["Root\nwith break".to_string()],
    };
    let text = render(&report, OutputFormat::Json);
    assert!(!text.contains('\n'));
    assert_eq!(
        text,
        "{\"folder_count\":1,\"bookmark_count\":0,\"max_depth\":1,\"duplicate_urls\":[],\"empty_folders\":[\"Root\\nwith break\"]}"
    );
}
