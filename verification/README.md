# bookmark-census

Parses the Netscape bookmark export that Chrome, Firefox and Safari write
("Export Bookmarks") and reports on it: how many folders and bookmarks, how
deep the folder tree goes, which URLs occur more than once, and which folders
are empty. The report comes as plain text or as one JSON object.

    let tree = bookmark_census::parse(&html)?;
    let report = bookmark_census::analyze(&tree);
    println!("{}", bookmark_census::render(&report, bookmark_census::OutputFormat::Human));

The library is written in Verus and every function of it is verified against
its contract, except one trusted item: `text::push_char`, a one-line wrapper
of `String::push` whose contract (the string gains that character at its
end) Verus takes on trust. The modules:

- `src/model.rs`: `Bookmark` and `Folder`, and their models as sequences and
  trees (`BookmarkModel`, `FolderModel`).
- `src/text.rs`: white space, ASCII case, searching, trimming and the
  lexicographic order, over sequences of `char`.
- `src/parse.rs`: the tag-level parser. `parse_document` states, tag by tag,
  what a text reads as; `parse` is proved to return exactly that.
- `src/report.rs`: `analyze`, whose result is proved to be the report
  `reports_on` describes (counts, depth, repeated URLs in order, empty folder
  paths).
- `src/format.rs`: `render`, proved to produce exactly `human_text` or
  `json_text`; `json_text` is the compact JSON text of a `JsonValue`.
- `src/json.rs`: a reader for compact JSON (`read_value`), as a
  specification, and the laws that every rendered value, the report's JSON
  among them, reads back as the value it was written from.

Laws proved about them stand beside the functions (`law_*`). `app/` adds
`Display` and `std::error::Error` to a copy of `ParseError`.
