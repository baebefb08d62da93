//! Rendering a `Report` for either a person or another program to read.
//! Every caller picks one `OutputFormat`; there's no mixing of the two in a
//! single call, so a script piping this into `jq` never has to guess which
//! lines are data and which are labels.
use vstd::prelude::*;
use crate::report::{pairs, Report, ReportModel};
use crate::text::{chars_of, push_char};

verus! {

#[derive(Debug, Clone, Copy, PartialEq, Eq)]
pub enum OutputFormat {
    Human,
    Json,
}

// ---------------------------------------------------------------------------
// Numbers and JSON strings
// ---------------------------------------------------------------------------

/// The ASCII digit for a value below ten.
pub open spec fn digit_char(d: nat) -> char {
    ((d + 48) as u8) as char
}

/// The decimal representation of `n`, without leading zeros, as `Display`
/// writes an unsigned integer.
pub open spec fn decimal(n: nat) -> Seq<char>
    decreases n,
{
    if n < 10 {
        seq![digit_char(n)]
    } else {
        decimal(n / 10).push(digit_char(n % 10))
    }
}

fn push_decimal(out: &mut String, n: usize)
    ensures
        final(out)@ == old(out)@ + decimal(n as nat),
    decreases n,
{
    if n >= 10 {
        push_decimal(out, n / 10);
    }
    let d: u8 = (n % 10) as u8;
    push_char(out, (d + 48) as char);
    assert(old(out)@ + decimal(n as nat) =~= if n >= 10 {
        old(out)@ + decimal((n / 10) as nat) + seq![digit_char((n % 10) as nat)]
    } else {
        old(out)@ + seq![digit_char(n as nat)]
    });
}

/// The lower-case hexadecimal digit for a value below sixteen.
pub open spec fn hex_char(d: nat) -> char {
    if d < 10 {
        digit_char(d)
    } else {
        ((d - 10 + 97) as u8) as char
    }
}

fn hex_digit(d: u32) -> (c: char)
    requires
        d < 16,
    ensures
        c == hex_char(d as nat),
{
    if d < 10 {
        ((d as u8) + 48) as char
    } else {
        ((d as u8) - 10 + 97) as char
    }
}

/// How one character is written inside a JSON string.
pub open spec fn json_escape(c: char) -> Seq<char> {
    if c == '"' {
        seq!['\\', '"']
    } else if c == '\\' {
        seq!['\\', '\\']
    } else if c == '\n' {
        seq!['\\', 'n']
    } else if c == '\r' {
        seq!['\\', 'r']
    } else if c == '\t' {
        seq!['\\', 't']
    } else if (c as u32) < 0x20 {
        let v = c as u32 as nat;
        seq!['\\', 'u', '0', '0', hex_char(v / 16), hex_char(v % 16)]
    } else {
        seq![c]
    }
}

/// The escaped characters of a text.
pub open spec fn json_escape_all(s: Seq<char>) -> Seq<char>
    decreases s.len(),
{
    if s.len() == 0 {
        Seq::empty()
    } else {
        json_escape_all(s.drop_last()) + json_escape(s.last())
    }
}

/// A text as a JSON string literal.
pub open spec fn json_quoted(s: Seq<char>) -> Seq<char> {
    seq!['"'] + json_escape_all(s) + seq!['"']
}

/// The value of a hexadecimal digit, either case.
pub open spec fn hex_value(c: char) -> Option<nat> {
    if '0' <= c <= '9' {
        Some((c as u32 - '0' as u32) as nat)
    } else if 'a' <= c <= 'f' {
        Some((c as u32 - 'a' as u32 + 10) as nat)
    } else if 'A' <= c <= 'F' {
        Some((c as u32 - 'A' as u32 + 10) as nat)
    } else {
        None
    }
}

/// The character a `\u` escape with four digits stands for, when they are
/// hexadecimal and name a character outside the surrogate range.
pub open spec fn unicode_escape(a: char, b: char, c: char, d: char) -> Option<char> {
    match (hex_value(a), hex_value(b), hex_value(c), hex_value(d)) {
        (Some(x), Some(y), Some(z), Some(w)) => {
            let v = ((x * 16 + y) * 16 + z) * 16 + w;
            if 0xD800 <= v <= 0xDFFF {
                None
            } else {
                Some(v as char)
            }
        },
        _ => None,
    }
}

/// The text a JSON string body (what stands between its quotes) denotes, as
/// RFC 8259 reads it; `None` where the body is not valid JSON: a raw quote
/// or control character, or an unknown or cut-off escape.
pub open spec fn json_unescape(t: Seq<char>) -> Option<Seq<char>>
    decreases t.len(),
{
    if t.len() == 0 {
        Some(Seq::empty())
    } else if t[0] != '\\' {
        if t[0] == '"' || (t[0] as u32) < 0x20 {
            None
        } else {
            match json_unescape(t.drop_first()) {
                Some(r) => Some(seq![t[0]] + r),
                None => None,
            }
        }
    } else if t.len() < 2 {
        None
    } else {
        let e = t[1];
        let simple = if e == '"' {
            Some('"')
        } else if e == '\\' {
            Some('\\')
        } else if e == '/' {
            Some('/')
        } else if e == 'b' {
            Some('\u{8}')
        } else if e == 'f' {
            Some('\u{c}')
        } else if e == 'n' {
            Some('\n')
        } else if e == 'r' {
            Some('\r')
        } else if e == 't' {
            Some('\t')
        } else {
            None
        };
        match simple {
            Some(c) => match json_unescape(t.subrange(2, t.len() as int)) {
                Some(r) => Some(seq![c] + r),
                None => None,
            },
            None => if e == 'u' && t.len() >= 6 {
                match unicode_escape(t[2], t[3], t[4], t[5]) {
                    Some(c) => match json_unescape(t.subrange(6, t.len() as int)) {
                        Some(r) => Some(seq![c] + r),
                        None => None,
                    },
                    None => None,
                }
            } else {
                None
            },
        }
    }
}

proof fn lemma_json_escape_one(c: char, rest: Seq<char>)
    ensures
        json_unescape(json_escape(c) + rest) == match json_unescape(rest) {
            Some(r) => Some(seq![c] + r),
            None => None::<Seq<char>>,
        },
{
    let t = json_escape(c) + rest;
    let n = json_escape(c).len() as int;
    assert(t.subrange(n, t.len() as int) =~= rest);
    if c != '"' && c != '\\' && c != '\n' && c != '\r' && c != '\t' && (c as u32) < 0x20 {
        let v = c as u32 as nat;
        assert(hex_value(hex_char(v / 16)) == Some(v / 16));
        assert(hex_value(hex_char(v % 16)) == Some(v % 16));
        assert(hex_value('0') == Some(0nat));
        assert(((0 * 16 + 0) * 16 + v / 16) * 16 + v % 16 == v);
        assert((v as char) == c);
    } else if c != '"' && c != '\\' && c != '\n' && c != '\r' && c != '\t' {
        assert(t.drop_first() =~= rest);
    }
}

pub proof fn lemma_json_escape_all_front(s: Seq<char>)
    requires
        s.len() > 0,
    ensures
        json_escape_all(s) == json_escape(s[0]) + json_escape_all(s.drop_first()),
    decreases s.len(),
{
    if s.len() == 1 {
        assert(s.drop_last() =~= Seq::<char>::empty());
        assert(s.drop_first() =~= Seq::<char>::empty());
    } else {
        lemma_json_escape_all_front(s.drop_last());
        assert(s.drop_last().drop_first() =~= s.drop_first().drop_last());
        assert(s.drop_first().last() == s.last());
        assert(s.drop_last()[0] == s[0]);
    }
}

/// The JSON output keeps every text it carries: the body of `json_quoted(s)`
/// is valid JSON and reads back as `s`.
pub proof fn law_json_string_reads_back(s: Seq<char>)
    ensures
        json_quoted(s) == seq!['"'] + json_escape_all(s) + seq!['"'],
        json_unescape(json_escape_all(s)) == Some(s),
    decreases s.len(),
{
    if s.len() == 0 {
        assert(json_escape_all(s) =~= Seq::<char>::empty());
    } else {
        lemma_json_escape_all_front(s);
        law_json_string_reads_back(s.drop_first());
        lemma_json_escape_one(s[0], json_escape_all(s.drop_first()));
        assert(seq![s[0]] + s.drop_first() =~= s);
    }
}

fn push_json_escape(out: &mut String, c: char)
    ensures
        final(out)@ == old(out)@ + json_escape(c),
{
    if c == '"' {
        push_char(out, '\\');
        push_char(out, '"');
    } else if c == '\\' {
        push_char(out, '\\');
        push_char(out, '\\');
    } else if c == '\n' {
        push_char(out, '\\');
        push_char(out, 'n');
    } else if c == '\r' {
        push_char(out, '\\');
        push_char(out, 'r');
    } else if c == '\t' {
        push_char(out, '\\');
        push_char(out, 't');
    } else if (c as u32) < 0x20 {
        let v = c as u32;
        push_char(out, '\\');
        push_char(out, 'u');
        push_char(out, '0');
        push_char(out, '0');
        push_char(out, hex_digit(v / 16));
        push_char(out, hex_digit(v % 16));
    } else {
        push_char(out, c);
    }
    assert(final(out)@ =~= old(out)@ + json_escape(c));
}

/// A text as a JSON string literal, quotes included (see
/// `law_json_string_reads_back`).
pub fn json_string(text: &str) -> (r: String)
    ensures
        r@ == json_quoted(text@),
{
    let chars = chars_of(text);
    let s = chars.as_slice();
    let mut out = String::new();
    push_char(&mut out, '"');
    let mut i: usize = 0;
    while i < s.len()
        invariant
            i <= s.len(),
            out@ == seq!['"'] + json_escape_all(s@.take(i as int)),
        decreases s.len() - i,
    {
        push_json_escape(&mut out, s[i]);
        assert(s@.take(i + 1).drop_last() =~= s@.take(i as int));
        i = i + 1;
    }
    assert(s@.take(s.len() as int) =~= s@);
    push_char(&mut out, '"');
    assert(out@ =~= json_quoted(s@));
    out
}

// ---------------------------------------------------------------------------
// For a person
// ---------------------------------------------------------------------------

/// The lines listing repeated URLs: two spaces, the count, `x`, two spaces,
/// the URL.
pub open spec fn duplicate_lines(d: Seq<(Seq<char>, nat)>) -> Seq<char>
    decreases d.len(),
{
    if d.len() == 0 {
        Seq::empty()
    } else {
        duplicate_lines(d.drop_last()) + "  "@ + decimal(d.last().1) + "x  "@ + d.last().0 + "\n"@
    }
}

/// The lines listing empty folders: two spaces, then the path.
pub open spec fn path_lines(p: Seq<Seq<char>>) -> Seq<char>
    decreases p.len(),
{
    if p.len() == 0 {
        Seq::empty()
    } else {
        path_lines(p.drop_last()) + "  "@ + p.last() + "\n"@
    }
}

/// The plain-text report: one labelled line per number, then the repeated
/// URLs and the empty folders, each introduced by how many there are, or
/// by "none".
pub open spec fn human_text(r: ReportModel) -> Seq<char> {
    "folders:       "@ + decimal(r.folder_count) + "\n"@
    + "bookmarks:     "@ + decimal(r.bookmark_count) + "\n"@
    + "max depth:     "@ + decimal(r.max_depth) + "\n"@
    + (if r.duplicate_urls.len() == 0 {
        "duplicates:    none\n"@
    } else {
        "duplicates:    "@ + decimal(r.duplicate_urls.len()) + "\n"@ + duplicate_lines(r.duplicate_urls)
    })
    + (if r.empty_folders.len() == 0 {
        "empty folders: none\n"@
    } else {
        "empty folders: "@ + decimal(r.empty_folders.len()) + "\n"@ + path_lines(r.empty_folders)
    })
}

/// Whether `t` starts with `s`.
pub open spec fn starts_with(t: Seq<char>, s: Seq<char>) -> bool {
    s.len() <= t.len() && t.take(s.len() as int) == s
}

/// Whether `t` ends with `s`.
pub open spec fn ends_with(t: Seq<char>, s: Seq<char>) -> bool {
    s.len() <= t.len() && t.skip(t.len() - s.len()) == s
}

/// How a list's length is shown on its heading line: `none` for no entry,
/// else the number of entries.
pub open spec fn count_word(n: nat) -> Seq<char> {
    if n == 0 {
        "none"@
    } else {
        decimal(n)
    }
}

/// The line a repeated URL is listed on.
pub open spec fn duplicate_line(p: (Seq<char>, nat)) -> Seq<char> {
    "  "@ + decimal(p.1) + "x  "@ + p.0 + "\n"@
}

/// The line an empty folder is listed on.
pub open spec fn path_line(p: Seq<char>) -> Seq<char> {
    "  "@ + p + "\n"@
}

proof fn lemma_duplicate_lines_flat(d: Seq<(Seq<char>, nat)>)
    ensures
        duplicate_lines(d) == d.map_values(|p: (Seq<char>, nat)| duplicate_line(p)).flatten(),
    decreases d.len(),
{
    let m = d.map_values(|p: (Seq<char>, nat)| duplicate_line(p));
    m.lemma_flatten_and_flatten_alt_are_equivalent();
    if d.len() > 0 {
        lemma_duplicate_lines_flat(d.drop_last());
        let md = d.drop_last().map_values(|p: (Seq<char>, nat)| duplicate_line(p));
        md.lemma_flatten_and_flatten_alt_are_equivalent();
        assert(m.drop_last() =~= md);
        assert(m.last() == duplicate_line(d.last()));
        assert(duplicate_lines(d) =~= duplicate_lines(d.drop_last()) + duplicate_line(d.last()));
    } else {
        assert(m =~= Seq::<Seq<char>>::empty());
    }
}

proof fn lemma_path_lines_flat(p: Seq<Seq<char>>)
    ensures
        path_lines(p) == p.map_values(|x: Seq<char>| path_line(x)).flatten(),
    decreases p.len(),
{
    let m = p.map_values(|x: Seq<char>| path_line(x));
    m.lemma_flatten_and_flatten_alt_are_equivalent();
    if p.len() > 0 {
        lemma_path_lines_flat(p.drop_last());
        let md = p.drop_last().map_values(|x: Seq<char>| path_line(x));
        md.lemma_flatten_and_flatten_alt_are_equivalent();
        assert(m.drop_last() =~= md);
        assert(m.last() == path_line(p.last()));
        assert(path_lines(p) =~= path_lines(p.drop_last()) + path_line(p.last()));
    } else {
        assert(m =~= Seq::<Seq<char>>::empty());
    }
}

/// The plain-text report opens with three lines: the number of folders,
/// of bookmarks, and the depth, each after its label.
pub proof fn law_human_counts(r: ReportModel)
    ensures
        starts_with(
            human_text(r),
            "folders:       "@ + decimal(r.folder_count) + "\n"@
                + "bookmarks:     "@ + decimal(r.bookmark_count) + "\n"@
                + "max depth:     "@ + decimal(r.max_depth) + "\n"@,
        ),
{
    let head = "folders:       "@ + decimal(r.folder_count) + "\n"@ + "bookmarks:     "@ + decimal(
        r.bookmark_count,
    ) + "\n"@ + "max depth:     "@ + decimal(r.max_depth) + "\n"@;
    let t = human_text(r);
    let tail = t.skip(head.len() as int);
    assert(t =~= head + tail);
    assert(t.take(head.len() as int) =~= head);
}

/// The plain-text report ends with its empty folders: a heading line
/// whose number is how many paths follow (or `none` when no path does),
/// then one indented line per path, in the report's order.
pub proof fn law_human_empty_folders(r: ReportModel)
    ensures
        ends_with(
            human_text(r),
            "empty folders: "@ + count_word(r.empty_folders.len()) + "\n"@ + r.empty_folders.map_values(
                |x: Seq<char>| path_line(x),
            ).flatten(),
        ),
{
    law_human_lists(r);
    let e = "empty folders: "@ + count_word(r.empty_folders.len()) + "\n"@ + r.empty_folders.map_values(
        |x: Seq<char>| path_line(x),
    ).flatten();
    let t = human_text(r);
    let dup = "duplicates:    "@ + count_word(r.duplicate_urls.len()) + "\n"@
        + r.duplicate_urls.map_values(|p: (Seq<char>, nat)| duplicate_line(p)).flatten();
    let w = t.skip(t.len() - (dup + e).len());
    assert(w == dup + e);
    assert(t.skip(t.len() - e.len()) =~= w.skip(dup.len() as int));
    assert((dup + e).skip(dup.len() as int) =~= e);
}

/// The plain-text report ends with its two lists: the repeated URLs, with a
/// heading line that says `none` exactly when there is none and otherwise
/// how many there are, then one line `  {count}x  {url}` per entry in the
/// report's order; and after them the empty folders, listed the same way.
pub proof fn law_human_lists(r: ReportModel)
    ensures
        ends_with(
            human_text(r),
            "duplicates:    "@ + count_word(r.duplicate_urls.len()) + "\n"@ + r.duplicate_urls.map_values(
                |p: (Seq<char>, nat)| duplicate_line(p),
            ).flatten() + "empty folders: "@ + count_word(r.empty_folders.len()) + "\n"@
                + r.empty_folders.map_values(|x: Seq<char>| path_line(x)).flatten(),
        ),
{
    lemma_duplicate_lines_flat(r.duplicate_urls);
    lemma_path_lines_flat(r.empty_folders);
    let dm = r.duplicate_urls.map_values(|p: (Seq<char>, nat)| duplicate_line(p));
    let pm = r.empty_folders.map_values(|x: Seq<char>| path_line(x));
    let dsec = "duplicates:    "@ + count_word(r.duplicate_urls.len()) + "\n"@ + dm.flatten();
    let esec = "empty folders: "@ + count_word(r.empty_folders.len()) + "\n"@ + pm.flatten();
    if r.duplicate_urls.len() == 0 {
        assert(dm =~= Seq::<Seq<char>>::empty());
        assert(dm.flatten() =~= Seq::<char>::empty());
        reveal_strlit("duplicates:    none\n");
        reveal_strlit("duplicates:    ");
        reveal_strlit("none");
        reveal_strlit("\n");
        assert(dsec =~= "duplicates:    none\n"@);
    }
    if r.empty_folders.len() == 0 {
        assert(pm =~= Seq::<Seq<char>>::empty());
        assert(pm.flatten() =~= Seq::<char>::empty());
        reveal_strlit("empty folders: none\n");
        reveal_strlit("empty folders: ");
        reveal_strlit("none");
        reveal_strlit("\n");
        assert(esec =~= "empty folders: none\n"@);
    }
    let head = "folders:       "@ + decimal(r.folder_count) + "\n"@ + "bookmarks:     "@ + decimal(
        r.bookmark_count,
    ) + "\n"@ + "max depth:     "@ + decimal(r.max_depth) + "\n"@;
    let x = "duplicates:    "@ + count_word(r.duplicate_urls.len()) + "\n"@ + dm.flatten()
        + "empty folders: "@ + count_word(r.empty_folders.len()) + "\n"@ + pm.flatten();
    let t = human_text(r);
    assert(x =~= dsec + esec);
    assert(t =~= head + dsec + esec);
    assert(t.skip(t.len() - x.len()) =~= x);
}

fn push_labelled(out: &mut String, label: &str, n: usize)
    ensures
        final(out)@ == old(out)@ + label@ + decimal(n as nat) + "\n"@,
{
    out.append(label);
    push_decimal(out, n);
    out.append("\n");
}

fn render_human(report: &Report) -> (s: String)
    ensures
        s@ == human_text(report@),
{
    let ghost r = report@;
    let mut out = String::new();
    push_labelled(&mut out, "folders:       ", report.folder_count);
    push_labelled(&mut out, "bookmarks:     ", report.bookmark_count);
    push_labelled(&mut out, "max depth:     ", report.max_depth);
    let d = &report.duplicate_urls;
    if d.len() == 0 {
        out.append("duplicates:    none\n");
    } else {
        push_labelled(&mut out, "duplicates:    ", d.len());
        let ghost start = out@;
        let mut i: usize = 0;
        while i < d.len()
            invariant
                i <= d.len(),
                r == report@,
                d == report.duplicate_urls,
                out@ == start + duplicate_lines(r.duplicate_urls.take(i as int)),
            decreases d.len() - i,
        {
            out.append("  ");
            push_decimal(&mut out, d[i].1);
            out.append("x  ");
            out.append(d[i].0.as_str());
            out.append("\n");
            assert(r.duplicate_urls.take(i + 1).drop_last() =~= r.duplicate_urls.take(i as int));
            i = i + 1;
        }
        assert(r.duplicate_urls.take(i as int) =~= r.duplicate_urls);
    }
    let e = &report.empty_folders;
    if e.len() == 0 {
        out.append("empty folders: none\n");
    } else {
        push_labelled(&mut out, "empty folders: ", e.len());
        let ghost start = out@;
        let mut i: usize = 0;
        while i < e.len()
            invariant
                i <= e.len(),
                r == report@,
                e == report.empty_folders,
                out@ == start + path_lines(r.empty_folders.take(i as int)),
            decreases e.len() - i,
        {
            out.append("  ");
            out.append(e[i].as_str());
            out.append("\n");
            assert(r.empty_folders.take(i + 1).drop_last() =~= r.empty_folders.take(i as int));
            i = i + 1;
        }
        assert(r.empty_folders.take(i as int) =~= r.empty_folders);
    }
    assert(out@ =~= human_text(r));
    out
}


// ---------------------------------------------------------------------------
// For a program
// ---------------------------------------------------------------------------

/// A JSON value, as RFC 8259 describes them (the kinds a report uses:
/// unsigned integers, strings, arrays and objects, members in order).
pub enum JsonValue {
    Number(nat),
    Str(Seq<char>),
    Array(Seq<JsonValue>),
    Object(Seq<(Seq<char>, JsonValue)>),
}

/// The compact JSON text of a value: no white space between tokens.
pub open spec fn json_value_text(v: JsonValue) -> Seq<char>
    decreases v,
{
    match v {
        JsonValue::Number(n) => decimal(n),
        JsonValue::Str(s) => json_quoted(s),
        JsonValue::Array(items) => seq!['['] + json_items_text(items) + seq![']'],
        JsonValue::Object(members) => seq!['{'] + json_members_text(members) + seq!['}'],
    }
}

/// Array elements, separated by commas.
pub open spec fn json_items_text(items: Seq<JsonValue>) -> Seq<char>
    decreases items,
{
    if items.len() == 0 {
        Seq::empty()
    } else if items.len() == 1 {
        json_value_text(items[0])
    } else {
        json_items_text(items.drop_last()) + seq![','] + json_value_text(items.last())
    }
}

/// Object members `"name":value`, separated by commas.
pub open spec fn json_members_text(members: Seq<(Seq<char>, JsonValue)>) -> Seq<char>
    decreases members,
{
    if members.len() == 0 {
        Seq::empty()
    } else if members.len() == 1 {
        json_quoted(members[0].0) + seq![':'] + json_value_text(members[0].1)
    } else {
        json_members_text(members.drop_last()) + seq![','] + json_quoted(members.last().0) + seq![
            ':',
        ] + json_value_text(members.last().1)
    }
}

/// One repeated URL as a JSON object.
pub open spec fn duplicate_value(p: (Seq<char>, nat)) -> JsonValue {
    JsonValue::Object(seq![("url"@, JsonValue::Str(p.0)), ("count"@, JsonValue::Number(p.1))])
}

/// The report as a JSON value: an object whose members are the report's
/// fields, in order.
pub open spec fn report_value(r: ReportModel) -> JsonValue {
    JsonValue::Object(
        seq![
            ("folder_count"@, JsonValue::Number(r.folder_count)),
            ("bookmark_count"@, JsonValue::Number(r.bookmark_count)),
            ("max_depth"@, JsonValue::Number(r.max_depth)),
            ("duplicate_urls"@, JsonValue::Array(r.duplicate_urls.map_values(|p: (Seq<char>, nat)| duplicate_value(p)))),
            ("empty_folders"@, JsonValue::Array(r.empty_folders.map_values(|s: Seq<char>| JsonValue::Str(s)))),
        ],
    )
}

/// The report as one JSON object, in compact form.
pub open spec fn json_text(r: ReportModel) -> Seq<char> {
    json_value_text(report_value(r))
}

/// No character of `t` is a control character (below U+0020): `t` holds
/// no line break in particular.
pub open spec fn no_control(t: Seq<char>) -> bool {
    forall|k: int| 0 <= k < t.len() ==> (#[trigger] t[k] as u32) >= 0x20
}

proof fn lemma_no_control_concat(a: Seq<char>, b: Seq<char>)
    requires
        no_control(a),
        no_control(b),
    ensures
        no_control(a + b),
{
    assert forall|k: int| 0 <= k < (a + b).len() implies ((#[trigger] (a + b)[k]) as u32) >= 0x20 by {
        if k < a.len() {
            assert((a + b)[k] == a[k]);
        } else {
            assert((a + b)[k] == b[k - a.len()]);
        }
    }
}

proof fn lemma_decimal_no_control(n: nat)
    ensures
        no_control(decimal(n)),
    decreases n,
{
    if n >= 10 {
        lemma_decimal_no_control(n / 10);
        lemma_no_control_concat(decimal(n / 10), seq![digit_char(n % 10)]);
        assert(decimal(n) =~= decimal(n / 10) + seq![digit_char(n % 10)]);
    }
}

proof fn lemma_quoted_no_control(s: Seq<char>)
    ensures
        no_control(json_quoted(s)),
    decreases s.len(),
{
    lemma_escape_all_no_control(s);
    lemma_no_control_concat(seq!['"'], json_escape_all(s));
    lemma_no_control_concat(seq!['"'] + json_escape_all(s), seq!['"']);
}

proof fn lemma_escape_all_no_control(s: Seq<char>)
    ensures
        no_control(json_escape_all(s)),
    decreases s.len(),
{
    if s.len() > 0 {
        lemma_escape_all_no_control(s.drop_last());
        let c = s.last();
        let e = json_escape(c);
        assert(no_control(e)) by {
            if c != '"' && c != '\\' && c != '\n' && c != '\r' && c != '\t' && (c as u32) < 0x20 {
                let v = c as u32 as nat;
                assert(e[4] == hex_char(v / 16));
                assert(e[5] == hex_char(v % 16));
            }
        }
        lemma_no_control_concat(json_escape_all(s.drop_last()), e);
    }
}

/// The compact JSON text of any value is a single line: it holds no line
/// break nor any other control character, since strings escape theirs.
pub proof fn law_json_one_line(v: JsonValue)
    ensures
        no_control(json_value_text(v)),
    decreases v,
{
    match v {
        JsonValue::Number(n) => lemma_decimal_no_control(n),
        JsonValue::Str(t) => lemma_quoted_no_control(t),
        JsonValue::Array(items) => {
            lemma_items_one_line(items);
            lemma_no_control_concat(seq!['['], json_items_text(items));
            lemma_no_control_concat(seq!['['] + json_items_text(items), seq![']']);
        },
        JsonValue::Object(members) => {
            lemma_members_one_line(members);
            lemma_no_control_concat(seq!['{'], json_members_text(members));
            lemma_no_control_concat(seq!['{'] + json_members_text(members), seq!['}']);
        },
    }
}

proof fn lemma_items_one_line(items: Seq<JsonValue>)
    ensures
        no_control(json_items_text(items)),
    decreases items,
{
    if items.len() == 1 {
        law_json_one_line(items[0]);
    } else if items.len() > 1 {
        lemma_items_one_line(items.drop_last());
        law_json_one_line(items.last());
        lemma_no_control_concat(json_items_text(items.drop_last()), seq![',']);
        lemma_no_control_concat(json_items_text(items.drop_last()) + seq![','], json_value_text(items.last()));
    }
}

proof fn lemma_members_one_line(members: Seq<(Seq<char>, JsonValue)>)
    ensures
        no_control(json_members_text(members)),
    decreases members,
{
    if members.len() >= 1 {
        let m = members.last();
        law_json_one_line(m.1);
        lemma_quoted_no_control(m.0);
        lemma_no_control_concat(json_quoted(m.0), seq![':']);
        lemma_no_control_concat(json_quoted(m.0) + seq![':'], json_value_text(m.1));
        if members.len() > 1 {
            lemma_members_one_line(members.drop_last());
            lemma_no_control_concat(json_members_text(members.drop_last()), seq![',']);
            lemma_no_control_concat(json_members_text(members.drop_last()) + seq![','], json_quoted(m.0) + seq![':'] + json_value_text(m.1));
            assert(json_members_text(members) =~= json_members_text(members.drop_last()) + seq![','] + (json_quoted(m.0) + seq![':'] + json_value_text(m.1)));
        } else {
            assert(members[0] == m);
            assert(json_members_text(members) =~= json_quoted(m.0) + seq![':'] + json_value_text(m.1));
        }
    }
}

fn push_key(out: &mut String, key: &str)
    ensures
        final(out)@ == old(out)@ + json_quoted(key@) + seq![':'],
{
    let k = json_string(key);
    out.append(k.as_str());
    push_char(out, ':');
}

/// The JSON array of the repeated URLs.
pub open spec fn duplicates_value(d: Seq<(Seq<char>, nat)>) -> JsonValue {
    JsonValue::Array(d.map_values(|p: (Seq<char>, nat)| duplicate_value(p)))
}

/// The JSON array of the empty folder paths.
pub open spec fn paths_value(p: Seq<Seq<char>>) -> JsonValue {
    JsonValue::Array(p.map_values(|s: Seq<char>| JsonValue::Str(s)))
}

fn push_duplicates(out: &mut String, d: &Vec<(String, usize)>)
    ensures
        final(out)@ == old(out)@ + json_value_text(duplicates_value(pairs(d@))),
{
    let ghost r_d = pairs(d@);
    let ghost before_d = out@;
    push_char(out, '[');
    let ghost items = r_d.map_values(|p: (Seq<char>, nat)| duplicate_value(p));
    let ghost start = out@;
    let mut i: usize = 0;
    while i < d.len()
        invariant
            i <= d.len(),
            r_d == pairs(d@),
            items == r_d.map_values(|p: (Seq<char>, nat)| duplicate_value(p)),
            out@ == start + json_items_text(items.take(i as int)),
        decreases d.len() - i,
    {
        let ghost pre = out@;
        if i > 0 {
            push_char(out, ',');
        }
        let ghost mid = out@;
        push_char(out, '{');
        push_key(out, "url");
        let u = json_string(d[i].0.as_str());
        out.append(u.as_str());
        push_char(out, ',');
        push_key(out, "count");
        push_decimal(out, d[i].1);
        push_char(out, '}');
        proof {
            let pr = r_d[i as int];
            assert(pr == (d@[i as int].0@, d@[i as int].1 as nat));
            let m = seq![("url"@, JsonValue::Str(pr.0)), ("count"@, JsonValue::Number(pr.1))];
            assert(items[i as int] == duplicate_value(pr));
            assert(duplicate_value(pr) == JsonValue::Object(m));
            assert(m.drop_last() =~= seq![m[0]]);
            assert(json_value_text(JsonValue::Str(pr.0)) == json_quoted(pr.0));
            assert(json_value_text(JsonValue::Number(pr.1)) == decimal(pr.1));
            assert(seq![m[0]].len() == 1 && seq![m[0]][0] == m[0]);
            assert(json_members_text(seq![m[0]]) == json_quoted("url"@) + seq![':'] + json_quoted(pr.0));
            assert(json_members_text(m) == json_members_text(seq![m[0]]) + seq![','] + json_quoted("count"@) + seq![':'] + decimal(pr.1));
            assert(out@ =~= mid + (seq!['{'] + json_members_text(m) + seq!['}']));
            assert(out@ =~= mid + json_value_text(items[i as int]));
            assert(items.take(i + 1).drop_last() =~= items.take(i as int));
            assert(items.take(i + 1).last() == items[i as int]);
            if i == 0 {
                assert(items.take(1) =~= seq![items[0]]);
            }
        }
        i = i + 1;
    }
    assert(items.take(i as int) =~= items);
    push_char(out, ']');
    assert(out@ =~= before_d + json_value_text(duplicates_value(r_d)));
}

fn push_paths(out: &mut String, e: &Vec<String>)
    ensures
        final(out)@ == old(out)@ + json_value_text(paths_value(e.deep_view())),
{
    let ghost r_e = e.deep_view();
    let ghost before_e = out@;
    push_char(out, '[');
    let ghost strs = r_e.map_values(|s: Seq<char>| JsonValue::Str(s));
    let ghost start2 = out@;
    let mut j: usize = 0;
    while j < e.len()
        invariant
            j <= e.len(),
            r_e == e.deep_view(),
            strs == r_e.map_values(|s: Seq<char>| JsonValue::Str(s)),
            out@ == start2 + json_items_text(strs.take(j as int)),
        decreases e.len() - j,
    {
        let ghost pre = out@;
        if j > 0 {
            push_char(out, ',');
        }
        let ghost mid = out@;
        let q = json_string(e[j].as_str());
        out.append(q.as_str());
        proof {
            assert(r_e[j as int] == e@[j as int]@);
            assert(strs[j as int] == JsonValue::Str(r_e[j as int]));
            assert(out@ =~= mid + json_value_text(strs[j as int]));
            assert(strs.take(j + 1).drop_last() =~= strs.take(j as int));
            assert(strs.take(j + 1).last() == strs[j as int]);
            if j == 0 {
                assert(strs.take(1) =~= seq![strs[0]]);
            }
        }
        j = j + 1;
    }
    assert(strs.take(j as int) =~= strs);
    push_char(out, ']');
    assert(out@ =~= before_e + json_value_text(paths_value(r_e)));
}

#[verifier::rlimit(50)]
proof fn lemma_json_text(r: ReportModel, parts: Seq<char>)
    requires
        parts == seq!['{'] + json_quoted("folder_count"@) + seq![':'] + decimal(r.folder_count) + seq![',']
            + json_quoted("bookmark_count"@) + seq![':'] + decimal(r.bookmark_count) + seq![',']
            + json_quoted("max_depth"@) + seq![':'] + decimal(r.max_depth) + seq![',']
            + json_quoted("duplicate_urls"@) + seq![':'] + json_value_text(duplicates_value(r.duplicate_urls)) + seq![',']
            + json_quoted("empty_folders"@) + seq![':'] + json_value_text(paths_value(r.empty_folders)) + seq!['}'],
    ensures
        parts == json_text(r),
{
    let items = r.duplicate_urls.map_values(|p: (Seq<char>, nat)| duplicate_value(p));
    let strs = r.empty_folders.map_values(|s: Seq<char>| JsonValue::Str(s));
        let ms = seq![
            ("folder_count"@, JsonValue::Number(r.folder_count)),
            ("bookmark_count"@, JsonValue::Number(r.bookmark_count)),
            ("max_depth"@, JsonValue::Number(r.max_depth)),
            ("duplicate_urls"@, JsonValue::Array(items)),
            ("empty_folders"@, JsonValue::Array(strs)),
        ];
        assert(report_value(r) == JsonValue::Object(ms));
        assert(json_value_text(JsonValue::Number(r.folder_count)) == decimal(r.folder_count));
        assert(json_value_text(JsonValue::Number(r.bookmark_count)) == decimal(r.bookmark_count));
        assert(json_value_text(JsonValue::Number(r.max_depth)) == decimal(r.max_depth));
        let m1 = seq![ms[0]];
        let m2 = seq![ms[0], ms[1]];
        let m3 = seq![ms[0], ms[1], ms[2]];
        let m4 = seq![ms[0], ms[1], ms[2], ms[3]];
        assert(m2.drop_last() =~= m1);
        assert(m3.drop_last() =~= m2);
        assert(m4.drop_last() =~= m3);
        assert(ms.drop_last() =~= m4);
        assert(json_members_text(m1) == json_quoted("folder_count"@) + seq![':'] + decimal(r.folder_count));
        assert(json_members_text(m2) == json_members_text(m1) + seq![','] + json_quoted("bookmark_count"@) + seq![':'] + decimal(r.bookmark_count));
        assert(json_members_text(m3) == json_members_text(m2) + seq![','] + json_quoted("max_depth"@) + seq![':'] + decimal(r.max_depth));
        assert(json_members_text(m4) == json_members_text(m3) + seq![','] + json_quoted("duplicate_urls"@) + seq![':'] + json_value_text(JsonValue::Array(items)));
        assert(json_members_text(ms) == json_members_text(m4) + seq![','] + json_quoted("empty_folders"@) + seq![':'] + json_value_text(JsonValue::Array(strs)));
        assert(json_text(r) == seq!['{'] + json_members_text(ms) + seq!['}']);
        assert(parts =~= json_text(r));
}

fn render_json(report: &Report) -> (s: String)
    ensures
        s@ == json_text(report@),
{
    let ghost r = report@;
    let mut out = String::new();
    push_char(&mut out, '{');
    push_key(&mut out, "folder_count");
    push_decimal(&mut out, report.folder_count);
    push_char(&mut out, ',');
    push_key(&mut out, "bookmark_count");
    push_decimal(&mut out, report.bookmark_count);
    push_char(&mut out, ',');
    push_key(&mut out, "max_depth");
    push_decimal(&mut out, report.max_depth);
    push_char(&mut out, ',');
    push_key(&mut out, "duplicate_urls");
    push_duplicates(&mut out, &report.duplicate_urls);
    push_char(&mut out, ',');
    push_key(&mut out, "empty_folders");
    push_paths(&mut out, &report.empty_folders);
    push_char(&mut out, '}');
    proof {
        assert(out@ =~= seq!['{'] + json_quoted("folder_count"@) + seq![':'] + decimal(r.folder_count)
            + seq![','] + json_quoted("bookmark_count"@) + seq![':'] + decimal(r.bookmark_count)
            + seq![','] + json_quoted("max_depth"@) + seq![':'] + decimal(r.max_depth) + seq![',']
            + json_quoted("duplicate_urls"@) + seq![':'] + json_value_text(
            duplicates_value(r.duplicate_urls),
        ) + seq![','] + json_quoted("empty_folders"@) + seq![':'] + json_value_text(
            paths_value(r.empty_folders),
        ) + seq!['}']);
        lemma_json_text(r, out@);
    }
    out
}

/// The report in the chosen format.
pub fn render(report: &Report, format: OutputFormat) -> (s: String)
    ensures
        s@ == match format {
            OutputFormat::Human => human_text(report@),
            OutputFormat::Json => json_text(report@),
        },
{
    match format {
        OutputFormat::Human => render_human(report),
        OutputFormat::Json => render_json(report),
    }
}

} // verus!
