//! Parser for the Netscape bookmark file format: the HTML export produced by
//! "Export Bookmarks" in Chrome, Firefox, and Safari alike. The format
//! predates XHTML and is not well-formed markup (DT and P tags are never
//! closed), so this walks the tag stream by hand and only understands the
//! handful of tags the format actually uses: H1, H3, A, DL, DT.
use vstd::prelude::*;
use crate::model::{
    empty_folder, with_bookmark, with_folder, Bookmark, BookmarkModel, Folder, FolderModel,
};
use crate::report::{bookmark_count, bookmarks_count, folder_count, folders_count};
use crate::text::{
    chars_of, eq_ci, eq_ignore_ascii_case, find_char, find_char_from, find_from, find_whitespace,
    first_ws, is_ws, lemma_find_from, lemma_first_ws_from, lemma_trim_start_len, lower, push_char,
    string_of, trim, trim_end, trim_slice, trim_start, trim_start_slice,
};

verus! {

// ---------------------------------------------------------------------------
// Entities
// ---------------------------------------------------------------------------

/// Whether `c` may stand in the name of an entity: an ASCII letter or
/// digit, or `#` (as in `&#39;`).
pub open spec fn is_name_char(c: char) -> bool {
    ||| 'a' <= c <= 'z'
    ||| 'A' <= c <= 'Z'
    ||| '0' <= c <= '9'
    ||| c == '#'
}

fn name_char(c: char) -> (b: bool)
    ensures
        b == is_name_char(c),
{
    ('a' <= c && c <= 'z') || ('A' <= c && c <= 'Z') || ('0' <= c && c <= '9') || c == '#'
}

/// Scans the name of an entity whose characters start at `k`, `n` of them
/// already read. The scan ends, found, at a `;`; it gives up at the end of
/// the text, at a character that cannot be in a name (white space, another
/// `&`, ...), or once more than eight characters have been read. It yields
/// the index where it stopped and whether that index holds the `;`.
pub open spec fn scan_entity(s: Seq<char>, k: int, n: int) -> (int, bool)
    decreases s.len() - k,
{
    if k < 0 || k >= s.len() {
        (k, false)
    } else if s[k] == ';' {
        (k, true)
    } else if !is_name_char(s[k]) || n > 8 {
        (k, false)
    } else {
        scan_entity(s, k + 1, n + 1)
    }
}

pub proof fn lemma_scan_entity(s: Seq<char>, k: int, n: int)
    requires
        0 <= k <= s.len(),
    ensures
        k <= scan_entity(s, k, n).0 <= s.len(),
        scan_entity(s, k, n).1 ==> scan_entity(s, k, n).0 < s.len() && s[scan_entity(s, k, n).0]
            == ';',
        forall|j: int| k <= j < scan_entity(s, k, n).0 ==> is_name_char(#[trigger] s[j]),
    decreases s.len() - k,
{
    if k < s.len() && s[k] != ';' && is_name_char(s[k]) && n <= 8 {
        lemma_scan_entity(s, k + 1, n + 1);
    }
}

/// What the entity `&name;` stands for: the character, for the names of
/// the few that show up in bookmark titles, and otherwise the entity text
/// unchanged.
pub open spec fn entity_text(name: Seq<char>) -> Seq<char> {
    if name == seq!['a', 'm', 'p'] {
        seq!['&']
    } else if name == seq!['l', 't'] {
        seq!['<']
    } else if name == seq!['g', 't'] {
        seq!['>']
    } else if name == seq!['q', 'u', 'o', 't'] {
        seq!['"']
    } else if name == seq!['a', 'p', 'o', 's'] || name == seq!['#', '3', '9'] {
        seq!['\'']
    } else {
        seq!['&'] + name + seq![';']
    }
}

/// The decoding of `s` from index `i` on. A `&` opens an entity; when its
/// scan ends at a `;` the entity is replaced by `entity_text`, otherwise the
/// `&` and the scanned characters are kept and decoding goes on from where
/// the scan stopped.
pub open spec fn decode_from(s: Seq<char>, i: int) -> Seq<char>
    decreases s.len() - i,
{
    if i < 0 || i >= s.len() {
        Seq::empty()
    } else if s[i] != '&' {
        seq![s[i]] + decode_from(s, i + 1)
    } else {
        let (e, semi) = scan_entity(s, i + 1, 0);
        proof {
            lemma_scan_entity(s, i + 1, 0);
        }
        if semi {
            entity_text(s.subrange(i + 1, e)) + decode_from(s, e + 1)
        } else {
            seq!['&'] + s.subrange(i + 1, e) + decode_from(s, e)
        }
    }
}

/// Entity decoding of a whole text.
pub open spec fn decode(s: Seq<char>) -> Seq<char> {
    decode_from(s, 0)
}

fn scan_entity_at(s: &[char], start: usize) -> (r: (usize, bool))
    requires
        start <= s.len(),
    ensures
        (r.0 as int, r.1) == scan_entity(s@, start as int, 0),
{
    let mut k = start;
    let mut n: usize = 0;
    while k < s.len()
        invariant
            start <= k <= s.len(),
            n <= 9,
            scan_entity(s@, k as int, n as int) == scan_entity(s@, start as int, 0),
        decreases s.len() - k,
    {
        if s[k] == ';' {
            return (k, true);
        }
        if !name_char(s[k]) || n > 8 {
            return (k, false);
        }
        n = n + 1;
        k = k + 1;
    }
    (k, false)
}

fn push_chars(out: &mut String, s: &[char])
    ensures
        final(out)@ == old(out)@ + s@,
{
    let mut i: usize = 0;
    while i < s.len()
        invariant
            i <= s.len(),
            out@ == old(out)@ + s@.take(i as int),
        decreases s.len() - i,
    {
        push_char(out, s[i]);
        assert(s@.take(i + 1) == s@.take(i as int).push(s@[i as int]));
        i = i + 1;
    }
    assert(s@.take(s.len() as int) == s@);
}

fn push_entity(out: &mut String, name: &[char])
    ensures
        final(out)@ == old(out)@ + entity_text(name@),
{
    let n = name.len();
    if n == 3 && name[0] == 'a' && name[1] == 'm' && name[2] == 'p' {
        assert(name@ =~= seq!['a', 'm', 'p']);
        push_char(out, '&');
    } else if n == 2 && name[0] == 'l' && name[1] == 't' {
        assert(name@ =~= seq!['l', 't']);
        push_char(out, '<');
    } else if n == 2 && name[0] == 'g' && name[1] == 't' {
        assert(name@ =~= seq!['g', 't']);
        push_char(out, '>');
    } else if n == 4 && name[0] == 'q' && name[1] == 'u' && name[2] == 'o' && name[3] == 't' {
        assert(name@ =~= seq!['q', 'u', 'o', 't']);
        push_char(out, '"');
    } else if n == 4 && name[0] == 'a' && name[1] == 'p' && name[2] == 'o' && name[3] == 's' {
        assert(name@ =~= seq!['a', 'p', 'o', 's']);
        push_char(out, '\'');
    } else if n == 3 && name[0] == '#' && name[1] == '3' && name[2] == '9' {
        assert(name@ =~= seq!['#', '3', '9']);
        push_char(out, '\'');
    } else {
        push_char(out, '&');
        push_chars(out, name);
        push_char(out, ';');
        assert(old(out)@.push('&') + name@ + seq![';'] =~= old(out)@ + (seq!['&'] + name@
            + seq![';']));
    }
}

fn decode_chars(s: &[char]) -> (r: String)
    ensures
        r@ == decode(s@),
{
    let mut out = String::new();
    let mut i: usize = 0;
    while i < s.len()
        invariant
            i <= s.len(),
            out@ + decode_from(s@, i as int) == decode(s@),
        decreases s.len() - i,
    {
        let ghost before = out@;
        if s[i] != '&' {
            push_char(&mut out, s[i]);
            assert(before + decode_from(s@, i as int) == out@ + decode_from(s@, i + 1));
            i = i + 1;
        } else {
            let (e, semi) = scan_entity_at(s, i + 1);
            proof {
                lemma_scan_entity(s@, i + 1, 0);
            }
            if semi {
                push_entity(&mut out, &s[i + 1..e]);
                assert(before + decode_from(s@, i as int) == out@ + decode_from(s@, e + 1));
                i = e + 1;
            } else {
                push_char(&mut out, '&');
                push_chars(&mut out, &s[i + 1..e]);
                assert(before + decode_from(s@, i as int) =~= out@ + decode_from(s@, e as int));
                i = e;
            }
        }
    }
    out
}

/// The names of the entities decoding replaces.
pub open spec fn is_known_entity(name: Seq<char>) -> bool {
    ||| name == seq!['a', 'm', 'p']
    ||| name == seq!['l', 't']
    ||| name == seq!['g', 't']
    ||| name == seq!['q', 'u', 'o', 't']
    ||| name == seq!['a', 'p', 'o', 's']
    ||| name == seq!['#', '3', '9']
}

/// `s` holds a recognised entity (`&amp;`, `&lt;`, `&gt;`, `&quot;`,
/// `&apos;` or `&#39;`) starting at index `i`.
pub open spec fn known_entity_at(s: Seq<char>, i: int) -> bool {
    exists|e: int|
        i < e < s.len() && s[i] == '&' && s[e] == ';' && is_known_entity(
            #[trigger] s.subrange(i + 1, e),
        )
}

proof fn lemma_decode_from_unchanged(s: Seq<char>, i: int)
    requires
        0 <= i <= s.len(),
        forall|k: int| 0 <= k < s.len() ==> !known_entity_at(s, k),
    ensures
        decode_from(s, i) == s.subrange(i, s.len() as int),
    decreases s.len() - i,
{
    if i == s.len() {
        assert(s.subrange(i, s.len() as int) =~= Seq::<char>::empty());
    } else if s[i] != '&' {
        lemma_decode_from_unchanged(s, i + 1);
        assert(seq![s[i]] + s.subrange(i + 1, s.len() as int) =~= s.subrange(i, s.len() as int));
    } else {
        lemma_scan_entity(s, i + 1, 0);
        let (e, semi) = scan_entity(s, i + 1, 0);
        if semi {
            if is_known_entity(s.subrange(i + 1, e)) {
                assert(known_entity_at(s, i));
            }
            lemma_decode_from_unchanged(s, e + 1);
            assert(seq!['&'] + s.subrange(i + 1, e) + seq![';'] + s.subrange(e + 1, s.len() as int)
                =~= s.subrange(i, s.len() as int));
        } else {
            lemma_decode_from_unchanged(s, e);
            assert(seq!['&'] + s.subrange(i + 1, e) + s.subrange(e, s.len() as int) =~= s.subrange(
                i,
                s.len() as int,
            ));
        }
    }
}

/// Text that holds no recognised entity decodes to itself: a bare `&`, an
/// unterminated entity and an unknown one all pass through unchanged.
pub proof fn law_decode_without_entities(s: Seq<char>)
    requires
        forall|k: int| 0 <= k < s.len() ==> !known_entity_at(s, k),
    ensures
        decode(s) == s,
{
    lemma_decode_from_unchanged(s, 0);
    assert(s.subrange(0, s.len() as int) =~= s);
}

proof fn lemma_scan_shift(p: Seq<char>, t: Seq<char>, k: int, n: int)
    requires
        0 <= k <= t.len(),
    ensures
        scan_entity(p + t, p.len() + k, n) == (scan_entity(t, k, n).0 + p.len(), scan_entity(t, k, n).1),
    decreases t.len() - k,
{
    if k < t.len() {
        assert((p + t)[p.len() + k] == t[k]);
        lemma_scan_shift(p, t, k + 1, n + 1);
    }
}

/// Decoding looks only forward: what comes before the position does not
/// matter.
proof fn lemma_decode_shift(p: Seq<char>, t: Seq<char>, j: int)
    requires
        0 <= j <= t.len(),
    ensures
        decode_from(p + t, p.len() + j) == decode_from(t, j),
    decreases t.len() - j,
{
    let u = p + t;
    if j < t.len() {
        assert(u[p.len() + j] == t[j]);
        if t[j] != '&' {
            lemma_decode_shift(p, t, j + 1);
        } else {
            lemma_scan_shift(p, t, j + 1, 0);
            lemma_scan_entity(t, j + 1, 0);
            let (e, semi) = scan_entity(t, j + 1, 0);
            assert(u.subrange(p.len() + j + 1, p.len() + e) =~= t.subrange(j + 1, e));
            if semi {
                lemma_decode_shift(p, t, e + 1);
            } else {
                lemma_decode_shift(p, t, e);
            }
        }
    }
}

proof fn lemma_scan_name(u: Seq<char>, name: Seq<char>, j: int)
    requires
        u.len() >= name.len() + 2,
        u[name.len() as int + 1] == ';',
        0 <= j <= name.len() <= 9,
        forall|x: int| 0 <= x < name.len() ==> #[trigger] u[x + 1] == name[x] && is_name_char(name[x]),
    ensures
        scan_entity(u, 1 + j, j) == (name.len() as int + 1, true),
    decreases name.len() - j,
{
    if j < name.len() {
        assert(u[j + 1] == name[j]);
        lemma_scan_name(u, name, j + 1);
    }
}

/// `&name;` followed by more text decodes as the entity, then the rest.
proof fn lemma_decode_entity_first(name: Seq<char>, t: Seq<char>)
    requires
        name.len() <= 9,
        forall|x: int| 0 <= x < name.len() ==> is_name_char(#[trigger] name[x]),
    ensures
        decode_from(seq!['&'] + name + seq![';'] + t, 0) == entity_text(name) + decode_from(t, 0),
{
    let p = seq!['&'] + name + seq![';'];
    let u = p + t;
    let nl = name.len() as int;
    assert forall|x: int| 0 <= x < nl implies #[trigger] u[x + 1] == name[x] && is_name_char(name[x]) by {}
    assert(u[nl + 1] == ';');
    lemma_scan_name(u, name, 0);
    assert(u.subrange(1, nl + 1) =~= name);
    lemma_decode_shift(p, t, 0);
}

/// How bookmark exports escape a character of a title.
pub open spec fn escape_char(c: char) -> Seq<char> {
    if c == '&' {
        seq!['&', 'a', 'm', 'p', ';']
    } else if c == '<' {
        seq!['&', 'l', 't', ';']
    } else if c == '>' {
        seq!['&', 'g', 't', ';']
    } else if c == '"' {
        seq!['&', 'q', 'u', 'o', 't', ';']
    } else if c == '\'' {
        seq!['&', '#', '3', '9', ';']
    } else {
        seq![c]
    }
}

/// A title escaped character by character, as exports write it.
pub open spec fn escape_text(s: Seq<char>) -> Seq<char>
    decreases s.len(),
{
    if s.len() == 0 {
        Seq::empty()
    } else {
        escape_char(s[0]) + escape_text(s.drop_first())
    }
}

proof fn lemma_decode_escape_char(c: char, t: Seq<char>)
    ensures
        decode_from(escape_char(c) + t, 0) == seq![c] + decode_from(t, 0),
{
    let x = escape_char(c);
    if c == '&' || c == '<' || c == '>' || c == '"' || c == '\'' {
        let name = if c == '&' {
            seq!['a', 'm', 'p']
        } else if c == '<' {
            seq!['l', 't']
        } else if c == '>' {
            seq!['g', 't']
        } else if c == '"' {
            seq!['q', 'u', 'o', 't']
        } else {
            seq!['#', '3', '9']
        };
        assert(x =~= seq!['&'] + name + seq![';']);
        assert(entity_text(name) =~= seq![c]);
        lemma_decode_entity_first(name, t);
    } else {
        let u = x + t;
        assert(u[0] == c);
        lemma_decode_shift(x, t, 0);
    }
}

/// `&apos;`, the other name exports use for an apostrophe, decodes to one
/// too, whatever follows it.
pub proof fn law_decode_apos(t: Seq<char>)
    ensures
        decode(seq!['&', 'a', 'p', 'o', 's', ';'] + t) == seq!['\''] + decode(t),
{
    let name = seq!['a', 'p', 'o', 's'];
    assert(is_name_char(name[0]) && is_name_char(name[1]) && is_name_char(name[2]) && is_name_char(name[3]));
    lemma_decode_entity_first(name, t);
    assert(seq!['&'] + name + seq![';'] + t =~= seq!['&', 'a', 'p', 'o', 's', ';'] + t);
}

/// Decoding undoes the escaping exports apply to titles: `&`, `<`, `>`, `"`
/// and `'` written as entities come back as those characters, and every
/// other character as itself.
pub proof fn law_decode_undoes_escaping(s: Seq<char>)
    ensures
        decode(escape_text(s)) == s,
    decreases s.len(),
{
    if s.len() > 0 {
        law_decode_undoes_escaping(s.drop_first());
        lemma_decode_escape_char(s[0], escape_text(s.drop_first()));
        assert(seq![s[0]] + s.drop_first() =~= s);
    }
}

/// Decodes the handful of entities that actually show up in bookmark
/// titles. Unrecognized entities are passed through unchanged.
pub fn decode_entities(s: &str) -> (r: String)
    ensures
        r@ == decode(s@),
{
    let v = chars_of(s);
    decode_chars(v.as_slice())
}

// ---------------------------------------------------------------------------
// Tags and attributes
// ---------------------------------------------------------------------------

/// Splits the text between `<` and `>` into the tag name, the raw
/// attribute text, and whether it is a close tag.
pub open spec fn tag_parts(content: Seq<char>) -> (Seq<char>, Seq<char>, bool) {
    let t = trim(content);
    let closing = t.len() > 0 && t[0] == '/';
    let u = trim_start(if closing { t.drop_first() } else { t });
    match first_ws(u) {
        Some(i) => (u.take(i), trim(u.skip(i)), closing),
        None => (u, Seq::empty(), closing),
    }
}

/// Splits `<name attr="val" ...>` content (without the angle brackets) into
/// the tag name, the raw attribute string, and whether it's a close tag.
pub fn split_tag(content: &[char]) -> (r: (&[char], &[char], bool))
    ensures
        (r.0@, r.1@, r.2) == tag_parts(content@),
{
    let t = trim_slice(content);
    let closing = t.len() > 0 && t[0] == '/';
    let u0: &[char] = if closing {
        &t[1..t.len()]
    } else {
        t
    };
    assert(closing ==> u0@ == t@.drop_first());
    let u = trim_start_slice(u0);
    match find_whitespace(u) {
        Some(i) => {
            proof {
                lemma_first_ws_from(u@, 0);
            }
            (&u[0..i], trim_slice(&u[i..u.len()]), closing)
        },
        None => {
            let empty: &[char] = &u[u.len()..u.len()];
            assert(empty@ =~= Seq::<char>::empty());
            (u, empty, closing)
        },
    }
}

/// Scans forward from `i` for the next close tag `</tag>` (the name taken up
/// to ASCII case, white space around it ignored). It yields the index where
/// the text before that close tag ends and the index just past its `>`.
pub open spec fn close_tag_from(s: Seq<char>, i: int, tag: Seq<char>) -> Option<(int, int)>
    decreases s.len() - i,
{
    if i < 0 {
        None
    } else {
        match find_from(s, '<', i) {
            None => None,
            Some(pos) => {
                proof {
                    lemma_find_from(s, '<', i);
                }
                if pos + 1 < s.len() && s[pos + 1] == '/' {
                    match find_from(s, '>', pos + 2) {
                        None => None,
                        Some(gt) => {
                            proof {
                                lemma_find_from(s, '>', pos + 2);
                            }
                            if eq_ci(trim(s.subrange(pos + 2, gt)), tag) {
                                Some((pos, gt + 1))
                            } else {
                                close_tag_from(s, pos + 1, tag)
                            }
                        },
                    }
                } else {
                    close_tag_from(s, pos + 1, tag)
                }
            },
        }
    }
}

pub proof fn lemma_close_tag_from(s: Seq<char>, i: int, tag: Seq<char>)
    requires
        0 <= i,
    ensures
        close_tag_from(s, i, tag) matches Some((te, after)) ==> i <= te < after <= s.len(),
    decreases s.len() - i,
{
    lemma_find_from(s, '<', i);
    if let Some(pos) = find_from(s, '<', i) {
        lemma_find_from(s, '>', pos + 2);
        lemma_close_tag_from(s, pos + 1, tag);
    }
}

/// `s` has at `p` a close tag for `tag`: `</`, then a name equal to `tag`
/// up to ASCII case and white space around it, then the first `>` after
/// the `</`.
pub open spec fn close_tag_at(s: Seq<char>, p: int, tag: Seq<char>) -> bool {
    &&& 0 <= p
    &&& p + 1 < s.len()
    &&& s[p] == '<'
    &&& s[p + 1] == '/'
    &&& find_from(s, '>', p + 2) matches Some(gt) && eq_ci(trim(s.subrange(p + 2, gt)), tag)
}

/// The only index `find_from` can give.
pub proof fn lemma_find_from_first(s: Seq<char>, c: char, i: int, k: int)
    requires
        0 <= i <= k < s.len(),
        s[k] == c,
        forall|j: int| i <= j < k ==> s[j] != c,
    ensures
        find_from(s, c, i) == Some(k),
{
    lemma_find_from(s, c, i);
}

/// `close_tag_from` finds the first close tag for `tag` at or after `i`:
/// it yields where that tag starts and the index just past its `>`, and
/// nothing when there is none.
pub proof fn law_close_tag_is_first(s: Seq<char>, i: int, tag: Seq<char>)
    requires
        0 <= i,
    ensures
        close_tag_from(s, i, tag) matches Some((te, after)) ==> {
            &&& i <= te
            &&& close_tag_at(s, te, tag)
            &&& after == find_from(s, '>', te + 2)->0 + 1
            &&& forall|p: int| i <= p < te ==> !close_tag_at(s, p, tag)
        },
        close_tag_from(s, i, tag) is None ==> forall|p: int| i <= p ==> !close_tag_at(s, p, tag),
    decreases s.len() - i,
{
    lemma_find_from(s, '<', i);
    match find_from(s, '<', i) {
        None => {},
        Some(pos) => {
            lemma_find_from(s, '>', pos + 2);
            law_close_tag_is_first(s, pos + 1, tag);
            if pos + 1 < s.len() && s[pos + 1] == '/' && find_from(s, '>', pos + 2) is None {
                assert forall|p: int| i <= p implies !close_tag_at(s, p, tag) by {
                    if p > pos && 0 <= p && p + 1 < s.len() {
                        lemma_find_from(s, '>', p + 2);
                    }
                }
            }
        },
    }
}

/// Scans forward from `from` for the next `</tag>` and returns the index
/// where its text content ends, plus the cursor position just past the
/// close tag.
pub fn find_close(s: &[char], from: usize, tag: &[char]) -> (r: Option<(usize, usize)>)
    requires
        from <= s.len(),
    ensures
        r matches Some((te, after)) ==> close_tag_from(s@, from as int, tag@) == Some(
            (te as int, after as int),
        ),
        r is None ==> close_tag_from(s@, from as int, tag@) is None,
{
    let mut i = from;
    loop
        invariant
            from <= i <= s.len(),
            close_tag_from(s@, i as int, tag@) == close_tag_from(s@, from as int, tag@),
        decreases s.len() - i,
    {
        let pos = match find_char_from(s, '<', i) {
            Some(p) => p,
            None => {
                return None;
            },
        };
        proof {
            lemma_find_from(s@, '<', i as int);
        }
        if pos + 1 < s.len() && s[pos + 1] == '/' {
            let gt = match find_char_from(s, '>', pos + 2) {
                Some(g) => g,
                None => {
                    return None;
                },
            };
            proof {
                lemma_find_from(s@, '>', pos + 2);
            }
            if eq_ignore_ascii_case(trim_slice(&s[pos + 2..gt]), tag) {
                return Some((pos, gt + 1));
            }
        }
        i = pos + 1;
    }
}

/// The value of the attribute named `key` (up to ASCII case) in a raw
/// attribute text: `name="value"`, `name='value'` or `name=value`,
/// scanned left to right. A malformed rest (no `=`, nothing after it, or
/// an unterminated quote) ends the search with no value.
pub open spec fn attr_value(rest: Seq<char>, key: Seq<char>) -> Option<Seq<char>>
    decreases rest.len(),
{
    match find_char(rest, '=') {
        None => None,
        Some(eq) => {
            proof {
                lemma_find_from(rest, '=', 0);
                lemma_trim_start_len(rest.skip(eq + 1));
            }
            let name = trim(rest.take(eq));
            let after = trim_start(rest.skip(eq + 1));
            if after.len() == 0 {
                None
            } else if after[0] == '"' || after[0] == '\'' {
                let body = after.drop_first();
                match find_char(body, after[0]) {
                    None => None,
                    Some(end) => {
                        proof {
                            lemma_find_from(body, after[0], 0);
                        }
                        if eq_ci(name, key) {
                            Some(body.take(end))
                        } else {
                            attr_value(body.skip(end + 1), key)
                        }
                    },
                }
            } else {
                let end = match first_ws(after) {
                    Some(e) => e,
                    None => after.len() as int,
                };
                proof {
                    lemma_first_ws_from(after, 0);
                }
                if eq_ci(name, key) {
                    Some(after.take(end))
                } else {
                    attr_value(after.skip(end), key)
                }
            }
        },
    }
}

/// Looks up `key="value"` (or `key='value'`) in a raw attribute string.
/// Matching is case-insensitive on the key, as the format itself is
/// inconsistent about attribute casing across browsers.
pub fn get_attr<'a>(attrs: &'a [char], key: &[char]) -> (r: Option<&'a [char]>)
    ensures
        r matches Some(v) ==> attr_value(attrs@, key@) == Some(v@),
        r is None ==> attr_value(attrs@, key@) is None,
{
    let mut rest = attrs;
    loop
        invariant
            attr_value(rest@, key@) == attr_value(attrs@, key@),
        decreases rest@.len(),
    {
        let eq = match find_char_from(rest, '=', 0) {
            Some(e) => e,
            None => {
                return None;
            },
        };
        proof {
            lemma_find_from(rest@, '=', 0);
            lemma_trim_start_len(rest@.skip(eq + 1));
        }
        assert(find_from(rest@, '=', 0) == Some(eq as int));
        assert(eq < rest.len());
        let name = trim_slice(&rest[0..eq]);
        assert(rest@.subrange(0, eq as int) == rest@.take(eq as int));
        let after = trim_start_slice(&rest[eq + 1..rest.len()]);
        assert(rest@.subrange(eq + 1, rest@.len() as int) == rest@.skip(eq + 1));
        if after.len() == 0 {
            return None;
        }
        let quote = after[0];
        if quote == '"' || quote == '\'' {
            let body = &after[1..after.len()];
            assert(body@ == after@.drop_first());
            let end = match find_char_from(body, quote, 0) {
                Some(e) => e,
                None => {
                    return None;
                },
            };
            proof {
                lemma_find_from(body@, quote, 0);
            }
            if eq_ignore_ascii_case(name, key) {
                assert(body@.subrange(0, end as int) == body@.take(end as int));
                return Some(&body[0..end]);
            }
            assert(body@.subrange(end + 1, body@.len() as int) == body@.skip(end + 1));
            rest = &body[end + 1..body.len()];
        } else {
            let end = match find_whitespace(after) {
                Some(e) => e,
                None => after.len(),
            };
            proof {
                lemma_first_ws_from(after@, 0);
            }
            if eq_ignore_ascii_case(name, key) {
                assert(after@.subrange(0, end as int) == after@.take(end as int));
                return Some(&after[0..end]);
            }
            assert(after@.subrange(end as int, after@.len() as int) == after@.skip(end as int));
            rest = &after[end..after.len()];
        }
    }
}

/// `attr_value` reads the first `name=value` pair: when the text starts
/// with a name, `=`, and a quoted value, the value is the result if the name
/// is `key` up to ASCII case and white space around it; otherwise the
/// search goes on in the rest of the text.
pub proof fn law_attr_first_pair(name: Seq<char>, q: char, value: Seq<char>, rest: Seq<char>, key: Seq<char>)
    requires
        q == '"' || q == '\'',
        forall|k: int| 0 <= k < name.len() ==> #[trigger] name[k] != '=',
        forall|k: int| 0 <= k < value.len() ==> #[trigger] value[k] != q,
    ensures
        attr_value(name + seq!['=', q] + value + seq![q] + rest, key) == if eq_ci(trim(name), key) {
            Some(value)
        } else {
            attr_value(rest, key)
        },
{
    let u = name + seq!['=', q] + value + seq![q] + rest;
    let nl = name.len() as int;
    let vl = value.len() as int;
    assert forall|j: int| 0 <= j < nl implies u[j] != '=' by {
        assert(u[j] == name[j]);
    }
    lemma_find_from_first(u, '=', 0, nl);
    assert(u.take(nl) =~= name);
    let tail = u.skip(nl + 1);
    assert(tail =~= seq![q] + value + seq![q] + rest);
    assert(!is_ws(tail[0]));
    assert(trim_start(tail) == tail);
    let body = tail.drop_first();
    assert(body =~= value + seq![q] + rest);
    assert forall|j: int| 0 <= j < vl implies body[j] != q by {
        assert(body[j] == value[j]);
    }
    lemma_find_from_first(body, q, 0, vl);
    assert(body.take(vl) =~= value);
    assert(body.skip(vl + 1) =~= rest);
}

// ---------------------------------------------------------------------------
// Numbers
// ---------------------------------------------------------------------------

pub open spec fn is_digit(c: char) -> bool {
    '0' <= c <= '9'
}

pub open spec fn digit_value(c: char) -> int {
    (c as u32) - ('0' as u32)
}

/// The value of a sequence of decimal digits.
pub open spec fn digits_value(d: Seq<char>) -> int
    decreases d.len(),
{
    if d.len() == 0 {
        0
    } else {
        10 * digits_value(d.drop_last()) + digit_value(d.last())
    }
}

/// The digits after an optional leading `+` or `-`.
pub open spec fn unsigned_part(s: Seq<char>) -> Seq<char> {
    if s.len() > 0 && (s[0] == '+' || s[0] == '-') {
        s.drop_first()
    } else {
        s
    }
}

pub open spec fn all_digits(d: Seq<char>) -> bool {
    forall|i: int| 0 <= i < d.len() ==> is_digit(#[trigger] d[i])
}

/// A decimal `i64` as `str::parse::<i64>` reads it: an optional `+` or `-`,
/// then one or more ASCII digits, with a value in the range of `i64`.
pub open spec fn parse_i64(s: Seq<char>) -> Option<i64> {
    let d = unsigned_part(s);
    let v = if s.len() > 0 && s[0] == '-' { -digits_value(d) } else { digits_value(d) };
    if d.len() == 0 || !all_digits(d) {
        None
    } else if i64::MIN <= v <= i64::MAX {
        Some(v as i64)
    } else {
        None
    }
}

proof fn lemma_digits_value_nonneg(d: Seq<char>)
    requires
        forall|i: int| 0 <= i < d.len() ==> is_digit(#[trigger] d[i]),
    ensures
        digits_value(d) >= 0,
    decreases d.len(),
{
    if d.len() > 0 {
        lemma_digits_value_nonneg(d.drop_last());
    }
}

/// Reads a decimal `i64`, as `str::parse::<i64>().ok()` does.
pub fn parse_i64_chars(s: &[char]) -> (r: Option<i64>)
    ensures
        r == parse_i64(s@),
{
    if s.len() == 0 {
        return None;
    }
    let neg = s[0] == '-';
    let signed = s[0] == '+' || s[0] == '-';
    let start: usize = if signed { 1 } else { 0 };
    let ghost digits = unsigned_part(s@);
    assert(digits == s@.subrange(start as int, s@.len() as int));
    if start == s.len() {
        return None;
    }
    // the magnitude read so far, and whether it already left the range
    let mut mag: u64 = 0;
    let mut too_big = false;
    let mut i = start;
    while i < s.len()
        invariant
            start <= i <= s.len(),
            s@.len() > 0,
            neg == (s@[0] == '-'),
            start == (if s@[0] == '+' || s@[0] == '-' { 1int } else { 0int }),
            digits == unsigned_part(s@),
            digits == s@.subrange(start as int, s@.len() as int),
            forall|k: int| start <= k < i ==> is_digit(#[trigger] s@[k]),
            !too_big ==> mag == digits_value(s@.subrange(start as int, i as int)),
            !too_big ==> mag <= 0x8000_0000_0000_0000,
            too_big ==> digits_value(s@.subrange(start as int, i as int)) > 0x8000_0000_0000_0000,
        decreases s.len() - i,
    {
        let c = s[i];
        if !('0' <= c && c <= '9') {
            assert(!is_digit(digits[i - start]));
            return None;
        }
        let d = (c as u32 - '0' as u32) as u64;
        let ghost prefix = s@.subrange(start as int, i as int);
        assert(s@.subrange(start as int, i + 1).drop_last() == prefix);
        proof {
            assert forall|k: int| 0 <= k < prefix.len() implies is_digit(#[trigger] prefix[k]) by {
                assert(prefix[k] == s@[start + k]);
            }
            lemma_digits_value_nonneg(prefix);
        }
        if !too_big {
            if mag > 0x0CCC_CCCC_CCCC_CCCC || (mag == 0x0CCC_CCCC_CCCC_CCCC && d > 8) {
                too_big = true;
            } else {
                mag = mag * 10 + d;
            }
        }
        i = i + 1;
    }
    assert(s@.subrange(start as int, s@.len() as int) == digits);
    assert forall|k: int| 0 <= k < digits.len() implies is_digit(#[trigger] digits[k]) by {
        assert(digits[k] == s@[start + k]);
    }
    if too_big {
        return None;
    }
    if neg {
        if mag == 0x8000_0000_0000_0000 {
            Some(i64::MIN)
        } else {
            Some(-(mag as i64))
        }
    } else {
        if mag > 0x7FFF_FFFF_FFFF_FFFF {
            None
        } else {
            Some(mag as i64)
        }
    }
}

// ---------------------------------------------------------------------------
// The document
// ---------------------------------------------------------------------------

/// Why an export could not be read.
#[derive(Debug)]
pub enum ParseError {
    /// A DL close tag had no matching open, or the document ended with
    /// folders still open.
    UnbalancedTags,
    /// An H3 or A tag was never closed, so its title text is ambiguous.
    UnclosedTag(&'static str),
}

/// A `ParseError` with the tag name taken as a character sequence.
pub enum ParseFailure {
    UnbalancedTags,
    UnclosedTag(Seq<char>),
}

impl View for ParseError {
    type V = ParseFailure;

    open spec fn view(&self) -> ParseFailure {
        match self {
            ParseError::UnbalancedTags => ParseFailure::UnbalancedTags,
            ParseError::UnclosedTag(t) => ParseFailure::UnclosedTag(t@),
        }
    }
}

impl ParseError {
    /// The message of this error, for a person to read.
    pub fn to_string(&self) -> (m: String)
        ensures
            m@ == match self@ {
                ParseFailure::UnbalancedTags => "unbalanced <DL> tags in bookmark export"@,
                ParseFailure::UnclosedTag(t) => "unclosed <"@ + t + "> tag in bookmark export"@,
            },
    {
        match self {
            ParseError::UnbalancedTags => String::from_str("unbalanced <DL> tags in bookmark export"),
            ParseError::UnclosedTag(t) => {
                let mut m = String::from_str("unclosed <");
                m.append(t);
                m.append("> tag in bookmark export");
                m
            },
        }
    }
}

/// Where the parser stands: the root folder, the folders opened by a DL and
/// not yet closed (innermost last), the folder announced by an H3 whose DL
/// has not come yet, how many DL lists are open, and the position in the
/// text.
pub struct ParseState {
    pub root: FolderModel,
    pub open: Seq<FolderModel>,
    pub pending: Option<FolderModel>,
    pub depth: nat,
    pub cursor: nat,
}

/// What one tag does to the parser.
pub enum StepOutcome {
    Continue(ParseState),
    Done,
    Failed(ParseFailure),
}

/// The value of an attribute read as a number.
pub open spec fn attr_i64(attrs: Seq<char>, key: Seq<char>) -> Option<i64> {
    match attr_value(attrs, key) {
        Some(v) => parse_i64(v),
        None => None,
    }
}

/// The bookmark an A tag with these attributes and this title text makes.
pub open spec fn bookmark_of(title: Seq<char>, attrs: Seq<char>) -> BookmarkModel {
    BookmarkModel {
        title: decode(title),
        url: match attr_value(attrs, "href"@) {
            Some(v) => v,
            None => Seq::empty(),
        },
        add_date: attr_i64(attrs, "add_date"@),
        last_modified: attr_i64(attrs, "last_modified"@),
        icon: attr_value(attrs, "icon"@),
    }
}

/// Adds a bookmark to the innermost open folder, or to the root.
pub open spec fn add_bookmark(st: ParseState, b: BookmarkModel) -> ParseState {
    if st.open.len() == 0 {
        ParseState { root: with_bookmark(st.root, b), ..st }
    } else {
        ParseState { open: st.open.drop_last().push(with_bookmark(st.open.last(), b)), ..st }
    }
}

/// Closes the innermost open folder into its parent. With no folder open
/// this is the root's own list closing, and nothing changes.
pub open spec fn close_folder(st: ParseState) -> ParseState {
    if st.open.len() == 0 {
        st
    } else {
        let fin = st.open.last();
        let rest = st.open.drop_last();
        if rest.len() == 0 {
            ParseState { root: with_folder(st.root, fin), open: rest, ..st }
        } else {
            ParseState { open: rest.drop_last().push(with_folder(rest.last(), fin)), ..st }
        }
    }
}

/// The effect of the next tag at or after the cursor.
pub open spec fn parse_step(s: Seq<char>, st: ParseState) -> StepOutcome {
    match find_from(s, '<', st.cursor as int) {
        None => StepOutcome::Done,
        Some(lt) => match find_from(s, '>', lt + 1) {
            None => StepOutcome::Done,
            Some(gt) => {
                let (name, attrs, closing) = tag_parts(s.subrange(lt + 1, gt));
                let cur = (gt + 1) as nat;
                let moved = ParseState { cursor: cur, ..st };
                if !closing && eq_ci(name, "h1"@) {
                    match close_tag_from(s, cur as int, "h1"@) {
                        Some((te, after)) => StepOutcome::Continue(
                            ParseState {
                                root: FolderModel { title: decode(s.subrange(cur as int, te)), ..st.root },
                                cursor: after as nat,
                                ..st
                            },
                        ),
                        None => StepOutcome::Continue(moved),
                    }
                } else if !closing && eq_ci(name, "h3"@) {
                    match close_tag_from(s, cur as int, "h3"@) {
                        Some((te, after)) => StepOutcome::Continue(
                            ParseState {
                                pending: Some(
                                    empty_folder(
                                        decode(s.subrange(cur as int, te)),
                                        attr_i64(attrs, "last_modified"@),
                                    ),
                                ),
                                cursor: after as nat,
                                ..st
                            },
                        ),
                        None => StepOutcome::Failed(ParseFailure::UnclosedTag("h3"@)),
                    }
                } else if !closing && eq_ci(name, "a"@) {
                    match close_tag_from(s, cur as int, "a"@) {
                        Some((te, after)) => StepOutcome::Continue(
                            add_bookmark(
                                ParseState { cursor: after as nat, ..st },
                                bookmark_of(s.subrange(cur as int, te), attrs),
                            ),
                        ),
                        None => StepOutcome::Failed(ParseFailure::UnclosedTag("a"@)),
                    }
                } else if eq_ci(name, "dl"@) {
                    if closing {
                        if st.depth == 0 {
                            StepOutcome::Failed(ParseFailure::UnbalancedTags)
                        } else {
                            StepOutcome::Continue(
                                close_folder(ParseState { depth: (st.depth - 1) as nat, ..moved }),
                            )
                        }
                    } else {
                        let deeper = ParseState { depth: st.depth + 1, ..moved };
                        match st.pending {
                            Some(f) => StepOutcome::Continue(
                                ParseState { open: st.open.push(f), pending: None, ..deeper },
                            ),
                            None => StepOutcome::Continue(deeper),
                        }
                    }
                } else {
                    StepOutcome::Continue(moved)
                }
            },
        },
    }
}

pub proof fn lemma_step_advances(s: Seq<char>, st: ParseState)
    ensures
        parse_step(s, st) matches StepOutcome::Continue(n) ==> st.cursor < n.cursor <= s.len(),
{
    lemma_find_from(s, '<', st.cursor as int);
    if let Some(lt) = find_from(s, '<', st.cursor as int) {
        lemma_find_from(s, '>', lt + 1);
        if let Some(gt) = find_from(s, '>', lt + 1) {
            lemma_close_tag_from(s, gt + 1, "h1"@);
            lemma_close_tag_from(s, gt + 1, "h3"@);
            lemma_close_tag_from(s, gt + 1, "a"@);
        }
    }
}

/// The parser run from `st` to the end of the text: the root folder once no
/// tag is left and every opened folder was closed, and an error otherwise.
pub open spec fn parse_from(s: Seq<char>, st: ParseState) -> Result<FolderModel, ParseFailure>
    decreases s.len() - st.cursor,
{
    match parse_step(s, st) {
        StepOutcome::Done => if st.open.len() == 0 {
            Ok(st.root)
        } else {
            Err(ParseFailure::UnbalancedTags)
        },
        StepOutcome::Failed(e) => Err(e),
        StepOutcome::Continue(n) => {
            proof {
                lemma_step_advances(s, st);
            }
            parse_from(s, n)
        },
    }
}

/// The state the parser starts in: an empty root titled "Bookmarks".
pub open spec fn initial_state() -> ParseState {
    ParseState {
        root: empty_folder("Bookmarks"@, None),
        open: Seq::empty(),
        pending: None,
        depth: 0,
        cursor: 0,
    }
}

/// The tree a bookmark export describes, or why it cannot be read.
pub open spec fn parse_document(s: Seq<char>) -> Result<FolderModel, ParseFailure> {
    parse_from(s, initial_state())
}


/// The parser's state in executable form.
struct Parser {
    root: Folder,
    open: Vec<Folder>,
    pending: Option<Folder>,
    depth: usize,
    cursor: usize,
}

impl View for Parser {
    type V = ParseState;

    closed spec fn view(&self) -> ParseState {
        ParseState {
            root: self.root@,
            open: Folder::models(self.open@),
            pending: match self.pending {
                Some(f) => Some(f@),
                None => None,
            },
            depth: self.depth as nat,
            cursor: self.cursor as nat,
        }
    }
}

enum Stepped {
    Continue,
    Done,
    Failed(ParseError),
}

fn name_is(name: &[char], lit: &str) -> (b: bool)
    ensures
        b == eq_ci(name@, lit@),
{
    let l = chars_of(lit);
    eq_ignore_ascii_case(name, l.as_slice())
}

fn attr_named<'a>(attrs: &'a [char], key: &str) -> (r: Option<&'a [char]>)
    ensures
        r matches Some(v) ==> attr_value(attrs@, key@) == Some(v@),
        r is None ==> attr_value(attrs@, key@) is None,
{
    let k = chars_of(key);
    get_attr(attrs, k.as_slice())
}

fn attr_number(attrs: &[char], key: &str) -> (r: Option<i64>)
    ensures
        r == attr_i64(attrs@, key@),
{
    match attr_named(attrs, key) {
        Some(v) => parse_i64_chars(v),
        None => None,
    }
}

fn close_tag_named(s: &[char], from: usize, tag: &str) -> (r: Option<(usize, usize)>)
    requires
        from <= s.len(),
    ensures
        r matches Some((te, after)) ==> close_tag_from(s@, from as int, tag@) == Some(
            (te as int, after as int),
        ) && from <= te < after <= s.len(),
        r is None ==> close_tag_from(s@, from as int, tag@) is None,
{
    let t = chars_of(tag);
    proof {
        lemma_close_tag_from(s@, from as int, tag@);
    }
    find_close(s, from, t.as_slice())
}

fn make_bookmark(title: &[char], attrs: &[char]) -> (b: Bookmark)
    ensures
        b@ == bookmark_of(title@, attrs@),
{
    Bookmark {
        title: decode_chars(title),
        url: match attr_named(attrs, "href") {
            Some(v) => string_of(v),
            None => String::new(),
        },
        add_date: attr_number(attrs, "add_date"),
        last_modified: attr_number(attrs, "last_modified"),
        icon: match attr_named(attrs, "icon") {
            Some(v) => Some(string_of(v)),
            None => None,
        },
    }
}

impl Parser {
    fn add_bookmark(&mut self, b: Bookmark)
        ensures
            final(self)@ == add_bookmark(old(self)@, b@),
    {
        if self.open.len() == 0 {
            proof {
                Folder::lemma_models_index(self.open@);
            }
            self.root.push_bookmark(b);
        } else {
            let ghost old_open = self.open@;
            proof {
                Folder::lemma_models_drop_last(old_open);
            }
            let mut f = self.open.pop().unwrap();
            assert(self.open@ == old_open.drop_last());
            f.push_bookmark(b);
            proof {
                Folder::lemma_models_push(self.open@, f);
            }
            self.open.push(f);
        }
    }

    fn close_folder(&mut self)
        ensures
            final(self)@ == close_folder(old(self)@),
    {
        if self.open.len() > 0 {
            let ghost old_open = self.open@;
            proof {
                Folder::lemma_models_drop_last(old_open);
            }
            let fin = self.open.pop().unwrap();
            assert(self.open@ == old_open.drop_last());
            if self.open.len() > 0 {
                let ghost mid = self.open@;
                proof {
                    Folder::lemma_models_drop_last(mid);
                }
                let mut parent = self.open.pop().unwrap();
                assert(self.open@ == mid.drop_last());
                parent.push_folder(fin);
                proof {
                    Folder::lemma_models_push(self.open@, parent);
                }
                self.open.push(parent);
            } else {
                proof {
                    Folder::lemma_models_index(self.open@);
                }
                self.root.push_folder(fin);
            }
        } else {
            proof {
                Folder::lemma_models_index(self.open@);
            }
        }
    }

    /// Reads the next tag at or after the cursor and acts on it.
    fn step(&mut self, s: &[char]) -> (r: Stepped)
        requires
            old(self).depth <= old(self).cursor <= s.len(),
        ensures
            final(self).depth <= final(self).cursor,
            match parse_step(s@, old(self)@) {
                StepOutcome::Continue(n) => r is Continue && final(self)@ == n,
                StepOutcome::Done => r is Done && final(self)@ == old(self)@,
                StepOutcome::Failed(e) => r matches Stepped::Failed(x) && x@ == e,
            },
    {
        let lt = match find_char_from(s, '<', self.cursor) {
            Some(x) => x,
            None => {
                return Stepped::Done;
            },
        };
        proof {
            lemma_find_from(s@, '<', self.cursor as int);
        }
        let gt = match find_char_from(s, '>', lt + 1) {
            Some(x) => x,
            None => {
                return Stepped::Done;
            },
        };
        proof {
            lemma_find_from(s@, '>', lt + 1);
        }
        let (name, attrs, closing) = split_tag(&s[lt + 1..gt]);
        let cur = gt + 1;
        if !closing && name_is(name, "h1") {
            match close_tag_named(s, cur, "h1") {
                Some((te, after)) => {
                    self.root.title = decode_chars(&s[cur..te]);
                    self.cursor = after;
                },
                None => {
                    self.cursor = cur;
                },
            }
            Stepped::Continue
        } else if !closing && name_is(name, "h3") {
            match close_tag_named(s, cur, "h3") {
                Some((te, after)) => {
                    let title = decode_chars(&s[cur..te]);
                    let date = attr_number(attrs, "last_modified");
                    self.pending = Some(Folder::empty_with_date(title, date));
                    self.cursor = after;
                    Stepped::Continue
                },
                None => Stepped::Failed(ParseError::UnclosedTag("h3")),
            }
        } else if !closing && name_is(name, "a") {
            match close_tag_named(s, cur, "a") {
                Some((te, after)) => {
                    let b = make_bookmark(&s[cur..te], attrs);
                    self.cursor = after;
                    self.add_bookmark(b);
                    Stepped::Continue
                },
                None => Stepped::Failed(ParseError::UnclosedTag("a")),
            }
        } else if name_is(name, "dl") {
            if closing {
                if self.depth == 0 {
                    return Stepped::Failed(ParseError::UnbalancedTags);
                }
                self.cursor = cur;
                self.depth = self.depth - 1;
                self.close_folder();
            } else {
                self.cursor = cur;
                self.depth = self.depth + 1;
                match self.pending.take() {
                    Some(f) => {
                        proof {
                            Folder::lemma_models_push(self.open@, f);
                        }
                        self.open.push(f);
                    },
                    None => {},
                }
            }
            Stepped::Continue
        } else {
            self.cursor = cur;
            Stepped::Continue
        }
    }
}

/// Parse a Netscape bookmark export into a tree. The returned `Folder` is
/// the synthetic root; its title comes from the document's H1 if one is
/// present, otherwise it stays "Bookmarks".
pub fn parse(input: &str) -> (r: Result<Folder, ParseError>)
    ensures
        match r {
            Ok(f) => parse_document(input@) == Ok::<FolderModel, ParseFailure>(f@),
            Err(e) => parse_document(input@) == Err::<FolderModel, ParseFailure>(e@),
        },
        // what parse gives, analyze can take
        r matches Ok(f) ==> folder_count(f@) <= usize::MAX && bookmark_count(f@) <= usize::MAX,
{
    let chars = chars_of(input);
    let s = chars.as_slice();
    let mut p = Parser {
        root: Folder::new(String::from_str("Bookmarks")),
        open: Vec::new(),
        pending: None,
        depth: 0,
        cursor: 0,
    };
    assert(p@ == initial_state());
    loop
        invariant
            s@ == input@,
            p.depth <= p.cursor <= s.len(),
            parse_from(s@, p@) == parse_document(input@),
        decreases s.len() - p.cursor,
    {
        let ghost before = p@;
        proof {
            lemma_step_advances(s@, before);
        }
        match p.step(s) {
            Stepped::Continue => {},
            Stepped::Done => {
                proof {
                    Folder::lemma_models_index(p.open@);
                }
                if p.open.len() != 0 {
                    return Err(ParseError::UnbalancedTags);
                }
                proof {
                    law_parsed_tree_size(input@);
                }
                return Ok(p.root);
            },
            Stepped::Failed(e) => {
                return Err(e);
            },
        }
    }
}


/// A text with no tag at all is an export with no bookmarks: it reads as
/// the empty root folder titled "Bookmarks".
pub proof fn law_no_tags_empty_root(s: Seq<char>)
    requires
        forall|k: int| 0 <= k < s.len() ==> s[k] != '<',
    ensures
        parse_document(s) == Ok::<FolderModel, ParseFailure>(empty_folder("Bookmarks"@, None)),
{
    lemma_find_from(s, '<', 0);
    assert(parse_step(s, initial_state()) is Done);
}


/// Folders and bookmarks a parser state holds, the root itself not counted.
spec fn state_items(st: ParseState) -> int {
    folder_count(st.root) - 1 + bookmark_count(st.root) + folders_count(st.open) + bookmarks_count(
        st.open,
    ) + match st.pending {
        Some(p) => folder_count(p) + bookmark_count(p),
        None => 0,
    }
}

proof fn lemma_counts_push(fs: Seq<FolderModel>, f: FolderModel)
    ensures
        folders_count(fs.push(f)) == folders_count(fs) + folder_count(f),
        bookmarks_count(fs.push(f)) == bookmarks_count(fs) + bookmark_count(f),
{
    assert(fs.push(f).drop_last() =~= fs);
}

proof fn lemma_counts_with_folder(f: FolderModel, c: FolderModel)
    ensures
        folder_count(with_folder(f, c)) == folder_count(f) + folder_count(c),
        bookmark_count(with_folder(f, c)) == bookmark_count(f) + bookmark_count(c),
{
    lemma_counts_push(f.folders, c);
}

proof fn lemma_counts_last(fs: Seq<FolderModel>)
    requires
        fs.len() > 0,
    ensures
        folders_count(fs) == folders_count(fs.drop_last()) + folder_count(fs.last()),
        bookmarks_count(fs) == bookmarks_count(fs.drop_last()) + bookmark_count(fs.last()),
{
}

/// One tag adds at most one folder or bookmark, and an added one takes at
/// least three characters of text.
proof fn lemma_step_items(s: Seq<char>, st: ParseState)
    requires
        3 * state_items(st) <= st.cursor,
    ensures
        parse_step(s, st) matches StepOutcome::Continue(n) ==> 3 * state_items(n) <= n.cursor,
{
    lemma_find_from(s, '<', st.cursor as int);
    if let Some(lt) = find_from(s, '<', st.cursor as int) {
        lemma_find_from(s, '>', lt + 1);
        if let Some(gt) = find_from(s, '>', lt + 1) {
            let cur = gt + 1;
            lemma_close_tag_from(s, cur, "h3"@);
            lemma_close_tag_from(s, cur, "a"@);
            lemma_close_tag_from(s, cur, "h1"@);
            // an empty folder counts one
            assert(folders_count(Seq::<FolderModel>::empty()) == 0);
            if st.open.len() > 0 {
                lemma_counts_last(st.open);
            }
            match parse_step(s, st) {
                StepOutcome::Continue(n) => {
                    let (name, attrs, closing) = tag_parts(s.subrange(lt + 1, gt));
                    if !closing && eq_ci(name, "a"@) {
                        let (te, after) = close_tag_from(s, cur, "a"@).unwrap();
                        let b = bookmark_of(s.subrange(cur, te), attrs);
                        if st.open.len() > 0 {
                            lemma_counts_push(st.open.drop_last(), with_bookmark(st.open.last(), b));
                        }
                    } else if !closing && eq_ci(name, "h3"@) {
                    } else if !closing && eq_ci(name, "h1"@) {
                    } else if eq_ci(name, "dl"@) {
                        if closing {
                            if st.open.len() > 0 {
                                let fin = st.open.last();
                                let rest = st.open.drop_last();
                                if rest.len() > 0 {
                                    lemma_counts_last(rest);
                                    lemma_counts_with_folder(rest.last(), fin);
                                    lemma_counts_push(rest.drop_last(), with_folder(rest.last(), fin));
                                } else {
                                    lemma_counts_with_folder(st.root, fin);
                                }
                            }
                        } else if let Some(f) = st.pending {
                            lemma_counts_push(st.open, f);
                        }
                    }
                },
                _ => {},
            }
        }
    }
}

proof fn lemma_parse_from_items(s: Seq<char>, st: ParseState)
    requires
        3 * state_items(st) <= st.cursor,
        st.cursor <= s.len(),
    ensures
        parse_from(s, st) matches Ok(f) ==> 3 * (folder_count(f) - 1 + bookmark_count(f)) <= s.len(),
    decreases s.len() - st.cursor,
{
    lemma_step_advances(s, st);
    lemma_step_items(s, st);
    match parse_step(s, st) {
        StepOutcome::Continue(n) => {
            lemma_parse_from_items(s, n);
        },
        StepOutcome::Done => {
            if st.open.len() == 0 {
                assert(folders_count(st.open) == 0);
                assert(bookmarks_count(st.open) == 0);
            }
        },
        _ => {},
    }
}

/// Every folder and bookmark of a parsed tree stands for a tag of the text:
/// a tree read from `s` has at most `s.len() / 3` of them besides its root.
/// So `analyze` can always take what `parse` gives.
pub proof fn law_parsed_tree_size(s: Seq<char>)
    ensures
        parse_document(s) matches Ok(f) ==> 3 * (folder_count(f) - 1 + bookmark_count(f)) <= s.len(),
{
    let st = initial_state();
    assert(folders_count(Seq::<FolderModel>::empty()) == 0);
    assert(bookmarks_count(Seq::<FolderModel>::empty()) == 0);
    assert(folder_count(st.root) == 1);
    assert(bookmark_count(st.root) == 0);
    lemma_parse_from_items(s, st);
}


// ---------------------------------------------------------------------------
// Bookmark titles
// ---------------------------------------------------------------------------

/// An escaped title holds no `<`: the text of an A tag ends at its close tag.
proof fn lemma_escape_text_no_lt(t: Seq<char>)
    ensures
        forall|j: int| 0 <= j < escape_text(t).len() ==> #[trigger] escape_text(t)[j] != '<',
    decreases t.len(),
{
    if t.len() > 0 {
        lemma_escape_text_no_lt(t.drop_first());
        let x = escape_char(t[0]);
        let r = escape_text(t.drop_first());
        assert forall|j: int| 0 <= j < escape_text(t).len() implies #[trigger] escape_text(t)[j] != '<' by {
            if j < x.len() {
                assert(escape_text(t)[j] == x[j]);
            } else {
                assert(escape_text(t)[j] == r[j - x.len()]);
            }
        }
    }
}

/// A tag name with no white space, `/`, `<` or `>` in it reads as itself.
proof fn lemma_plain_name(name: Seq<char>)
    requires
        name.len() >= 1,
        name[0] != '/',
        forall|j: int| 0 <= j < name.len() ==> !is_ws(#[trigger] name[j]),
    ensures
        trim(name) == name,
        tag_parts(name) == (name, Seq::<char>::empty(), false),
{
    assert(trim_start(name) == name);
    assert(!is_ws(name.last()));
    assert(trim_end(name) == name);
    lemma_first_ws_from(name, 0);
    assert(first_ws(name) is None);
}

/// Where the parser stands before `<name>`, a text free of `<`, and
/// `</name>`: the tag is found where it starts, its name is read as `name`,
/// and its text runs up to the close tag, which ends just past its `>`.
proof fn lemma_titled_tag(pre: Seq<char>, name: Seq<char>, e: Seq<char>, post: Seq<char>, key: Seq<char>)
    requires
        name.len() >= 1,
        name[0] != '/',
        forall|j: int| 0 <= j < name.len() ==> !is_ws(#[trigger] name[j]) && name[j] != '>',
        forall|j: int| 0 <= j < e.len() ==> #[trigger] e[j] != '<',
        eq_ci(name, key),
    ensures
        ({
            let s = pre + seq!['<'] + name + seq!['>'] + e + seq!['<', '/'] + name + seq!['>'] + post;
            let n = pre.len() as int;
            let k = name.len() as int;
            let c0 = n + k + 2;
            let te = c0 + e.len();
            &&& find_from(s, '<', n) == Some(n)
            &&& find_from(s, '>', n + 1) == Some(n + 1 + k)
            &&& s.subrange(n + 1, n + 1 + k) == name
            &&& tag_parts(name) == (name, Seq::<char>::empty(), false)
            &&& close_tag_from(s, c0, key) == Some((te, te + k + 3))
            &&& s.subrange(c0, te) == e
        }),
{
    let s = pre + seq!['<'] + name + seq!['>'] + e + seq!['<', '/'] + name + seq!['>'] + post;
    let n = pre.len() as int;
    let k = name.len() as int;
    let l = e.len() as int;
    let c0 = n + k + 2;
    let te = c0 + l;
    lemma_plain_name(name);
    assert(s[n] == '<');
    assert forall|j: int| n + 1 <= j < n + 1 + k implies s[j] != '>' by {
        assert(s[j] == name[j - n - 1]);
    }
    assert(s[n + 1 + k] == '>');
    lemma_find_from_first(s, '>', n + 1, n + 1 + k);
    assert(s.subrange(n + 1, n + 1 + k) =~= name);
    assert forall|j: int| c0 <= j < te implies s[j] != '<' by {
        assert(s[j] == e[j - c0]);
    }
    assert(s[te] == '<' && s[te + 1] == '/');
    lemma_find_from_first(s, '<', c0, te);
    assert forall|j: int| te + 2 <= j < te + 2 + k implies s[j] != '>' by {
        assert(s[j] == name[j - te - 2]);
    }
    assert(s[te + 2 + k] == '>');
    lemma_find_from_first(s, '>', te + 2, te + 2 + k);
    assert(s.subrange(te + 2, te + 2 + k) =~= name);
    assert(close_tag_from(s, c0, key) == Some((te, te + k + 3)));
    assert(s.subrange(c0, te) =~= e);
}

/// A bookmark made from the escaped form of a title carries that title.
pub proof fn law_bookmark_title_decoded(t: Seq<char>, attrs: Seq<char>)
    ensures
        bookmark_of(escape_text(t), attrs).title == t,
{
    law_decode_undoes_escaping(t);
}

/// Wherever the parser stands before an `A` tag whose text is the escaped
/// form of `t`, the tag adds to the innermost open folder a bookmark titled
/// `t`, and the parser goes on after the close tag.
pub proof fn law_a_tag_adds_decoded_title(pre: Seq<char>, t: Seq<char>, post: Seq<char>, st: ParseState)
    requires
        st.cursor == pre.len(),
    ensures
        parse_step(pre + "<A>"@ + escape_text(t) + "</A>"@ + post, st) == StepOutcome::Continue(
            add_bookmark(
                ParseState { cursor: (pre.len() + 7 + escape_text(t).len()) as nat, ..st },
                bookmark_of(escape_text(t), Seq::empty()),
            ),
        ),
        bookmark_of(escape_text(t), Seq::empty()).title == t,
{
    reveal_strlit("<A>");
    reveal_strlit("</A>");
    reveal_strlit("h1");
    reveal_strlit("h3");
    reveal_strlit("a");
    let e = escape_text(t);
    let name = seq!['A'];
    lemma_escape_text_no_lt(t);
    assert(lower('A') == 'a');
    assert(eq_ci(name, "a"@));
    assert(!eq_ci(name, "h1"@));
    assert(!eq_ci(name, "h3"@));
    lemma_titled_tag(pre, name, e, post, "a"@);
    assert(pre + "<A>"@ + e + "</A>"@ + post =~= pre + seq!['<'] + name + seq!['>'] + e + seq!['<', '/']
        + name + seq!['>'] + post);
    law_bookmark_title_decoded(t, Seq::empty());
}

/// Wherever the parser stands before an `H3` tag whose text is the escaped
/// form of `t`, the tag announces a folder titled `t`, with nothing in it
/// yet, for the next list to open.
pub proof fn law_h3_tag_announces_decoded_folder(pre: Seq<char>, t: Seq<char>, post: Seq<char>, st: ParseState)
    requires
        st.cursor == pre.len(),
    ensures
        parse_step(pre + "<H3>"@ + escape_text(t) + "</H3>"@ + post, st) == StepOutcome::Continue(
            ParseState {
                pending: Some(empty_folder(t, None)),
                cursor: (pre.len() + 9 + escape_text(t).len()) as nat,
                ..st
            },
        ),
{
    reveal_strlit("<H3>");
    reveal_strlit("</H3>");
    reveal_strlit("h1");
    reveal_strlit("h3");
    reveal_strlit("last_modified");
    let e = escape_text(t);
    let name = seq!['H', '3'];
    lemma_escape_text_no_lt(t);
    assert(lower('H') == 'h' && lower('3') == '3');
    assert(eq_ci(name, "h3"@)) by {
        assert(lower(name[0]) == lower("h3"@[0]));
        assert(lower(name[1]) == lower("h3"@[1]));
    }
    assert(!eq_ci(name, "h1"@)) by {
        assert(lower(name[1]) != lower("h1"@[1]));
    }
    lemma_titled_tag(pre, name, e, post, "h3"@);
    assert(pre + "<H3>"@ + e + "</H3>"@ + post =~= pre + seq!['<'] + name + seq!['>'] + e + seq!['<', '/']
        + name + seq!['>'] + post);
    assert(find_char(Seq::<char>::empty(), '=') is None);
    assert(attr_value(Seq::<char>::empty(), "last_modified"@) is None);
    law_decode_undoes_escaping(t);
}

/// Wherever the parser stands before an `H1` tag whose text is the escaped
/// form of `t`, the tag names the root folder `t`.
pub proof fn law_h1_tag_titles_root(pre: Seq<char>, t: Seq<char>, post: Seq<char>, st: ParseState)
    requires
        st.cursor == pre.len(),
    ensures
        parse_step(pre + "<H1>"@ + escape_text(t) + "</H1>"@ + post, st) == StepOutcome::Continue(
            ParseState {
                root: FolderModel { title: t, ..st.root },
                cursor: (pre.len() + 9 + escape_text(t).len()) as nat,
                ..st
            },
        ),
{
    reveal_strlit("<H1>");
    reveal_strlit("</H1>");
    reveal_strlit("h1");
    let e = escape_text(t);
    let name = seq!['H', '1'];
    lemma_escape_text_no_lt(t);
    assert(lower('H') == 'h' && lower('1') == '1');
    assert(eq_ci(name, "h1"@)) by {
        assert(lower(name[0]) == lower("h1"@[0]));
        assert(lower(name[1]) == lower("h1"@[1]));
    }
    lemma_titled_tag(pre, name, e, post, "h1"@);
    assert(pre + "<H1>"@ + e + "</H1>"@ + post =~= pre + seq!['<'] + name + seq!['>'] + e + seq!['<', '/']
        + name + seq!['>'] + post);
    law_decode_undoes_escaping(t);
}

/// An export made of one `A` tag whose text is the escaped form of `t`
/// reads as the root folder holding one bookmark, titled `t`.
pub proof fn law_single_bookmark_document(t: Seq<char>)
    ensures
        parse_document("<A>"@ + escape_text(t) + "</A>"@) == Ok::<FolderModel, ParseFailure>(
            with_bookmark(empty_folder("Bookmarks"@, None), bookmark_of(escape_text(t), Seq::empty())),
        ),
        bookmark_of(escape_text(t), Seq::empty()).title == t,
{
    reveal_strlit("<A>");
    reveal_strlit("</A>");
    let e = escape_text(t);
    let s = "<A>"@ + e + "</A>"@;
    let pre = Seq::<char>::empty();
    let post = Seq::<char>::empty();
    assert(s =~= pre + "<A>"@ + e + "</A>"@ + post);
    let st = initial_state();
    law_a_tag_adds_decoded_title(pre, t, post, st);
    let next = add_bookmark(
        ParseState { cursor: (7 + e.len()) as nat, ..st },
        bookmark_of(e, Seq::empty()),
    );
    assert(next.cursor == s.len());
    assert(find_from(s, '<', s.len() as int) is None);
    assert(parse_step(s, next) is Done);
    assert(parse_from(s, next) == Ok::<FolderModel, ParseFailure>(next.root));
}

} // verus!
