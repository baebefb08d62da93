//! Reading compact JSON back: a reader for the JSON values the reports use,
//! and the law that it reads every rendered value back as that value.
use vstd::prelude::*;
use crate::format::{
    decimal, digit_char, hex_char, json_escape, json_escape_all, json_items_text, json_members_text,
    json_quoted, json_unescape, json_value_text, law_json_string_reads_back,
    lemma_json_escape_all_front, JsonValue,
};
use crate::format::{json_text, law_json_one_line, no_control, report_value};
use crate::parse::{digit_value, digits_value, is_digit};
use crate::report::ReportModel;

verus! {

// ---------------------------------------------------------------------------
// The reader
// ---------------------------------------------------------------------------

/// The end of the run of ASCII digits that starts at `k`.
pub open spec fn digit_run(t: Seq<char>, k: int) -> int
    decreases t.len() - k,
{
    if 0 <= k < t.len() && is_digit(t[k]) {
        digit_run(t, k + 1)
    } else {
        k
    }
}

/// A JSON number without sign, fraction or exponent: `0`, or digits not
/// starting with `0`. Yields its value and the text after it.
pub open spec fn read_number(t: Seq<char>) -> Option<(nat, Seq<char>)> {
    let e = digit_run(t, 0);
    if e <= 0 || (t[0] == '0' && e > 1) {
        None
    } else {
        Some((digits_value(t.take(e)) as nat, t.skip(e)))
    }
}

/// The index of the quote that closes a JSON string whose body starts at
/// `k`: a backslash escapes the character after it.
pub open spec fn string_end(t: Seq<char>, k: int) -> Option<int>
    decreases t.len() - k,
{
    if k < 0 || k >= t.len() {
        None
    } else if t[k] == '"' {
        Some(k)
    } else if t[k] == '\\' {
        if k + 1 < t.len() {
            string_end(t, k + 2)
        } else {
            None
        }
    } else {
        string_end(t, k + 1)
    }
}

/// A JSON string: its text, and the text after its closing quote.
pub open spec fn read_string(t: Seq<char>) -> Option<(Seq<char>, Seq<char>)> {
    if t.len() == 0 || t[0] != '"' {
        None
    } else {
        match string_end(t, 1) {
            None => None,
            Some(e) => match json_unescape(t.subrange(1, e)) {
                None => None,
                Some(s) => Some((s, t.skip(e + 1))),
            },
        }
    }
}

/// A compact JSON value at the start of `t`, and the text after it.
pub open spec fn read_value(t: Seq<char>) -> Option<(JsonValue, Seq<char>)>
    decreases t.len(), 0int,
{
    if t.len() == 0 {
        None
    } else if t[0] == '"' {
        match read_string(t) {
            Some((s, r)) => Some((JsonValue::Str(s), r)),
            None => None,
        }
    } else if t[0] == '[' {
        if t.len() > 1 && t[1] == ']' {
            Some((JsonValue::Array(Seq::empty()), t.skip(2)))
        } else {
            read_items(t.drop_first(), Seq::empty())
        }
    } else if t[0] == '{' {
        if t.len() > 1 && t[1] == '}' {
            Some((JsonValue::Object(Seq::empty()), t.skip(2)))
        } else {
            read_members(t.drop_first(), Seq::empty())
        }
    } else {
        match read_number(t) {
            Some((n, r)) => Some((JsonValue::Number(n), r)),
            None => None,
        }
    }
}

/// The elements of an array after its `[`, the ones read so far in `acc`;
/// a reading that does not advance is refused.
pub open spec fn read_items(t: Seq<char>, acc: Seq<JsonValue>) -> Option<(JsonValue, Seq<char>)>
    decreases t.len(), 1int,
{
    match read_value(t) {
        None => None,
        Some((v, r)) => if r.len() > 0 && r.len() < t.len() && r[0] == ',' {
            read_items(r.drop_first(), acc.push(v))
        } else if r.len() > 0 && r[0] == ']' {
            Some((JsonValue::Array(acc.push(v)), r.drop_first()))
        } else {
            None
        },
    }
}

/// The members of an object after its `{`, the ones read so far in `acc`.
pub open spec fn read_members(t: Seq<char>, acc: Seq<(Seq<char>, JsonValue)>) -> Option<(JsonValue, Seq<char>)>
    decreases t.len(), 1int,
{
    match read_string(t) {
        None => None,
        Some((k, r1)) => if r1.len() > 0 && r1.len() < t.len() && r1[0] == ':' {
            match read_value(r1.drop_first()) {
                None => None,
                Some((v, r)) => if r.len() > 0 && r.len() < t.len() && r[0] == ',' {
                    read_members(r.drop_first(), acc.push((k, v)))
                } else if r.len() > 0 && r[0] == '}' {
                    Some((JsonValue::Object(acc.push((k, v))), r.drop_first()))
                } else {
                    None
                },
            }
        } else {
            None
        },
    }
}


// ---------------------------------------------------------------------------
// Numbers
// ---------------------------------------------------------------------------

proof fn lemma_digit_char(d: nat)
    requires
        d < 10,
    ensures
        is_digit(digit_char(d)),
        digit_value(digit_char(d)) == d,
        d != 0 ==> digit_char(d) != '0',
        digit_char(d) != '"' && digit_char(d) != '\\',
{
}

proof fn lemma_decimal(n: nat)
    ensures
        decimal(n).len() >= 1,
        forall|k: int| 0 <= k < decimal(n).len() ==> is_digit(#[trigger] decimal(n)[k]),
        digits_value(decimal(n)) == n,
        n != 0 ==> decimal(n)[0] != '0',
        n == 0 ==> decimal(n).len() == 1,
    decreases n,
{
    lemma_digit_char(n % 10);
    if n >= 10 {
        lemma_decimal(n / 10);
        let d = decimal(n / 10);
        assert(decimal(n) == d.push(digit_char(n % 10)));
        assert(decimal(n).drop_last() =~= d);
        assert forall|k: int| 0 <= k < decimal(n).len() implies is_digit(#[trigger] decimal(n)[k]) by {
            if k < d.len() {
                assert(decimal(n)[k] == d[k]);
            }
        }
        assert(decimal(n)[0] == d[0]);
        assert(decimal(n).last() == digit_char(n % 10));
        assert(n == 10 * (n / 10) + n % 10) by (nonlinear_arith);
        assert(digits_value(decimal(n)) == 10 * digits_value(d) + digit_value(digit_char(n % 10)));
    } else {
        lemma_digit_char(n);
        assert(decimal(n).drop_last() =~= Seq::<char>::empty());
        assert(decimal(n).last() == digit_char(n));
        assert(digits_value(Seq::<char>::empty()) == 0);
    }
}

proof fn lemma_digit_run(d: Seq<char>, rest: Seq<char>, k: int)
    requires
        0 <= k <= d.len(),
        forall|j: int| 0 <= j < d.len() ==> is_digit(#[trigger] d[j]),
        rest.len() == 0 || !is_digit(rest[0]),
    ensures
        digit_run(d + rest, k) == d.len(),
    decreases d.len() - k,
{
    if k < d.len() {
        assert((d + rest)[k] == d[k]);
        lemma_digit_run(d, rest, k + 1);
    } else if rest.len() > 0 {
        assert((d + rest)[k] == rest[0]);
    }
}

/// A rendered number reads back as itself when no digit follows it.
proof fn lemma_read_number(n: nat, rest: Seq<char>)
    requires
        rest.len() == 0 || !is_digit(rest[0]),
    ensures
        read_number(decimal(n) + rest) == Some((n, rest)),
{
    lemma_decimal(n);
    let d = decimal(n);
    lemma_digit_run(d, rest, 0);
    assert((d + rest)[0] == d[0]);
    assert((d + rest).take(d.len() as int) =~= d);
    assert((d + rest).skip(d.len() as int) =~= rest);
}

// ---------------------------------------------------------------------------
// Strings
// ---------------------------------------------------------------------------

proof fn lemma_string_end_shift(p: Seq<char>, w: Seq<char>, j: int)
    requires
        0 <= j <= w.len(),
    ensures
        string_end(p + w, p.len() + j) == match string_end(w, j) {
            Some(e) => Some(e + p.len()),
            None => None::<int>,
        },
    decreases w.len() - j,
{
    if j < w.len() {
        assert((p + w)[p.len() + j] == w[j]);
        if w[j] != '"' {
            if w[j] == '\\' {
                if j + 1 < w.len() {
                    lemma_string_end_shift(p, w, j + 2);
                }
            } else {
                lemma_string_end_shift(p, w, j + 1);
            }
        }
    }
}

proof fn lemma_hex_char(d: nat)
    requires
        d < 16,
    ensures
        hex_char(d) != '"' && hex_char(d) != '\\',
{
    if d < 10 {
        lemma_digit_char(d);
    }
}

proof fn lemma_string_end_escape(c: char, w: Seq<char>)
    requires
        w.len() > 0,
    ensures
        string_end(json_escape(c) + w, 0) == match string_end(w, 0) {
            Some(e) => Some(e + json_escape(c).len()),
            None => None::<int>,
        },
{
    let x = json_escape(c);
    let u = x + w;
    if c == '"' || c == '\\' || c == '\n' || c == '\r' || c == '\t' {
        assert(u[0] == '\\' && u[1] == x[1]);
        lemma_string_end_shift(x, w, 0);
    } else if (c as u32) < 0x20 {
        let v = c as u32 as nat;
        lemma_hex_char(v / 16);
        lemma_hex_char(v % 16);
        assert(u[0] == '\\');
        assert(u[2] == '0' && u[3] == '0');
        assert(u[4] == hex_char(v / 16) && u[5] == hex_char(v % 16));
        assert(string_end(u, 2) == string_end(u, 3));
        assert(string_end(u, 3) == string_end(u, 4));
        assert(string_end(u, 4) == string_end(u, 5));
        assert(string_end(u, 5) == string_end(u, 6));
        lemma_string_end_shift(x, w, 0);
    } else {
        assert(u[0] == c);
        lemma_string_end_shift(x, w, 0);
    }
}

proof fn lemma_string_end_all(s: Seq<char>, w: Seq<char>)
    requires
        w.len() > 0,
        w[0] == '"',
    ensures
        string_end(json_escape_all(s) + w, 0) == Some(json_escape_all(s).len() as int),
    decreases s.len(),
{
    if s.len() == 0 {
        assert(json_escape_all(s) =~= Seq::<char>::empty());
        assert(json_escape_all(s) + w =~= w);
    } else {
        lemma_json_escape_all_front(s);
        let x = json_escape(s[0]);
        let tail = json_escape_all(s.drop_first()) + w;
        lemma_string_end_all(s.drop_first(), w);
        lemma_string_end_escape(s[0], tail);
        assert(json_escape_all(s) + w =~= x + tail);
    }
}

/// A rendered string reads back as its text, whatever follows it.
pub proof fn lemma_read_string(s: Seq<char>, rest: Seq<char>)
    ensures
        read_string(json_quoted(s) + rest) == Some((s, rest)),
{
    let esc = json_escape_all(s);
    let t = json_quoted(s) + rest;
    let w = seq!['"'] + rest;
    assert(t =~= seq!['"'] + (esc + w));
    lemma_string_end_all(s, w);
    lemma_string_end_shift(seq!['"'], esc + w, 0);
    let e = esc.len() as int + 1;
    assert(t.subrange(1, e) =~= esc);
    law_json_string_reads_back(s);
    assert(t.skip(e + 1) =~= rest);
}

// ---------------------------------------------------------------------------
// Arrays and objects
// ---------------------------------------------------------------------------

/// The text of a value is not empty, and starts as its kind says: a quote,
/// a bracket, a brace, or a digit.
proof fn lemma_value_first(v: JsonValue)
    ensures
        json_value_text(v).len() >= 1,
        match v {
            JsonValue::Number(_) => is_digit(json_value_text(v)[0]),
            JsonValue::Str(_) => json_value_text(v)[0] == '"',
            JsonValue::Array(_) => json_value_text(v)[0] == '[',
            JsonValue::Object(_) => json_value_text(v)[0] == '{',
        },
{
    match v {
        JsonValue::Number(n) => {
            lemma_decimal(n);
            assert(json_value_text(v)[0] == decimal(n)[0]);
        },
        _ => {},
    }
}

/// Array elements, read from the front: the first, a comma, the others.
proof fn lemma_items_front(items: Seq<JsonValue>)
    requires
        items.len() >= 2,
    ensures
        json_items_text(items) == json_value_text(items[0]) + seq![','] + json_items_text(
            items.drop_first(),
        ),
    decreases items.len(),
{
    let df = items.drop_first();
    let dl = items.drop_last();
    let last = json_value_text(items.last());
    assert(json_items_text(items) == json_items_text(dl) + seq![','] + last);
    if items.len() == 2 {
        assert(dl.len() == 1 && dl[0] == items[0]);
        assert(df.len() == 1 && df[0] == items.last());
        assert(json_items_text(dl) == json_value_text(items[0]));
        assert(json_items_text(df) == last);
    } else {
        lemma_items_front(dl);
        let mid = json_items_text(dl.drop_first());
        assert(dl[0] == items[0]);
        assert(dl.drop_first() =~= df.drop_last());
        assert(df.last() == items.last());
        assert(json_items_text(df) == mid + seq![','] + last);
        let first = json_value_text(items[0]);
        assert(json_items_text(dl) == first + seq![','] + mid);
        assert((first + seq![','] + mid) + seq![','] + last =~= first + seq![','] + (mid + seq![',']
            + last));
    }
}

/// One object member `"name":value`.
pub open spec fn json_member_text(m: (Seq<char>, JsonValue)) -> Seq<char> {
    json_quoted(m.0) + seq![':'] + json_value_text(m.1)
}

proof fn lemma_members_unfold(members: Seq<(Seq<char>, JsonValue)>)
    requires
        members.len() >= 1,
    ensures
        members.len() == 1 ==> json_members_text(members) == json_member_text(members[0]),
        members.len() >= 2 ==> json_members_text(members) == json_members_text(members.drop_last())
            + seq![','] + json_member_text(members.last()),
{
    let m = members.last();
    if members.len() >= 2 {
        assert(json_members_text(members) =~= json_members_text(members.drop_last()) + seq![',']
            + json_member_text(m));
    } else {
        assert(members[0] == m);
        assert(json_members_text(members) =~= json_member_text(m));
    }
}

/// Object members, read from the front: the first, a comma, the others.
proof fn lemma_members_front(members: Seq<(Seq<char>, JsonValue)>)
    requires
        members.len() >= 2,
    ensures
        json_members_text(members) == json_member_text(members[0]) + seq![','] + json_members_text(
            members.drop_first(),
        ),
    decreases members.len(),
{
    let df = members.drop_first();
    let dl = members.drop_last();
    let last = json_member_text(members.last());
    lemma_members_unfold(members);
    lemma_members_unfold(df);
    lemma_members_unfold(dl);
    assert(df.last() == members.last());
    if members.len() == 2 {
        assert(dl[0] == members[0]);
        assert(df[0] == members.last());
    } else {
        lemma_members_front(dl);
        let mid = json_members_text(dl.drop_first());
        assert(dl[0] == members[0]);
        assert(dl.drop_first() =~= df.drop_last());
        let first = json_member_text(members[0]);
        assert((first + seq![','] + mid) + seq![','] + last =~= first + seq![','] + (mid + seq![',']
            + last));
    }
}

/// What may follow a value inside a document: nothing, a comma, or the
/// bracket or brace that closes the value around it.
pub open spec fn value_follower(rest: Seq<char>) -> bool {
    rest.len() == 0 || rest[0] == ',' || rest[0] == ']' || rest[0] == '}'
}

/// Reading the compact text of any value gives back that value, and leaves
/// what followed it.
pub proof fn law_read_value(v: JsonValue, rest: Seq<char>)
    requires
        value_follower(rest),
    ensures
        read_value(json_value_text(v) + rest) == Some((v, rest)),
    decreases v,
{
    let t = json_value_text(v) + rest;
    lemma_value_first(v);
    assert(t[0] == json_value_text(v)[0]);
    match v {
        JsonValue::Number(n) => {
            lemma_read_number(n, rest);
        },
        JsonValue::Str(s) => {
            lemma_read_string(s, rest);
        },
        JsonValue::Array(items) => {
            if items.len() == 0 {
                assert(json_items_text(items) =~= Seq::<char>::empty());
                assert(t[1] == ']');
                assert(t.skip(2) =~= rest);
                assert(items =~= Seq::<JsonValue>::empty());
            } else {
                lemma_value_first(items[0]);
                if items.len() >= 2 {
                    lemma_items_front(items);
                }
                assert(json_items_text(items)[0] == json_value_text(items[0])[0]);
                assert(t[1] == json_items_text(items)[0]);
                assert(t.drop_first() =~= json_items_text(items) + seq![']'] + rest);
                lemma_read_items(items, Seq::empty(), rest);
                assert(Seq::<JsonValue>::empty() + items =~= items);
            }
        },
        JsonValue::Object(members) => {
            if members.len() == 0 {
                assert(json_members_text(members) =~= Seq::<char>::empty());
                assert(t[1] == '}');
                assert(t.skip(2) =~= rest);
                assert(members =~= Seq::<(Seq<char>, JsonValue)>::empty());
            } else {
                lemma_members_unfold(members);
                if members.len() >= 2 {
                    lemma_members_front(members);
                }
                let m0 = members[0];
                assert(json_member_text(m0)[0] == '"');
                if members.len() >= 2 {
                    assert(json_members_text(members)[0] == json_member_text(m0)[0]);
                }
                assert(t[1] == json_members_text(members)[0]);
                assert(t.drop_first() =~= json_members_text(members) + seq!['}'] + rest);
                lemma_read_members(members, Seq::empty(), rest);
                assert(Seq::<(Seq<char>, JsonValue)>::empty() + members =~= members);
            }
        },
    }
}

proof fn lemma_read_items(items: Seq<JsonValue>, acc: Seq<JsonValue>, rest: Seq<char>)
    requires
        items.len() >= 1,
        value_follower(rest),
    ensures
        read_items(json_items_text(items) + seq![']'] + rest, acc) == Some(
            (JsonValue::Array(acc + items), rest),
        ),
    decreases items,
{
    let x = items[0];
    let t = json_items_text(items) + seq![']'] + rest;
    lemma_value_first(x);
    if items.len() == 1 {
        let r = seq![']'] + rest;
        assert(t =~= json_value_text(x) + r);
        law_read_value(x, r);
        assert(r.drop_first() =~= rest);
        assert(acc.push(x) =~= acc + items);
    } else {
        let tail = items.drop_first();
        lemma_items_front(items);
        let r = seq![','] + (json_items_text(tail) + seq![']'] + rest);
        assert(t =~= json_value_text(x) + r);
        law_read_value(x, r);
        assert(r.drop_first() =~= json_items_text(tail) + seq![']'] + rest);
        lemma_read_items(tail, acc.push(x), rest);
        assert(acc.push(x) + tail =~= acc + items);
    }
}

proof fn lemma_read_members(
    members: Seq<(Seq<char>, JsonValue)>,
    acc: Seq<(Seq<char>, JsonValue)>,
    rest: Seq<char>,
)
    requires
        members.len() >= 1,
        value_follower(rest),
    ensures
        read_members(json_members_text(members) + seq!['}'] + rest, acc) == Some(
            (JsonValue::Object(acc + members), rest),
        ),
    decreases members,
{
    let m = members[0];
    let x = m.1;
    let t = json_members_text(members) + seq!['}'] + rest;
    lemma_members_unfold(members);
    if members.len() >= 2 {
        lemma_members_front(members);
    }
    lemma_value_first(x);
    let after = if members.len() == 1 {
        seq!['}'] + rest
    } else {
        seq![','] + (json_members_text(members.drop_first()) + seq!['}'] + rest)
    };
    assert(t =~= json_quoted(m.0) + (seq![':'] + (json_value_text(x) + after)));
    lemma_read_string(m.0, seq![':'] + (json_value_text(x) + after));
    let r1 = seq![':'] + (json_value_text(x) + after);
    assert(r1.drop_first() =~= json_value_text(x) + after);
    law_read_value(x, after);
    if members.len() == 1 {
        assert(after.drop_first() =~= rest);
        assert(acc.push(m) =~= acc + members);
    } else {
        let tail = members.drop_first();
        assert(after.drop_first() =~= json_members_text(tail) + seq!['}'] + rest);
        lemma_read_members(tail, acc.push(m), rest);
        assert(acc.push(m) + tail =~= acc + members);
    }
}

/// A compact JSON document made of one value reads back, whole, as that
/// value.
pub proof fn law_json_reads_back(v: JsonValue)
    ensures
        read_value(json_value_text(v)) == Some((v, Seq::<char>::empty())),
{
    law_read_value(v, Seq::empty());
    assert(json_value_text(v) + Seq::<char>::empty() =~= json_value_text(v));
}

// ---------------------------------------------------------------------------
// Reports
// ---------------------------------------------------------------------------

/// The number a value holds, 0 for any other kind.
pub open spec fn number_of(v: JsonValue) -> nat {
    match v {
        JsonValue::Number(n) => n,
        _ => 0,
    }
}

/// The text a value holds, empty for any other kind.
pub open spec fn string_of(v: JsonValue) -> Seq<char> {
    match v {
        JsonValue::Str(s) => s,
        _ => Seq::empty(),
    }
}

/// The elements of an array, none for any other kind.
pub open spec fn elements_of(v: JsonValue) -> Seq<JsonValue> {
    match v {
        JsonValue::Array(items) => items,
        _ => Seq::empty(),
    }
}

/// The value of the member at position `k` of an object.
pub open spec fn member_at(v: JsonValue, k: int) -> JsonValue {
    match v {
        JsonValue::Object(members) => members[k].1,
        _ => JsonValue::Number(0),
    }
}

/// The report that a JSON value written as `render` writes one stands for:
/// its counts, then its repeated URLs with their counts, then the paths of
/// its empty folders.
pub open spec fn report_of_value(v: JsonValue) -> ReportModel {
    ReportModel {
        folder_count: number_of(member_at(v, 0)),
        bookmark_count: number_of(member_at(v, 1)),
        max_depth: number_of(member_at(v, 2)),
        duplicate_urls: elements_of(member_at(v, 3)).map_values(
            |d: JsonValue| (string_of(member_at(d, 0)), number_of(member_at(d, 1))),
        ),
        empty_folders: elements_of(member_at(v, 4)).map_values(|s: JsonValue| string_of(s)),
    }
}

/// The JSON form of a report is a single line holding one JSON object, and
/// reading that object back gives every field of the report, in order.
pub proof fn law_json_report_reads_back(r: ReportModel)
    ensures
        no_control(json_text(r)),
        read_value(json_text(r)) == Some((report_value(r), Seq::<char>::empty())),
        report_value(r) is Object,
        report_of_value(report_value(r)) == r,
{
    law_json_one_line(report_value(r));
    law_json_reads_back(report_value(r));
    let v = report_value(r);
    let back = report_of_value(v);
    assert(back.duplicate_urls =~= r.duplicate_urls);
    assert(back.empty_folders =~= r.empty_folders);
}

} // verus!
