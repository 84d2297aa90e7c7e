//! Writing the settings document in the layout Sunrise itself writes: objects one member
//! per line, short arrays inline, some tables dense, key bindings and entitlements inline,
//! and old-schema profile items one field per line; lines end in CR LF.
use vstd::prelude::*;
use crate::inventory::document_version;
use crate::json::{elems_view, lemma_array_deep, lemma_object_deep, members_view, JsonNumber, JsonValue, JsonView, NumberView};
use crate::text::{chars_of, decimal, push_decimal, push_str, push_char, str_eq, utf8_len, utf8_len_fits};

verus! {

/// Widest inline array, in bytes counted from the start of its line.
pub const MAX_INLINE_WIDTH: usize = 80;

/// The lowercase hexadecimal digit of `v` (below 16).
pub open spec fn lower_hex_digit(v: int) -> char {
    if v < 10 {
        (v + 48) as char
    } else {
        (v + 87) as char
    }
}

/// How `serde_json` writes one character inside a string: `"` and `\` after a backslash;
/// backspace, tab, line feed, form feed and carriage return as `\b \t \n \f \r`; the other
/// characters below U+0020 as `\u00` and two lowercase hex digits; everything else as it is.
pub open spec fn json_escaped_char(c: char) -> Seq<char> {
    let v = c as u32;
    if c == '"' {
        seq!['\\', '"']
    } else if c == '\\' {
        seq!['\\', '\\']
    } else if v == 8 {
        seq!['\\', 'b']
    } else if c == '\t' {
        seq!['\\', 't']
    } else if c == '\n' {
        seq!['\\', 'n']
    } else if v == 12 {
        seq!['\\', 'f']
    } else if c == '\r' {
        seq!['\\', 'r']
    } else if v < 32 {
        seq!['\\', 'u', '0', '0', lower_hex_digit((v / 16) as int), lower_hex_digit((v % 16) as int)]
    } else {
        seq![c]
    }
}

/// The characters of a string, each written as `json_escaped_char` writes it.
pub open spec fn json_escaped(s: Seq<char>) -> Seq<char>
    decreases s.len(),
{
    if s.len() == 0 {
        Seq::empty()
    } else {
        json_escaped(s.drop_last()) + json_escaped_char(s.last())
    }
}

/// The JSON text of a string as `serde_json::to_string` writes it: the escaped characters
/// between double quotes.
#[verifier::opaque]
pub open spec fn json_quoted(s: Seq<char>) -> Seq<char> {
    seq!['"'] + json_escaped(s) + seq!['"']
}

/// `serde_json::to_string` on a string slice, which writes the text `json_quoted` describes
/// (`format_escaped_str` with its `ESCAPE` table). Serializing a `str` into a string cannot
/// fail: the serializer writes into a `Vec<u8>`.
#[verifier::external_body]
fn quote(s: &str) -> (t: String)
    ensures
        t@ == json_quoted(s@),
{
    match serde_json::to_string(s) {
        Ok(t) => t,
        Err(_) => String::new(),
    }
}

pub open spec fn spaces(n: nat) -> Seq<char> {
    Seq::new(n, |i: int| ' ')
}

/// The text of a value that is neither a non-empty array nor a non-empty object.
pub open spec fn scalar_text(v: JsonView) -> Seq<char> {
    match v {
        JsonView::Null => "null"@,
        JsonView::Bool(b) => if b {
            "true"@
        } else {
            "false"@
        },
        JsonView::Number(NumberView::PosInt(n)) => decimal(n as nat),
        JsonView::Number(NumberView::NegInt(n)) => if n < 0 {
            "-"@ + decimal((-n) as nat)
        } else {
            decimal(n as nat)
        },
        JsonView::Number(NumberView::Float(t, _)) => t,
        JsonView::Str(s) => json_quoted(s),
        JsonView::Array(_) => "[]"@,
        JsonView::Object(_) => "{}"@,
    }
}

/// A value on one line. With `sp`, separators and non-empty objects get spaces.
pub open spec fn inline_text(v: JsonView, sp: bool) -> Seq<char>
    decreases v, 0int,
{
    match v {
        JsonView::Object(o) => {
            let pad = if sp && o.len() > 0 {
                " "@
            } else {
                ""@
            };
            "{"@ + pad + inline_members(o, sp, o.len() as int) + pad + "}"@
        },
        JsonView::Array(a) => "["@ + inline_items(a, sp, a.len() as int) + "]"@,
        _ => scalar_text(v),
    }
}

pub open spec fn separator(sp: bool) -> Seq<char> {
    if sp {
        ", "@
    } else {
        ","@
    }
}

pub open spec fn inline_members(o: Seq<(Seq<char>, JsonView)>, sp: bool, n: int) -> Seq<char>
    decreases o, n,
{
    if n <= 0 || n > o.len() {
        ""@
    } else {
        inline_members(o, sp, n - 1) + (if n - 1 != 0 {
            separator(sp)
        } else {
            ""@
        }) + json_quoted(o[n - 1].0) + (if sp {
            ": "@
        } else {
            ":"@
        }) + inline_text(o[n - 1].1, sp)
    }
}

pub open spec fn inline_items(a: Seq<JsonView>, sp: bool, n: int) -> Seq<char>
    decreases a, n,
{
    if n <= 0 || n > a.len() {
        ""@
    } else {
        inline_items(a, sp, n - 1) + (if n - 1 != 0 {
            separator(sp)
        } else {
            ""@
        }) + inline_text(a[n - 1], sp)
    }
}

/// A dense table: rows without spaces, separated by ", " where the row is an array.
pub open spec fn dense_text(v: JsonView) -> Seq<char> {
    match v {
        JsonView::Array(a) => "["@ + dense_items(a, a.len() as int) + "]"@,
        _ => inline_text(v, false),
    }
}

pub open spec fn dense_items(a: Seq<JsonView>, n: int) -> Seq<char>
    decreases n,
{
    if n <= 0 || n > a.len() {
        ""@
    } else {
        dense_items(a, n - 1) + (if n - 1 != 0 {
            if a[n - 1] is Array {
                ", "@
            } else {
                ","@
            }
        } else {
            ""@
        }) + inline_text(a[n - 1], false)
    }
}

/// Old-schema profile items: each object's members one per line at the array's indent.
pub open spec fn profile_text(a: Seq<JsonView>, indent: nat) -> Seq<char> {
    "[\n"@ + profile_rows(a, a.len() as int, indent) + spaces(indent) + "]"@
}

pub open spec fn profile_rows(a: Seq<JsonView>, n: int, indent: nat) -> Seq<char>
    decreases n,
{
    if n <= 0 || n > a.len() {
        ""@
    } else {
        let o = match a[n - 1] {
            JsonView::Object(o) => o,
            _ => Seq::empty(),
        };
        profile_rows(a, n - 1, indent) + spaces(indent) + "{\n"@ + profile_fields(o, o.len() as int, indent)
            + spaces(indent) + "}"@ + (if n != a.len() {
            ","@
        } else {
            ""@
        }) + "\n"@
    }
}

pub open spec fn profile_fields(o: Seq<(Seq<char>, JsonView)>, n: int, indent: nat) -> Seq<char>
    decreases n,
{
    if n <= 0 || n > o.len() {
        ""@
    } else {
        profile_fields(o, n - 1, indent) + spaces(indent) + json_quoted(o[n - 1].0) + ": "@ + inline_text(
            o[n - 1].1,
            true,
        ) + (if n != o.len() {
            ","@
        } else {
            ""@
        }) + "\n"@
    }
}

/// The last line of `out`: what follows its last line feed.
pub open spec fn last_line(out: Seq<char>) -> Seq<char>
    decreases out.len(),
{
    if out.len() == 0 || out.last() == '\n' {
        Seq::empty()
    } else {
        last_line(out.drop_last()).push(out.last())
    }
}

/// `v` is an object or an array holding one at any depth.
pub open spec fn contains_object(v: JsonView) -> bool
    decreases v, 0int,
{
    match v {
        JsonView::Object(_) => true,
        JsonView::Array(a) => any_contains_object(a, a.len() as int),
        _ => false,
    }
}

pub open spec fn any_contains_object(a: Seq<JsonView>, n: int) -> bool
    decreases a, n,
{
    if n <= 0 || n > a.len() {
        false
    } else {
        any_contains_object(a, n - 1) || contains_object(a[n - 1])
    }
}

pub open spec fn all_objects(a: Seq<JsonView>) -> bool {
    forall|i: int| 0 <= i < a.len() ==> (#[trigger] a[i]) is Object
}

/// `state.investment.*` and `state.unlocks.*` tables.
pub open spec fn is_dense_table(path: Seq<Seq<char>>) -> bool {
    path.len() == 3 && path[0] == "state"@ && (path[1] == "investment"@ || path[1] == "unlocks"@)
}

pub open spec fn is_entitlements(path: Seq<Seq<char>>) -> bool {
    path.len() == 2 && path[0] == "server"@ && path[1] == "entitlements"@
}

pub open spec fn is_key_binding(path: Seq<Seq<char>>) -> bool {
    path.len() == 5 && path[0] == "state"@ && path[1] == "account"@ && path[2] == "settings"@ && path[3]
        == "key_bindings"@
}

pub open spec fn is_profile_items(path: Seq<Seq<char>>) -> bool {
    path.len() == 3 && path[0] == "state"@ && path[1] == "account"@ && path[2] == "profile_items"@
}

/// `out` followed by `v` written at `indent`, where `path` names the members leading to
/// `v` and `legacy` says whether profile items use the old one-field-per-line layout.
pub open spec fn write_spec(v: JsonView, indent: nat, path: Seq<Seq<char>>, legacy: bool, out: Seq<char>) -> Seq<
    char,
>
    decreases v, 0int,
{
    match v {
        JsonView::Object(o) => if is_key_binding(path) {
            out + inline_text(v, true)
        } else if o.len() > 0 {
            members_out(o, o.len() as int, indent, path, legacy, out + "{\n"@) + spaces(indent) + "}"@
        } else {
            out + "{}"@
        },
        JsonView::Array(a) => if is_dense_table(path) {
            out + dense_text(v)
        } else if legacy && is_profile_items(path) && a.len() > 0 && all_objects(a) {
            out + profile_text(a, indent)
        } else if any_contains_object(a, a.len() as int) {
            items_out(a, a.len() as int, indent, path, legacy, is_entitlements(path), out + "[\n"@) + spaces(indent)
                + "]"@
        } else {
            let inline = inline_text(v, true);
            if a.len() == 0 || utf8_len(last_line(out)) + utf8_len(inline) <= MAX_INLINE_WIDTH {
                out + inline
            } else {
                items_out(a, a.len() as int, indent, path, legacy, false, out + "[\n"@) + spaces(indent) + "]"@
            }
        },
        _ => out + scalar_text(v),
    }
}

pub open spec fn members_out(
    o: Seq<(Seq<char>, JsonView)>,
    n: int,
    indent: nat,
    path: Seq<Seq<char>>,
    legacy: bool,
    start: Seq<char>,
) -> Seq<char>
    decreases o, n,
{
    if n <= 0 || n > o.len() {
        start
    } else {
        let prev = members_out(o, n - 1, indent, path, legacy, start);
        let head = prev + spaces(indent + 2) + json_quoted(o[n - 1].0) + ": "@;
        write_spec(o[n - 1].1, indent + 2, path.push(o[n - 1].0), legacy, head) + (if n != o.len() {
            ","@
        } else {
            ""@
        }) + "\n"@
    }
}

pub open spec fn items_out(
    a: Seq<JsonView>,
    n: int,
    indent: nat,
    path: Seq<Seq<char>>,
    legacy: bool,
    entitlements: bool,
    start: Seq<char>,
) -> Seq<char>
    decreases a, n,
{
    if n <= 0 || n > a.len() {
        start
    } else {
        let prev = items_out(a, n - 1, indent, path, legacy, entitlements, start);
        let head = prev + spaces(indent + 2);
        let body = if entitlements {
            head + inline_text(a[n - 1], true)
        } else {
            write_spec(a[n - 1], indent + 2, path, legacy, head)
        };
        body + (if n != a.len() {
            ","@
        } else {
            ""@
        }) + "\n"@
    }
}

/// Every line feed written as CR LF.
pub open spec fn crlf(s: Seq<char>) -> Seq<char>
    decreases s.len(),
{
    if s.len() == 0 {
        s
    } else if s.last() == '\n' {
        crlf(s.drop_last()) + "\r\n"@
    } else {
        crlf(s.drop_last()).push(s.last())
    }
}

/// In text with line feeds written as CR LF, every line feed follows a carriage return.
proof fn lemma_crlf_pairs(s: Seq<char>)
    ensures
        forall|i: int| 0 <= i < crlf(s).len() && #[trigger] crlf(s)[i] == '\n' ==> i > 0 && crlf(s)[i - 1] == '\r',
    decreases s.len(),
{
    if s.len() > 0 {
        lemma_crlf_pairs(s.drop_last());
        let prev = crlf(s.drop_last());
        reveal_strlit("\r\n");
        assert forall|i: int| 0 <= i < crlf(s).len() && #[trigger] crlf(s)[i] == '\n' implies i > 0 && crlf(s)[i - 1]
            == '\r' by {
            if i < prev.len() {
                assert(crlf(s)[i] == prev[i]);
                assert(crlf(s)[i - 1] == prev[i - 1]);
            }
        }
    }
}

/// Profile items use the old layout in schemas up to 3 and in documents without a schema.
pub open spec fn legacy_profile_items(document: JsonView) -> bool {
    match document_version(document) {
        None => true,
        Some(v) => v <= 3,
    }
}

/// The document as Sunrise lays it out.
pub open spec fn spec_encode_settings(document: JsonView) -> Seq<char> {
    crlf(write_spec(document, 0, Seq::empty(), legacy_profile_items(document), Seq::empty()))
}

/// The settings text ends its lines in CR LF: every line feed in it directly follows a
/// carriage return.
pub proof fn law_encoded_line_feeds_follow_carriage_returns(document: JsonView)
    ensures
        forall|i: int|
            0 <= i < spec_encode_settings(document).len() && #[trigger] spec_encode_settings(document)[i] == '\n' ==> i > 0
                && spec_encode_settings(document)[i - 1] == '\r',
{
    lemma_crlf_pairs(write_spec(document, 0, Seq::empty(), legacy_profile_items(document), Seq::empty()));
}

/// How deeply arrays and objects nest in `v`.
pub open spec fn depth(v: JsonView) -> nat
    decreases v, 0int,
{
    match v {
        JsonView::Object(o) => 1 + members_depth(o, o.len() as int),
        JsonView::Array(a) => 1 + items_depth(a, a.len() as int),
        _ => 0,
    }
}

pub open spec fn members_depth(o: Seq<(Seq<char>, JsonView)>, n: int) -> nat
    decreases o, n,
{
    if n <= 0 || n > o.len() {
        0
    } else {
        let d = depth(o[n - 1].1);
        let rest = members_depth(o, n - 1);
        if d > rest {
            d
        } else {
            rest
        }
    }
}

pub open spec fn items_depth(a: Seq<JsonView>, n: int) -> nat
    decreases a, n,
{
    if n <= 0 || n > a.len() {
        0
    } else {
        let d = depth(a[n - 1]);
        let rest = items_depth(a, n - 1);
        if d > rest {
            d
        } else {
            rest
        }
    }
}

// ---------------------------------------------------------------------------------------
// Writing
// ---------------------------------------------------------------------------------------

pub open spec fn path_view(p: Seq<String>) -> Seq<Seq<char>> {
    p.map_values(|s: String| s@)
}

proof fn lemma_members_depth(o: Seq<(Seq<char>, JsonView)>, n: int, k: int)
    requires
        0 <= k < n <= o.len(),
    ensures
        depth(o[k].1) <= members_depth(o, n),
    decreases n,
{
    if k < n - 1 {
        lemma_members_depth(o, n - 1, k);
    }
}

proof fn lemma_items_depth(a: Seq<JsonView>, n: int, k: int)
    requires
        0 <= k < n <= a.len(),
    ensures
        depth(a[k]) <= items_depth(a, n),
    decreases n,
{
    if k < n - 1 {
        lemma_items_depth(a, n - 1, k);
    }
}

fn push_spaces(out: &mut String, n: usize)
    ensures
        final(out)@ == old(out)@ + spaces(n as nat),
{
    let mut i: usize = 0;
    while i < n
        invariant
            i <= n,
            out@ == old(out)@ + spaces(i as nat),
        decreases n - i,
    {
        push_str(out, " ");
        proof {
            reveal_strlit(" ");
        }
        i += 1;
        assert(out@ =~= old(out)@ + spaces(i as nat));
    }
}

fn write_scalar(v: &JsonValue, out: &mut String)
    ensures
        final(out)@ == old(out)@ + scalar_text(v.deep()),
{
    match v {
        JsonValue::Null => push_str(out, "null"),
        JsonValue::Bool(b) => if *b {
            push_str(out, "true")
        } else {
            push_str(out, "false")
        },
        JsonValue::Number(JsonNumber::PosInt(n)) => push_decimal(out, *n),
        JsonValue::Number(JsonNumber::NegInt(n)) => {
            if *n < 0 {
                push_str(out, "-");
                let magnitude: u64 = if *n == i64::MIN {
                    0x8000_0000_0000_0000u64
                } else {
                    (-*n) as u64
                };
                push_decimal(out, magnitude);
            } else {
                push_decimal(out, *n as u64);
            }
        },
        JsonValue::Number(JsonNumber::Float(f)) => push_str(out, f.text.as_str()),
        JsonValue::String(s) => {
            let q = quote(s.as_str());
            push_str(out, q.as_str());
        },
        JsonValue::Array(_) => push_str(out, "[]"),
        JsonValue::Object(_) => push_str(out, "{}"),
    }
}

/// Writes a value on one line.
fn write_inline(v: &JsonValue, sp: bool, out: &mut String)
    ensures
        final(out)@ == old(out)@ + inline_text(v.deep(), sp),
    decreases v, 1int,
{
    proof {
        reveal_strlit("");
    }
    match v {
        JsonValue::Object(o) => {
            proof {
                lemma_object_deep(*o);
            }
            push_str(out, "{");
            if sp && o.len() > 0 {
                push_str(out, " ");
            }
            write_inline_members(o, sp, out);
            if sp && o.len() > 0 {
                push_str(out, " ");
            }
            push_str(out, "}");
            assert(out@ =~= old(out)@ + inline_text(v.deep(), sp));
        },
        JsonValue::Array(a) => {
            proof {
                lemma_array_deep(*a);
            }
            push_str(out, "[");
            write_inline_items(a, sp, out);
            push_str(out, "]");
            assert(out@ =~= old(out)@ + inline_text(v.deep(), sp));
        },
        _ => write_scalar(v, out),
    }
}

fn write_inline_members(o: &Vec<(String, JsonValue)>, sp: bool, out: &mut String)
    ensures
        final(out)@ == old(out)@ + inline_members(members_view(o@), sp, o@.len() as int),
    decreases o, 0int,
{
    proof {
        reveal_strlit("");
    }
    let ghost mv = members_view(o@);
    let mut k: usize = 0;
    while k < o.len()
        invariant
            k <= o@.len(),
            mv == members_view(o@),
            out@ == old(out)@ + inline_members(mv, sp, k as int),
        decreases o.len() - k,
    {
        proof {
            reveal_strlit("");
        }
        if k != 0 {
            if sp {
                push_str(out, ", ");
            } else {
                push_str(out, ",");
            }
        }
        let q = quote(o[k].0.as_str());
        push_str(out, q.as_str());
        if sp {
            push_str(out, ": ");
        } else {
            push_str(out, ":");
        }
        proof {
            assert(decreases_to!(*o => o@[k as int]));
        }
        write_inline(&o[k].1, sp, out);
        k += 1;
        assert(out@ =~= old(out)@ + inline_members(mv, sp, k as int));
    }
}

fn write_inline_items(a: &Vec<JsonValue>, sp: bool, out: &mut String)
    ensures
        final(out)@ == old(out)@ + inline_items(elems_view(a@), sp, a@.len() as int),
    decreases a, 0int,
{
    proof {
        reveal_strlit("");
    }
    let ghost av = elems_view(a@);
    let mut k: usize = 0;
    while k < a.len()
        invariant
            k <= a@.len(),
            av == elems_view(a@),
            out@ == old(out)@ + inline_items(av, sp, k as int),
        decreases a.len() - k,
    {
        let ghost prev = out@;
        proof {
            reveal_strlit("");
        }
        if k != 0 {
            if sp {
                push_str(out, ", ");
            } else {
                push_str(out, ",");
            }
        }
        let ghost with_sep = out@;
        assert(with_sep == prev + (if k != 0 {
            separator(sp)
        } else {
            ""@
        }));
        write_inline(&a[k], sp, out);
        assert(av[k as int] == a@[k as int].deep());
        assert(out@ == with_sep + inline_text(av[k as int], sp));
        assert(inline_items(av, sp, k + 1) == inline_items(av, sp, k as int) + (if k != 0 {
            separator(sp)
        } else {
            ""@
        }) + inline_text(av[k as int], sp));
        k += 1;
        assert(out@ =~= old(out)@ + inline_items(av, sp, k as int));
    }
}

fn write_dense_table(v: &JsonValue, out: &mut String)
    ensures
        final(out)@ == old(out)@ + dense_text(v.deep()),
{
    let a = match v {
        JsonValue::Array(a) => a,
        _ => {
            write_inline(v, false, out);
            return;
        },
    };
    proof {
        lemma_array_deep(*a);
    }
    let ghost av = elems_view(a@);
    push_str(out, "[");
    let ghost opened = out@;
    let mut k: usize = 0;
    proof {
        reveal_strlit("");
    }
    while k < a.len()
        invariant
            k <= a@.len(),
            av == elems_view(a@),
            out@ == opened + dense_items(av, k as int),
        decreases a.len() - k,
    {
        proof {
            reveal_strlit("");
        }
        let ghost prev = out@;
        if k != 0 {
            match &a[k] {
                JsonValue::Array(_) => push_str(out, ", "),
                _ => push_str(out, ","),
            }
        }
        let ghost with_sep = out@;
        assert(with_sep == prev + (if k != 0 {
            if av[k as int] is Array {
                ", "@
            } else {
                ","@
            }
        } else {
            ""@
        }));
        write_inline(&a[k], false, out);
        k += 1;
        assert(out@ =~= opened + dense_items(av, k as int));
    }
    push_str(out, "]");
    assert(out@ =~= old(out)@ + dense_text(v.deep()));
}

fn write_profile_fields(o: &Vec<(String, JsonValue)>, indent: usize, out: &mut String)
    ensures
        final(out)@ == old(out)@ + profile_fields(members_view(o@), o@.len() as int, indent as nat),
{
    let ghost mv = members_view(o@);
    let mut k: usize = 0;
    proof {
        reveal_strlit("");
    }
    while k < o.len()
        invariant
            k <= o@.len(),
            mv == members_view(o@),
            out@ == old(out)@ + profile_fields(mv, k as int, indent as nat),
        decreases o.len() - k,
    {
        proof {
            reveal_strlit("");
        }
        push_spaces(out, indent);
        let q = quote(o[k].0.as_str());
        push_str(out, q.as_str());
        push_str(out, ": ");
        write_inline(&o[k].1, true, out);
        if k + 1 != o.len() {
            push_str(out, ",");
        }
        push_str(out, "\n");
        k += 1;
        assert(out@ =~= old(out)@ + profile_fields(mv, k as int, indent as nat));
    }
}

fn write_profile_items(a: &Vec<JsonValue>, indent: usize, out: &mut String)
    requires
        all_objects(elems_view(a@)),
    ensures
        final(out)@ == old(out)@ + profile_text(elems_view(a@), indent as nat),
{
    let ghost av = elems_view(a@);
    push_str(out, "[\n");
    let ghost opened = out@;
    let mut k: usize = 0;
    proof {
        reveal_strlit("");
    }
    while k < a.len()
        invariant
            k <= a@.len(),
            av == elems_view(a@),
            all_objects(av),
            out@ == opened + profile_rows(av, k as int, indent as nat),
        decreases a.len() - k,
    {
        proof {
            reveal_strlit("");
        }
        assert(av[k as int] is Object);
        let o = match &a[k] {
            JsonValue::Object(o) => o,
            _ => {
                return;
            },
        };
        proof {
            lemma_object_deep(*o);
        }
        push_spaces(out, indent);
        push_str(out, "{\n");
        write_profile_fields(o, indent, out);
        push_spaces(out, indent);
        push_str(out, "}");
        if k + 1 != a.len() {
            push_str(out, ",");
        }
        push_str(out, "\n");
        k += 1;
        assert(out@ =~= opened + profile_rows(av, k as int, indent as nat));
    }
    push_spaces(out, indent);
    push_str(out, "]");
    assert(out@ =~= old(out)@ + profile_text(av, indent as nat));
}

/// The byte width of the last line written so far.
fn current_column(out: &String) -> (column: usize)
    ensures
        column == utf8_len(last_line(out@)),
{
    utf8_len_fits(out.as_str());
    let chars = chars_of(out.as_str());
    let ghost cv = chars@;
    let mut i: usize = chars.len();
    let mut width: usize = 0;
    assert(cv.skip(cv.len() as int) =~= Seq::<char>::empty());
    assert(cv.take(cv.len() as int) =~= cv);
    assert(vstd::utf8::encode_utf8(Seq::<char>::empty()) =~= Seq::<u8>::empty());
    while i > 0 && chars[i - 1] != '\n'
        invariant
            i <= cv.len(),
            cv == chars@,
            last_line(cv) == last_line(cv.take(i as int)) + cv.skip(i as int),
            width == utf8_len(cv.skip(i as int)),
            utf8_len(cv) <= usize::MAX,
            forall|j: int| i <= j < cv.len() ==> cv[j] != '\n',
        decreases i,
    {
        proof {
            assert(cv.take(i as int).drop_last() =~= cv.take(i - 1));
            assert(cv.take(i as int).last() == cv[i - 1]);
            assert(last_line(cv.take(i as int)) == last_line(cv.take(i - 1)).push(cv[i - 1]));
            assert(cv.skip(i - 1) =~= seq![cv[i - 1]] + cv.skip(i as int));
            crate::text::lemma_encode_concat(seq![cv[i - 1]], cv.skip(i as int));
            crate::text::lemma_single_width(cv[i - 1]);
            assert(cv =~= cv.take(i - 1) + cv.skip(i - 1));
            crate::text::lemma_encode_concat(cv.take(i - 1), cv.skip(i - 1));
        }
        width = width + crate::text::utf8_width(chars[i - 1]);
        i -= 1;
    }
    proof {
        assert(last_line(cv.take(i as int)) =~= Seq::<char>::empty()) by {
            if i > 0 {
                assert(cv.take(i as int).last() == cv[i - 1]);
            }
        }
        assert(last_line(cv) =~= cv.skip(i as int));
    }
    width
}

fn contains_object_exec(v: &JsonValue) -> (r: bool)
    ensures
        r == contains_object(v.deep()),
    decreases v, 1int,
{
    match v {
        JsonValue::Object(_) => true,
        JsonValue::Array(a) => {
            proof {
                lemma_array_deep(*a);
            }
            any_contains_object_exec(a)
        },
        _ => false,
    }
}

fn any_contains_object_exec(a: &Vec<JsonValue>) -> (r: bool)
    ensures
        r == any_contains_object(elems_view(a@), a@.len() as int),
    decreases a, 0int,
{
    let ghost av = elems_view(a@);
    let mut k: usize = 0;
    let mut found = false;
    while k < a.len()
        invariant
            k <= a@.len(),
            av == elems_view(a@),
            found == any_contains_object(av, k as int),
        decreases a.len() - k,
    {
        proof {
            assert(decreases_to!(*a => a@[k as int]));
        }
        let here = contains_object_exec(&a[k]);
        found = found || here;
        k += 1;
    }
    found
}

fn all_objects_exec(a: &Vec<JsonValue>) -> (r: bool)
    ensures
        r == all_objects(elems_view(a@)),
{
    let mut k: usize = 0;
    while k < a.len()
        invariant
            k <= a@.len(),
            forall|j: int| 0 <= j < k ==> (#[trigger] elems_view(a@)[j]) is Object,
        decreases a.len() - k,
    {
        match &a[k] {
            JsonValue::Object(_) => {},
            _ => {
                assert(!(elems_view(a@)[k as int] is Object));
                return false;
            },
        }
        k += 1;
    }
    true
}

fn path_is(path: &Vec<String>, k: usize, name: &str) -> (r: bool)
    requires
        k < path@.len(),
    ensures
        r == (path_view(path@)[k as int] == name@),
{
    str_eq(path[k].as_str(), name)
}

fn is_dense_table_exec(path: &Vec<String>) -> (r: bool)
    ensures
        r == is_dense_table(path_view(path@)),
{
    path.len() == 3 && path_is(path, 0, "state") && (path_is(path, 1, "investment") || path_is(path, 1, "unlocks"))
}

fn is_entitlements_exec(path: &Vec<String>) -> (r: bool)
    ensures
        r == is_entitlements(path_view(path@)),
{
    path.len() == 2 && path_is(path, 0, "server") && path_is(path, 1, "entitlements")
}

fn is_key_binding_exec(path: &Vec<String>) -> (r: bool)
    ensures
        r == is_key_binding(path_view(path@)),
{
    path.len() == 5 && path_is(path, 0, "state") && path_is(path, 1, "account") && path_is(path, 2, "settings")
        && path_is(path, 3, "key_bindings")
}

fn is_profile_items_exec(path: &Vec<String>) -> (r: bool)
    ensures
        r == is_profile_items(path_view(path@)),
{
    path.len() == 3 && path_is(path, 0, "state") && path_is(path, 1, "account") && path_is(path, 2, "profile_items")
}

fn write_value(v: &JsonValue, indent: usize, path: &mut Vec<String>, legacy: bool, out: &mut String)
    requires
        indent as nat + 2 * depth(v.deep()) <= usize::MAX,
    ensures
        final(out)@ == write_spec(v.deep(), indent as nat, path_view(old(path)@), legacy, old(out)@),
        path_view(final(path)@) == path_view(old(path)@),
    decreases v, 1int,
{
    match v {
        JsonValue::Object(o) => {
            proof {
                lemma_object_deep(*o);
            }
            if is_key_binding_exec(path) {
                write_inline(v, true, out);
                return;
            }
            if o.len() > 0 {
                push_str(out, "{\n");
                write_members(o, indent, path, legacy, out);
                push_spaces(out, indent);
                push_str(out, "}");
            } else {
                push_str(out, "{}");
            }
        },
        JsonValue::Array(a) => {
            proof {
                lemma_array_deep(*a);
            }
            if is_dense_table_exec(path) {
                write_dense_table(v, out);
                return;
            }
            if legacy && is_profile_items_exec(path) && a.len() > 0 && all_objects_exec(a) {
                write_profile_items(a, indent, out);
                return;
            }
            if any_contains_object_exec(a) {
                let entitlements = is_entitlements_exec(path);
                push_str(out, "[\n");
                write_items(a, indent, path, legacy, entitlements, out);
                push_spaces(out, indent);
                push_str(out, "]");
                return;
            }
            let mut inline = String::new();
            write_inline(v, true, &mut inline);
            assert(inline@ =~= inline_text(v.deep(), true));
            let column = current_column(out);
            utf8_len_fits(inline.as_str());
            let width = inline.as_str().len();
            if a.len() == 0 || (column <= MAX_INLINE_WIDTH && width <= MAX_INLINE_WIDTH - column) {
                push_str(out, inline.as_str());
            } else {
                push_str(out, "[\n");
                write_items(a, indent, path, legacy, false, out);
                push_spaces(out, indent);
                push_str(out, "]");
            }
        },
        _ => write_scalar(v, out),
    }
}

fn write_members(o: &Vec<(String, JsonValue)>, indent: usize, path: &mut Vec<String>, legacy: bool, out: &mut String)
    requires
        indent as nat + 2 + 2 * members_depth(members_view(o@), o@.len() as int) <= usize::MAX,
    ensures
        final(out)@ == members_out(
            members_view(o@),
            o@.len() as int,
            indent as nat,
            path_view(old(path)@),
            legacy,
            old(out)@,
        ),
        path_view(final(path)@) == path_view(old(path)@),
    decreases o, 0int,
{
    let ghost mv = members_view(o@);
    let ghost pv = path_view(path@);
    let mut k: usize = 0;
    while k < o.len()
        invariant
            k <= o@.len(),
            mv == members_view(o@),
            path_view(path@) == pv,
            indent as nat + 2 + 2 * members_depth(mv, o@.len() as int) <= usize::MAX,
            out@ == members_out(mv, k as int, indent as nat, pv, legacy, old(out)@),
        decreases o.len() - k,
    {
        proof {
            reveal_strlit("");
            lemma_members_depth(mv, o@.len() as int, k as int);
        }
        push_spaces(out, indent + 2);
        let q = quote(o[k].0.as_str());
        push_str(out, q.as_str());
        push_str(out, ": ");
        let ghost head = out@;
        path.push(o[k].0.clone());
        assert(path_view(path@) =~= pv.push(mv[k as int].0));
        proof {
            assert(decreases_to!(*o => o@[k as int]));
        }
        write_value(&o[k].1, indent + 2, path, legacy, out);
        let ghost before_pop = path@;
        assert(path_view(before_pop) == pv.push(mv[k as int].0));
        let _ = path.pop();
        assert(path@ =~= before_pop.drop_last());
        assert forall|j: int| 0 <= j < pv.len() implies path_view(path@)[j] == pv[j] by {
            assert(path_view(before_pop)[j] == pv.push(mv[k as int].0)[j]);
        }
        assert(path_view(path@) =~= pv);
        if k + 1 != o.len() {
            push_str(out, ",");
        }
        push_str(out, "\n");
        k += 1;
        assert(out@ =~= members_out(mv, k as int, indent as nat, pv, legacy, old(out)@));
    }
}

fn write_items(
    a: &Vec<JsonValue>,
    indent: usize,
    path: &mut Vec<String>,
    legacy: bool,
    entitlements: bool,
    out: &mut String,
)
    requires
        indent as nat + 2 + 2 * items_depth(elems_view(a@), a@.len() as int) <= usize::MAX,
    ensures
        final(out)@ == items_out(
            elems_view(a@),
            a@.len() as int,
            indent as nat,
            path_view(old(path)@),
            legacy,
            entitlements,
            old(out)@,
        ),
        path_view(final(path)@) == path_view(old(path)@),
    decreases a, 0int,
{
    let ghost av = elems_view(a@);
    let ghost pv = path_view(path@);
    let mut k: usize = 0;
    while k < a.len()
        invariant
            k <= a@.len(),
            av == elems_view(a@),
            path_view(path@) == pv,
            indent as nat + 2 + 2 * items_depth(av, a@.len() as int) <= usize::MAX,
            out@ == items_out(av, k as int, indent as nat, pv, legacy, entitlements, old(out)@),
        decreases a.len() - k,
    {
        proof {
            reveal_strlit("");
            lemma_items_depth(av, a@.len() as int, k as int);
            assert(decreases_to!(*a => a@[k as int]));
        }
        push_spaces(out, indent + 2);
        if entitlements {
            write_inline(&a[k], true, out);
        } else {
            write_value(&a[k], indent + 2, path, legacy, out);
        }
        if k + 1 != a.len() {
            push_str(out, ",");
        }
        push_str(out, "\n");
        k += 1;
        assert(out@ =~= items_out(av, k as int, indent as nat, pv, legacy, entitlements, old(out)@));
    }
}

fn crlf_exec(s: &String) -> (r: String)
    ensures
        r@ == crlf(s@),
{
    let chars = chars_of(s.as_str());
    let mut r = String::new();
    let mut i: usize = 0;
    assert(chars@.take(0) =~= Seq::<char>::empty());
    while i < chars.len()
        invariant
            i <= chars@.len(),
            r@ == crlf(chars@.take(i as int)),
        decreases chars.len() - i,
    {
        assert(chars@.take(i + 1).drop_last() =~= chars@.take(i as int));
        if chars[i] == '\n' {
            push_str(&mut r, "\r\n");
        } else {
            push_char(&mut r, chars[i]);
        }
        i += 1;
    }
    assert(chars@.take(chars@.len() as int) =~= chars@);
    r
}

/// The document written in Sunrise's own layout, with CR LF line ends.
pub fn encode_settings(document: &JsonValue) -> (r: Result<String, String>)
    requires
        2 * depth(document.deep()) <= usize::MAX,
    ensures
        r matches Ok(text) && text@ == spec_encode_settings(document.deep()),
{
    let legacy = match crate::json::get_member(document, "version") {
        Some(v) => match crate::json::value_as_u64(v) {
            Some(version) => version <= 3,
            None => true,
        },
        None => true,
    };
    let mut out = String::new();
    let mut path: Vec<String> = Vec::new();
    assert(path_view(path@) =~= Seq::<Seq<char>>::empty());
    write_value(document, 0, &mut path, legacy, &mut out);
    Ok(crlf_exec(&out))
}

/// Every CR LF pair written as a bare line feed, pairs taken from the left.
pub open spec fn lf(s: Seq<char>) -> Seq<char>
    decreases s.len(),
{
    if s.len() == 0 {
        s
    } else if s.len() >= 2 && s[0] == '\r' && s[1] == '\n' {
        seq!['\n'] + lf(s.skip(2))
    } else {
        seq![s[0]] + lf(s.skip(1))
    }
}

/// The settings text as the raw JSON editor shows it: the document in Sunrise's layout with
/// every CR LF turned back into a line feed.
pub fn encode_settings_for_editor(document: &JsonValue) -> (r: Result<String, String>)
    requires
        2 * depth(document.deep()) <= usize::MAX,
    ensures
        r matches Ok(text) && text@ == lf(spec_encode_settings(document.deep())),
{
    let encoded = match encode_settings(document) {
        Ok(text) => text,
        Err(e) => return Err(e),
    };
    let chars = chars_of(encoded.as_str());
    let mut r = String::new();
    let mut i: usize = 0;
    assert(chars@.skip(0) =~= chars@);
    while i < chars.len()
        invariant
            i <= chars@.len(),
            lf(chars@) == r@ + lf(chars@.skip(i as int)),
        decreases chars.len() - i,
    {
        let ghost rest = chars@.skip(i as int);
        if chars[i] == '\r' && i + 1 < chars.len() && chars[i + 1] == '\n' {
            proof {
                assert(rest.skip(2) =~= chars@.skip(i + 2));
                assert(r@ + lf(rest) =~= (r@ + seq!['\n']) + lf(rest.skip(2)));
            }
            push_char(&mut r, '\n');
            i += 2;
        } else {
            proof {
                assert(rest.skip(1) =~= chars@.skip(i + 1));
                assert(r@ + lf(rest) =~= (r@ + seq![chars@[i as int]]) + lf(rest.skip(1)));
            }
            push_char(&mut r, chars[i]);
            i += 1;
        }
    }
    assert(chars@.skip(chars@.len() as int) =~= Seq::<char>::empty());
    assert(r@ + Seq::<char>::empty() =~= r@);
    Ok(r)
}

/// A value as compact JSON text: on one line, without spaces, as `serde_json::to_string`
/// writes it.
pub fn compact_json_text(v: &JsonValue) -> (t: String)
    ensures
        t@ == inline_text(v.deep(), false),
{
    let mut t = String::new();
    proof {
        reveal_strlit("");
    }
    write_inline(v, false, &mut t);
    assert(t@ =~= inline_text(v.deep(), false));
    t
}

/// A document ready to be written: its text and how it relates to the game's size limit.
pub struct PreparedSettings {
    pub encoded: String,
    pub encoded_bytes: usize,
    pub size_limit_bytes: usize,
    pub compacted: bool,
    pub exceeds_size_limit: bool,
}

/// The text written for a document: the editor's layout and a CRLF, or, when that is over
/// the schema's size limit, compact JSON and a CRLF.
pub open spec fn prepared_text(document: JsonView) -> Seq<char> {
    let limit = crate::settings::spec_settings_size_limit(document_version(document));
    let pretty = spec_encode_settings(document) + "\r\n"@;
    if utf8_len(pretty) > limit {
        inline_text(document, false) + "\r\n"@
    } else {
        pretty
    }
}

/// Prepares a document for writing, as `prepared_text` describes: the text, its size in
/// bytes, the schema's limit, whether it was compacted and whether it is still over the
/// limit.
pub fn prepare_settings(document: &JsonValue) -> (r: Result<PreparedSettings, String>)
    requires
        2 * depth(document.deep()) <= usize::MAX,
    ensures
        r matches Ok(p) && {
            let limit = crate::settings::spec_settings_size_limit(document_version(document.deep()));
            &&& p.encoded@ == prepared_text(document.deep())
            &&& p.encoded_bytes == utf8_len(p.encoded@)
            &&& p.size_limit_bytes == limit
            &&& p.compacted == (utf8_len(spec_encode_settings(document.deep()) + "\r\n"@) > limit)
            &&& p.exceeds_size_limit == (p.encoded_bytes > limit)
        },
{
    let version = match crate::json::get_member(document, "version") {
        Some(v) => crate::json::value_as_u64(v),
        None => None,
    };
    let limit = crate::settings::settings_size_limit_for_schema(version);
    let mut encoded = match encode_settings(document) {
        Ok(t) => t,
        Err(e) => {
            return Err(e);
        },
    };
    push_str(&mut encoded, "\r\n");
    let compacted = crate::text::byte_len(encoded.as_str()) > limit;
    if compacted {
        encoded = compact_json_text(document);
        push_str(&mut encoded, "\r\n");
    }
    let encoded_bytes = crate::text::byte_len(encoded.as_str());
    Ok(
        PreparedSettings {
            encoded,
            encoded_bytes,
            size_limit_bytes: limit,
            compacted,
            exceeds_size_limit: encoded_bytes > limit,
        },
    )
}

} // verus!
