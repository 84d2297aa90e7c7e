//! What the settings layout adds to a document's JSON text: whitespace between tokens and
//! nothing else. Scanning the written text as JSON and dropping the whitespace that stands
//! outside strings gives the compact JSON text of the same document.
use vstd::prelude::*;
use crate::encode::{
    all_objects, crlf, dense_items, dense_text, inline_items, inline_members, inline_text, items_out, json_escaped,
    json_escaped_char, json_quoted, legacy_profile_items, lower_hex_digit, members_out, profile_fields, profile_rows,
    profile_text, scalar_text, separator, spaces, spec_encode_settings, write_spec,
};
use crate::json::{JsonView, NumberView};
use crate::text::{decimal, digit_char};

verus! {

/// Where a scan of JSON text stands: between tokens, inside a string, or just after a
/// backslash inside a string.
pub enum ScanState {
    Between,
    InString,
    AfterBackslash,
}

/// The characters JSON allows as whitespace between tokens.
pub open spec fn json_space(c: char) -> bool {
    c == ' ' || c == '\t' || c == '\n' || c == '\r'
}

/// One step of the scan: what it keeps of `c` and where it then stands.
pub open spec fn scan_char(st: ScanState, c: char) -> (Seq<char>, ScanState) {
    match st {
        ScanState::Between => if json_space(c) {
            (Seq::empty(), ScanState::Between)
        } else if c == '"' {
            (seq![c], ScanState::InString)
        } else {
            (seq![c], ScanState::Between)
        },
        ScanState::InString => if c == '\\' {
            (seq![c], ScanState::AfterBackslash)
        } else if c == '"' {
            (seq![c], ScanState::Between)
        } else {
            (seq![c], ScanState::InString)
        },
        ScanState::AfterBackslash => (seq![c], ScanState::InString),
    }
}

/// Scans `s` from state `st`: the characters kept and the state at its end.
pub open spec fn scan(s: Seq<char>, st: ScanState) -> (Seq<char>, ScanState)
    decreases s.len(),
{
    if s.len() == 0 {
        (Seq::empty(), st)
    } else {
        let p = scan(s.drop_last(), st);
        let q = scan_char(p.1, s.last());
        (p.0 + q.0, q.1)
    }
}

/// JSON text with the whitespace between its tokens removed.
pub open spec fn without_layout(s: Seq<char>) -> Seq<char> {
    scan(s, ScanState::Between).0
}

/// `x`, scanned from between tokens, keeps `y` and ends between tokens.
pub open spec fn strips_to(x: Seq<char>, y: Seq<char>) -> bool {
    scan(x, ScanState::Between) == (y, ScanState::Between)
}

/// `x` strips to `y`, and so does `x` with its line feeds written as CR LF.
pub open spec fn lays_out(x: Seq<char>, y: Seq<char>) -> bool {
    strips_to(x, y) && strips_to(crlf(x), y)
}

proof fn lemma_scan_concat(a: Seq<char>, b: Seq<char>, st: ScanState)
    ensures
        scan(a + b, st) == (scan(a, st).0 + scan(b, scan(a, st).1).0, scan(b, scan(a, st).1).1),
    decreases b.len(),
{
    if b.len() == 0 {
        assert(a + b =~= a);
        assert(scan(a, st).0 + Seq::<char>::empty() =~= scan(a, st).0);
    } else {
        lemma_scan_concat(a, b.drop_last(), st);
        assert((a + b).drop_last() =~= a + b.drop_last());
        assert((a + b).last() == b.last());
        let m = scan(a, st);
        let p = scan(b.drop_last(), m.1);
        let q = scan_char(p.1, b.last());
        assert(m.0 + p.0 + q.0 =~= m.0 + (p.0 + q.0));
    }
}

proof fn lemma_scan_push(s: Seq<char>, c: char, st: ScanState)
    ensures
        scan(s.push(c), st) == (scan(s, st).0 + scan_char(scan(s, st).1, c).0, scan_char(scan(s, st).1, c).1),
{
    assert(s.push(c).drop_last() =~= s);
}

proof fn lemma_strips_concat(a: Seq<char>, ya: Seq<char>, b: Seq<char>, yb: Seq<char>)
    requires
        strips_to(a, ya),
        strips_to(b, yb),
    ensures
        strips_to(a + b, ya + yb),
{
    lemma_scan_concat(a, b, ScanState::Between);
}

proof fn lemma_crlf_concat(a: Seq<char>, b: Seq<char>)
    ensures
        crlf(a + b) == crlf(a) + crlf(b),
    decreases b.len(),
{
    if b.len() == 0 {
        assert(a + b =~= a);
        assert(crlf(a) + crlf(b) =~= crlf(a));
    } else {
        lemma_crlf_concat(a, b.drop_last());
        assert((a + b).drop_last() =~= a + b.drop_last());
        assert((a + b).last() == b.last());
        if b.last() == '\n' {
            assert(crlf(a) + crlf(b.drop_last()) + "\r\n"@ =~= crlf(a) + (crlf(b.drop_last()) + "\r\n"@));
        } else {
            assert((crlf(a) + crlf(b.drop_last())).push(b.last()) =~= crlf(a) + crlf(b.drop_last()).push(b.last()));
        }
    }
}

proof fn lemma_lays_concat(a: Seq<char>, ya: Seq<char>, b: Seq<char>, yb: Seq<char>)
    requires
        lays_out(a, ya),
        lays_out(b, yb),
    ensures
        lays_out(a + b, ya + yb),
{
    lemma_strips_concat(a, ya, b, yb);
    lemma_crlf_concat(a, b);
    lemma_strips_concat(crlf(a), ya, crlf(b), yb);
}

/// No JSON whitespace and no double quote.
pub open spec fn plain(x: Seq<char>) -> bool {
    forall|i: int| 0 <= i < x.len() ==> !json_space(#[trigger] x[i]) && x[i] != '"'
}

pub open spec fn no_line_feed(x: Seq<char>) -> bool {
    forall|i: int| 0 <= i < x.len() ==> #[trigger] x[i] != '\n'
}

proof fn lemma_crlf_identity(x: Seq<char>)
    requires
        no_line_feed(x),
    ensures
        crlf(x) == x,
    decreases x.len(),
{
    if x.len() > 0 {
        assert(no_line_feed(x.drop_last()) && x.last() == x[x.len() - 1]);
        lemma_crlf_identity(x.drop_last());
        assert(x.drop_last().push(x.last()) =~= x);
    }
}

proof fn lemma_plain(x: Seq<char>)
    requires
        plain(x),
    ensures
        lays_out(x, x),
    decreases x.len(),
{
    assert(no_line_feed(x));
    lemma_crlf_identity(x);
    if x.len() > 0 {
        assert(plain(x.drop_last()) && x.last() == x[x.len() - 1]);
        assert(!json_space(x[x.len() - 1]) && x[x.len() - 1] != '"');
        lemma_plain(x.drop_last());
        assert(x.drop_last() + seq![x.last()] =~= x);
        assert(scan(x, ScanState::Between) == (x.drop_last() + seq![x.last()], ScanState::Between));
    } else {
        assert(x =~= Seq::<char>::empty());
    }
}

/// Only JSON whitespace.
pub open spec fn blank(x: Seq<char>) -> bool {
    forall|i: int| 0 <= i < x.len() ==> json_space(#[trigger] x[i])
}

proof fn lemma_scan_blank(x: Seq<char>)
    requires
        blank(x),
    ensures
        strips_to(x, Seq::empty()),
    decreases x.len(),
{
    if x.len() > 0 {
        assert(blank(x.drop_last()) && x.last() == x[x.len() - 1]);
        lemma_scan_blank(x.drop_last());
        assert(Seq::<char>::empty() + Seq::<char>::empty() =~= Seq::<char>::empty());
    }
}

proof fn lemma_crlf_blank(x: Seq<char>)
    requires
        blank(x),
    ensures
        blank(crlf(x)),
    decreases x.len(),
{
    if x.len() > 0 {
        assert(blank(x.drop_last()) && x.last() == x[x.len() - 1]);
        lemma_crlf_blank(x.drop_last());
        reveal_strlit("\r\n");
        let p = crlf(x.drop_last());
        if x.last() == '\n' {
            assert forall|i: int| 0 <= i < crlf(x).len() implies json_space(#[trigger] crlf(x)[i]) by {
                if i < p.len() {
                    assert(crlf(x)[i] == p[i]);
                }
            }
        } else {
            assert forall|i: int| 0 <= i < crlf(x).len() implies json_space(#[trigger] crlf(x)[i]) by {
                if i < p.len() {
                    assert(crlf(x)[i] == p[i]);
                }
            }
        }
    }
}

proof fn lemma_blank(x: Seq<char>)
    requires
        blank(x),
    ensures
        lays_out(x, Seq::empty()),
{
    lemma_scan_blank(x);
    lemma_crlf_blank(x);
    lemma_scan_blank(crlf(x));
}

/// Text inside a string that needs no escape: no quote, backslash or line feed.
pub open spec fn string_plain(x: Seq<char>) -> bool {
    forall|i: int| 0 <= i < x.len() ==> #[trigger] x[i] != '"' && x[i] != '\\' && x[i] != '\n'
}

proof fn lemma_string_plain(x: Seq<char>)
    requires
        string_plain(x),
    ensures
        scan(x, ScanState::InString) == (x, ScanState::InString),
        no_line_feed(x),
    decreases x.len(),
{
    if x.len() > 0 {
        assert(string_plain(x.drop_last()) && x.last() == x[x.len() - 1]);
        assert(x[x.len() - 1] != '"' && x[x.len() - 1] != '\\');
        lemma_string_plain(x.drop_last());
        assert(x.drop_last() + seq![x.last()] =~= x);
    } else {
        assert(x =~= Seq::<char>::empty());
    }
}

/// A backslash and the character after it, inside a string.
proof fn lemma_escape_pair(e: char)
    ensures
        scan(seq!['\\', e], ScanState::InString) == (seq!['\\', e], ScanState::InString),
{
    lemma_scan_push(Seq::empty(), '\\', ScanState::InString);
    assert(Seq::<char>::empty().push('\\') =~= seq!['\\']);
    assert(Seq::<char>::empty() + seq!['\\'] =~= seq!['\\']);
    lemma_scan_push(seq!['\\'], e, ScanState::InString);
    assert(seq!['\\'].push(e) =~= seq!['\\', e]);
    assert(seq!['\\'] + seq![e] =~= seq!['\\', e]);
}

proof fn lemma_hex_digit(v: int)
    requires
        0 <= v < 16,
    ensures
        lower_hex_digit(v) != '"' && lower_hex_digit(v) != '\\' && lower_hex_digit(v) != '\n',
{
    if v < 10 {
        assert(lower_hex_digit(v) as int == v + 48);
    } else {
        assert(lower_hex_digit(v) as int == v + 87);
    }
}

proof fn lemma_escaped_char(c: char)
    ensures
        scan(json_escaped_char(c), ScanState::InString) == (json_escaped_char(c), ScanState::InString),
        no_line_feed(json_escaped_char(c)),
{
    let v = c as u32;
    let e = json_escaped_char(c);
    if c == '"' || c == '\\' || v == 8 || c == '\t' || c == '\n' || v == 12 || c == '\r' {
        lemma_escape_pair(e[1]);
        assert(e =~= seq!['\\', e[1]]);
    } else if v < 32 {
        let h1 = lower_hex_digit((v / 16) as int);
        let h2 = lower_hex_digit((v % 16) as int);
        lemma_hex_digit((v / 16) as int);
        lemma_hex_digit((v % 16) as int);
        lemma_escape_pair('u');
        let rest = seq!['0', '0', h1, h2];
        assert(string_plain(rest));
        lemma_string_plain(rest);
        assert(e =~= seq!['\\', 'u'] + rest);
        lemma_scan_concat(seq!['\\', 'u'], rest, ScanState::InString);
    } else {
        assert(string_plain(e));
        lemma_string_plain(e);
    }
}

proof fn lemma_escaped(s: Seq<char>)
    ensures
        scan(json_escaped(s), ScanState::InString) == (json_escaped(s), ScanState::InString),
        no_line_feed(json_escaped(s)),
    decreases s.len(),
{
    if s.len() > 0 {
        lemma_escaped(s.drop_last());
        lemma_escaped_char(s.last());
        lemma_scan_concat(json_escaped(s.drop_last()), json_escaped_char(s.last()), ScanState::InString);
    } else {
        assert(json_escaped(s) =~= Seq::<char>::empty());
    }
}

/// A string as serde_json quotes it is kept whole and leaves the scan between tokens.
proof fn lemma_quoted(s: Seq<char>)
    ensures
        lays_out(json_quoted(s), json_quoted(s)),
{
    reveal(json_quoted);
    let q = json_quoted(s);
    let body = json_escaped(s);
    lemma_escaped(s);
    lemma_scan_push(Seq::empty(), '"', ScanState::Between);
    assert(Seq::<char>::empty().push('"') =~= seq!['"']);
    lemma_scan_concat(seq!['"'], body, ScanState::Between);
    lemma_scan_concat(seq!['"'] + body, seq!['"'], ScanState::InString);
    lemma_scan_push(Seq::empty(), '"', ScanState::InString);
    lemma_scan_concat(seq!['"'] + body, seq!['"'], ScanState::Between);
    assert(Seq::<char>::empty() + seq!['"'] =~= seq!['"']);
    assert(no_line_feed(q));
    lemma_crlf_identity(q);
}

/// Every fractional number in `v` is written by text free of JSON whitespace and quotes, as
/// the number texts serde_json writes are.
pub open spec fn plain_numbers(v: JsonView) -> bool
    decreases v, 0int,
{
    match v {
        JsonView::Number(NumberView::Float(t, _)) => plain(t),
        JsonView::Array(a) => items_plain_numbers(a, a.len() as int),
        JsonView::Object(o) => members_plain_numbers(o, o.len() as int),
        _ => true,
    }
}

pub open spec fn items_plain_numbers(a: Seq<JsonView>, n: int) -> bool
    decreases a, n,
{
    if n <= 0 || n > a.len() {
        true
    } else {
        items_plain_numbers(a, n - 1) && plain_numbers(a[n - 1])
    }
}

pub open spec fn members_plain_numbers(o: Seq<(Seq<char>, JsonView)>, n: int) -> bool
    decreases o, n,
{
    if n <= 0 || n > o.len() {
        true
    } else {
        members_plain_numbers(o, n - 1) && plain_numbers(o[n - 1].1)
    }
}

proof fn lemma_digit(d: nat)
    requires
        d < 10,
    ensures
        !json_space(digit_char(d)) && digit_char(d) != '"',
{
    assert(digit_char(d) as int == 48 + d);
}

proof fn lemma_decimal_plain(n: nat)
    ensures
        plain(decimal(n)),
    decreases n,
{
    if n < 10 {
        lemma_digit(n);
    } else {
        lemma_decimal_plain(n / 10);
        lemma_digit(n % 10);
        let p = decimal(n / 10);
        assert forall|i: int| 0 <= i < decimal(n).len() implies !json_space(#[trigger] decimal(n)[i])
            && decimal(n)[i] != '"' by {
            if i < p.len() {
                assert(decimal(n)[i] == p[i]);
            }
        }
    }
}

proof fn lemma_literal_plain(x: Seq<char>, y: Seq<char>)
    requires
        x == y,
        plain(y),
    ensures
        lays_out(x, x),
{
    lemma_plain(x);
}

proof fn lemma_scalar(v: JsonView)
    requires
        !(v is Array),
        !(v is Object),
        plain_numbers(v),
    ensures
        lays_out(scalar_text(v), scalar_text(v)),
{
    match v {
        JsonView::Null => {
            reveal_strlit("null");
            assert("null"@ =~= seq!['n', 'u', 'l', 'l']);
            lemma_literal_plain("null"@, seq!['n', 'u', 'l', 'l']);
        },
        JsonView::Bool(b) => {
            reveal_strlit("true");
            reveal_strlit("false");
            if b {
                assert("true"@ =~= seq!['t', 'r', 'u', 'e']);
            lemma_literal_plain("true"@, seq!['t', 'r', 'u', 'e']);
            } else {
                assert("false"@ =~= seq!['f', 'a', 'l', 's', 'e']);
            lemma_literal_plain("false"@, seq!['f', 'a', 'l', 's', 'e']);
            }
        },
        JsonView::Number(NumberView::PosInt(n)) => {
            lemma_decimal_plain(n as nat);
            lemma_plain(decimal(n as nat));
        },
        JsonView::Number(NumberView::NegInt(n)) => {
            if n < 0 {
                reveal_strlit("-");
                lemma_decimal_plain((-n) as nat);
                assert("-"@ =~= seq!['-']);
            lemma_literal_plain("-"@, seq!['-']);
                lemma_plain(decimal((-n) as nat));
                lemma_lays_concat("-"@, "-"@, decimal((-n) as nat), decimal((-n) as nat));
            } else {
                lemma_decimal_plain(n as nat);
                lemma_plain(decimal(n as nat));
            }
        },
        JsonView::Number(NumberView::Float(t, _)) => {
            lemma_plain(t);
        },
        JsonView::Str(s) => {
            lemma_quoted(s);
        },
        _ => {},
    }
}

proof fn lemma_one_char(x: Seq<char>, c: char)
    requires
        x =~= seq![c],
        !json_space(c),
        c != '"',
    ensures
        lays_out(x, x),
{
    assert(plain(x));
    lemma_plain(x);
}

proof fn lemma_token_then_space(x: Seq<char>, p: Seq<char>, w: Seq<char>)
    requires
        x =~= p + w,
        lays_out(p, p),
        blank(w),
    ensures
        lays_out(x, p),
{
    lemma_blank(w);
    lemma_lays_concat(p, p, w, Seq::empty());
    assert(p + Seq::<char>::empty() =~= p);
}

/// The punctuation and whitespace pieces of the layout.
proof fn lemma_punctuation()
    ensures
        lays_out("{"@, "{"@),
        lays_out("}"@, "}"@),
        lays_out("["@, "["@),
        lays_out("]"@, "]"@),
        lays_out(","@, ","@),
        lays_out(":"@, ":"@),
        lays_out(""@, ""@),
        lays_out(" "@, ""@),
        lays_out("\n"@, ""@),
        lays_out(", "@, ","@),
        lays_out(": "@, ":"@),
        lays_out("{\n"@, "{"@),
        lays_out("[\n"@, "["@),
        lays_out("{}"@, "{}"@),
        ""@ == Seq::<char>::empty(),
{
    reveal_strlit("{");
    reveal_strlit("}");
    reveal_strlit("[");
    reveal_strlit("]");
    reveal_strlit(",");
    reveal_strlit(":");
    reveal_strlit("");
    reveal_strlit(" ");
    reveal_strlit("\n");
    reveal_strlit(", ");
    reveal_strlit(": ");
    reveal_strlit("{\n");
    reveal_strlit("[\n");
    reveal_strlit("{}");
    assert(""@ =~= Seq::<char>::empty());
    lemma_one_char("{"@, '{');
    lemma_one_char("}"@, '}');
    lemma_one_char("["@, '[');
    lemma_one_char("]"@, ']');
    lemma_one_char(","@, ',');
    lemma_one_char(":"@, ':');
    lemma_blank(""@);
    assert(blank(" "@));
    lemma_blank(" "@);
    assert(blank("\n"@));
    lemma_blank("\n"@);
    lemma_token_then_space(", "@, ","@, " "@);
    lemma_token_then_space(": "@, ":"@, " "@);
    lemma_token_then_space("{\n"@, "{"@, "\n"@);
    lemma_token_then_space("[\n"@, "["@, "\n"@);
    lemma_lays_concat("{"@, "{"@, "}"@, "}"@);
    assert("{}"@ =~= "{"@ + "}"@);
}

proof fn lemma_separator(sp: bool)
    ensures
        lays_out(separator(sp), separator(false)),
{
    lemma_punctuation();
}

proof fn lemma_concat5(
    a: Seq<char>,
    ya: Seq<char>,
    b: Seq<char>,
    yb: Seq<char>,
    c: Seq<char>,
    yc: Seq<char>,
    d: Seq<char>,
    yd: Seq<char>,
    e: Seq<char>,
    ye: Seq<char>,
)
    requires
        lays_out(a, ya),
        lays_out(b, yb),
        lays_out(c, yc),
        lays_out(d, yd),
        lays_out(e, ye),
    ensures
        lays_out(a + b + c + d + e, ya + yb + yc + yd + ye),
{
    lemma_lays_concat(a, ya, b, yb);
    lemma_lays_concat(a + b, ya + yb, c, yc);
    lemma_lays_concat(a + b + c, ya + yb + yc, d, yd);
    lemma_lays_concat(a + b + c + d, ya + yb + yc + yd, e, ye);
}

/// A value on one line, with or without spaces, strips to its compact text.
proof fn lemma_inline(v: JsonView, sp: bool)
    requires
        plain_numbers(v),
    ensures
        lays_out(inline_text(v, sp), inline_text(v, false)),
    decreases v, 0int,
{
    lemma_punctuation();
    match v {
        JsonView::Object(o) => {
            lemma_inline_members(o, sp, o.len() as int);
            let pad = if sp && o.len() > 0 {
                " "@
            } else {
                ""@
            };
            lemma_concat5(
                "{"@,
                "{"@,
                pad,
                ""@,
                inline_members(o, sp, o.len() as int),
                inline_members(o, false, o.len() as int),
                pad,
                ""@,
                "}"@,
                "}"@,
            );
        },
        JsonView::Array(a) => {
            lemma_inline_items(a, sp, a.len() as int);
            lemma_lays_concat("["@, "["@, inline_items(a, sp, a.len() as int), inline_items(a, false, a.len() as int));
            lemma_lays_concat(
                "["@ + inline_items(a, sp, a.len() as int),
                "["@ + inline_items(a, false, a.len() as int),
                "]"@,
                "]"@,
            );
        },
        _ => {
            lemma_scalar(v);
        },
    }
}

proof fn lemma_inline_members(o: Seq<(Seq<char>, JsonView)>, sp: bool, n: int)
    requires
        members_plain_numbers(o, n),
    ensures
        lays_out(inline_members(o, sp, n), inline_members(o, false, n)),
    decreases o, n,
{
    lemma_punctuation();
    if 0 < n <= o.len() {
        lemma_inline_members(o, sp, n - 1);
        lemma_inline(o[n - 1].1, sp);
        lemma_quoted(o[n - 1].0);
        lemma_separator(sp);
        let sep = if n - 1 != 0 {
            separator(sp)
        } else {
            ""@
        };
        let sep0 = if n - 1 != 0 {
            separator(false)
        } else {
            ""@
        };
        let colon = if sp {
            ": "@
        } else {
            ":"@
        };
        lemma_concat5(
            inline_members(o, sp, n - 1),
            inline_members(o, false, n - 1),
            sep,
            sep0,
            json_quoted(o[n - 1].0),
            json_quoted(o[n - 1].0),
            colon,
            ":"@,
            inline_text(o[n - 1].1, sp),
            inline_text(o[n - 1].1, false),
        );
    }
}

proof fn lemma_inline_items(a: Seq<JsonView>, sp: bool, n: int)
    requires
        items_plain_numbers(a, n),
    ensures
        lays_out(inline_items(a, sp, n), inline_items(a, false, n)),
    decreases a, n,
{
    lemma_punctuation();
    if 0 < n <= a.len() {
        lemma_inline_items(a, sp, n - 1);
        lemma_inline(a[n - 1], sp);
        lemma_separator(sp);
        let sep = if n - 1 != 0 {
            separator(sp)
        } else {
            ""@
        };
        let sep0 = if n - 1 != 0 {
            separator(false)
        } else {
            ""@
        };
        lemma_lays_concat(inline_items(a, sp, n - 1), inline_items(a, false, n - 1), sep, sep0);
        lemma_lays_concat(
            inline_items(a, sp, n - 1) + sep,
            inline_items(a, false, n - 1) + sep0,
            inline_text(a[n - 1], sp),
            inline_text(a[n - 1], false),
        );
    }
}

proof fn lemma_spaces(n: nat)
    ensures
        lays_out(spaces(n), ""@),
{
    lemma_punctuation();
    assert(blank(spaces(n)));
    lemma_blank(spaces(n));
}

/// The comma that follows entry `n` of `len` when another entry comes after it.
pub open spec fn trailing(n: int, len: int) -> Seq<char> {
    if 0 < n && n != len {
        ","@
    } else {
        ""@
    }
}

proof fn lemma_dense_items(a: Seq<JsonView>, n: int)
    requires
        items_plain_numbers(a, n),
    ensures
        lays_out(dense_items(a, n), inline_items(a, false, n)),
    decreases n,
{
    lemma_punctuation();
    if 0 < n <= a.len() {
        lemma_dense_items(a, n - 1);
        lemma_inline(a[n - 1], false);
        let sep = if n - 1 != 0 {
            if a[n - 1] is Array {
                ", "@
            } else {
                ","@
            }
        } else {
            ""@
        };
        let sep0 = if n - 1 != 0 {
            separator(false)
        } else {
            ""@
        };
        lemma_lays_concat(dense_items(a, n - 1), inline_items(a, false, n - 1), sep, sep0);
        lemma_lays_concat(
            dense_items(a, n - 1) + sep,
            inline_items(a, false, n - 1) + sep0,
            inline_text(a[n - 1], false),
            inline_text(a[n - 1], false),
        );
    }
}

proof fn lemma_dense(v: JsonView)
    requires
        plain_numbers(v),
    ensures
        lays_out(dense_text(v), inline_text(v, false)),
{
    lemma_punctuation();
    match v {
        JsonView::Array(a) => {
            lemma_dense_items(a, a.len() as int);
            lemma_lays_concat("["@, "["@, dense_items(a, a.len() as int), inline_items(a, false, a.len() as int));
            lemma_lays_concat(
                "["@ + dense_items(a, a.len() as int),
                "["@ + inline_items(a, false, a.len() as int),
                "]"@,
                "]"@,
            );
        },
        _ => {
            lemma_inline(v, false);
        },
    }
}

#[verifier::spinoff_prover]
#[verifier::rlimit(40)]
proof fn lemma_profile_fields(o: Seq<(Seq<char>, JsonView)>, m: int, indent: nat)
    requires
        0 <= m <= o.len(),
        members_plain_numbers(o, m),
    ensures
        lays_out(profile_fields(o, m, indent), inline_members(o, false, m) + trailing(m, o.len() as int)),
    decreases m,
{
    lemma_punctuation();
    if m > 0 {
        lemma_profile_fields(o, m - 1, indent);
        lemma_spaces(indent);
        lemma_quoted(o[m - 1].0);
        lemma_inline(o[m - 1].1, true);
        let prev = profile_fields(o, m - 1, indent);
        let py = inline_members(o, false, m - 1) + trailing(m - 1, o.len() as int);
        let comma = if m != o.len() {
            ","@
        } else {
            ""@
        };
        lemma_concat5(
            prev,
            py,
            spaces(indent),
            ""@,
            json_quoted(o[m - 1].0),
            json_quoted(o[m - 1].0),
            ": "@,
            ":"@,
            inline_text(o[m - 1].1, true),
            inline_text(o[m - 1].1, false),
        );
        let x5 = prev + spaces(indent) + json_quoted(o[m - 1].0) + ": "@ + inline_text(o[m - 1].1, true);
        let y5 = py + ""@ + json_quoted(o[m - 1].0) + ":"@ + inline_text(o[m - 1].1, false);
        lemma_lays_concat(x5, y5, comma, comma);
        lemma_lays_concat(x5 + comma, y5 + comma, "\n"@, ""@);
        assert(trailing(m - 1, o.len() as int) == (if m - 1 != 0 {
            separator(false)
        } else {
            ""@
        }));
        assert(y5 + comma + ""@ =~= inline_members(o, false, m) + trailing(m, o.len() as int));
    } else {
        assert(inline_members(o, false, m) + trailing(m, o.len() as int) =~= ""@);
    }
}

#[verifier::spinoff_prover]
#[verifier::rlimit(40)]
proof fn lemma_profile_rows(a: Seq<JsonView>, n: int, indent: nat)
    requires
        0 <= n <= a.len(),
        all_objects(a),
        items_plain_numbers(a, n),
    ensures
        lays_out(profile_rows(a, n, indent), inline_items(a, false, n) + trailing(n, a.len() as int)),
    decreases n,
{
    lemma_punctuation();
    if n > 0 {
        lemma_profile_rows(a, n - 1, indent);
        assert(a[n - 1] is Object);
        let o = a[n - 1]->Object_0;
        assert(plain_numbers(a[n - 1]));
        assert(a[n - 1] == JsonView::Object(o));
        assert(members_plain_numbers(o, o.len() as int));
        lemma_profile_fields(o, o.len() as int, indent);
        lemma_spaces(indent);
        let prev = profile_rows(a, n - 1, indent);
        let py = inline_items(a, false, n - 1) + trailing(n - 1, a.len() as int);
        let fields = profile_fields(o, o.len() as int, indent);
        let fy = inline_members(o, false, o.len() as int) + trailing(o.len() as int, o.len() as int);
        let comma = if n != a.len() {
            ","@
        } else {
            ""@
        };
        lemma_concat5(prev, py, spaces(indent), ""@, "{\n"@, "{"@, fields, fy, spaces(indent), ""@);
        let x5 = prev + spaces(indent) + "{\n"@ + fields + spaces(indent);
        let y5 = py + ""@ + "{"@ + fy + ""@;
        lemma_lays_concat(x5, y5, "}"@, "}"@);
        lemma_lays_concat(x5 + "}"@, y5 + "}"@, comma, comma);
        lemma_lays_concat(x5 + "}"@ + comma, y5 + "}"@ + comma, "\n"@, ""@);
        assert(trailing(n - 1, a.len() as int) == (if n - 1 != 0 {
            separator(false)
        } else {
            ""@
        }));
        assert(inline_text(a[n - 1], false) =~= "{"@ + ""@ + inline_members(o, false, o.len() as int) + ""@ + "}"@);
        assert(y5 + "}"@ + comma + ""@ =~= inline_items(a, false, n) + trailing(n, a.len() as int));
    } else {
        assert(inline_items(a, false, n) + trailing(n, a.len() as int) =~= ""@);
    }
}

proof fn lemma_profile(a: Seq<JsonView>, indent: nat)
    requires
        all_objects(a),
        items_plain_numbers(a, a.len() as int),
    ensures
        lays_out(profile_text(a, indent), inline_text(JsonView::Array(a), false)),
{
    lemma_punctuation();
    lemma_profile_rows(a, a.len() as int, indent);
    lemma_spaces(indent);
    let ry = inline_items(a, false, a.len() as int) + trailing(a.len() as int, a.len() as int);
    lemma_lays_concat("[\n"@, "["@, profile_rows(a, a.len() as int, indent), ry);
    lemma_lays_concat("[\n"@ + profile_rows(a, a.len() as int, indent), "["@ + ry, spaces(indent), ""@);
    lemma_lays_concat(
        "[\n"@ + profile_rows(a, a.len() as int, indent) + spaces(indent),
        "["@ + ry + ""@,
        "]"@,
        "]"@,
    );
    assert("["@ + ry + ""@ + "]"@ =~= inline_text(JsonView::Array(a), false));
}

#[verifier::spinoff_prover]
#[verifier::rlimit(40)]
proof fn lemma_write(v: JsonView, indent: nat, path: Seq<Seq<char>>, legacy: bool, out: Seq<char>, y: Seq<char>)
    requires
        lays_out(out, y),
        plain_numbers(v),
    ensures
        lays_out(write_spec(v, indent, path, legacy, out), y + inline_text(v, false)),
    decreases v, 0int,
{
    lemma_punctuation();
    match v {
        JsonView::Object(o) => {
            if crate::encode::is_key_binding(path) {
                lemma_inline(v, true);
                lemma_lays_concat(out, y, inline_text(v, true), inline_text(v, false));
            } else if o.len() > 0 {
                let n = o.len() as int;
                lemma_lays_concat(out, y, "{\n"@, "{"@);
                lemma_members_out(o, n, indent, path, legacy, out + "{\n"@, y + "{"@);
                lemma_spaces(indent);
                let body = members_out(o, n, indent, path, legacy, out + "{\n"@);
                let by = y + "{"@ + inline_members(o, false, n) + trailing(n, n);
                lemma_lays_concat(body, by, spaces(indent), ""@);
                lemma_lays_concat(body + spaces(indent), by + ""@, "}"@, "}"@);
                assert(by + ""@ + "}"@ =~= y + inline_text(v, false));
            } else {
                lemma_lays_concat(out, y, "{}"@, "{}"@);
                assert(inline_text(v, false) =~= "{}"@) by {
                    reveal_strlit("{}");
                    reveal_strlit("{");
                    reveal_strlit("}");
                }
            }
        },
        JsonView::Array(a) => {
            let n = a.len() as int;
            if crate::encode::is_dense_table(path) {
                lemma_dense(v);
                lemma_lays_concat(out, y, crate::encode::dense_text(v), inline_text(v, false));
            } else if legacy && crate::encode::is_profile_items(path) && a.len() > 0 && all_objects(a) {
                lemma_profile(a, indent);
                lemma_lays_concat(out, y, profile_text(a, indent), inline_text(v, false));
            } else {
                let inline = inline_text(v, true);
                let multi = crate::encode::any_contains_object(a, n) || !(a.len() == 0 || crate::text::utf8_len(
                    crate::encode::last_line(out),
                ) + crate::text::utf8_len(inline) <= crate::encode::MAX_INLINE_WIDTH);
                if multi {
                    let ent = crate::encode::any_contains_object(a, n) && crate::encode::is_entitlements(path);
                    lemma_lays_concat(out, y, "[\n"@, "["@);
                    lemma_items_out(a, n, indent, path, legacy, ent, out + "[\n"@, y + "["@);
                    lemma_spaces(indent);
                    let body = items_out(a, n, indent, path, legacy, ent, out + "[\n"@);
                    let by = y + "["@ + inline_items(a, false, n) + trailing(n, n);
                    lemma_lays_concat(body, by, spaces(indent), ""@);
                    lemma_lays_concat(body + spaces(indent), by + ""@, "]"@, "]"@);
                    assert(by + ""@ + "]"@ =~= y + inline_text(v, false));
                } else {
                    lemma_inline(v, true);
                    lemma_lays_concat(out, y, inline, inline_text(v, false));
                }
            }
        },
        _ => {
            lemma_scalar(v);
            lemma_lays_concat(out, y, scalar_text(v), scalar_text(v));
        },
    }
}

#[verifier::spinoff_prover]
#[verifier::rlimit(40)]
proof fn lemma_members_out(
    o: Seq<(Seq<char>, JsonView)>,
    n: int,
    indent: nat,
    path: Seq<Seq<char>>,
    legacy: bool,
    start: Seq<char>,
    y: Seq<char>,
)
    requires
        0 <= n <= o.len(),
        lays_out(start, y),
        members_plain_numbers(o, n),
    ensures
        lays_out(
            members_out(o, n, indent, path, legacy, start),
            y + inline_members(o, false, n) + trailing(n, o.len() as int),
        ),
    decreases o, n,
{
    lemma_punctuation();
    if n > 0 {
        lemma_members_out(o, n - 1, indent, path, legacy, start, y);
        lemma_spaces(indent + 2);
        lemma_quoted(o[n - 1].0);
        let prev = members_out(o, n - 1, indent, path, legacy, start);
        let py = y + inline_members(o, false, n - 1) + trailing(n - 1, o.len() as int);
        lemma_lays_concat(prev, py, spaces(indent + 2), ""@);
        lemma_lays_concat(prev + spaces(indent + 2), py + ""@, json_quoted(o[n - 1].0), json_quoted(o[n - 1].0));
        lemma_lays_concat(
            prev + spaces(indent + 2) + json_quoted(o[n - 1].0),
            py + ""@ + json_quoted(o[n - 1].0),
            ": "@,
            ":"@,
        );
        let head = prev + spaces(indent + 2) + json_quoted(o[n - 1].0) + ": "@;
        let hy = py + ""@ + json_quoted(o[n - 1].0) + ":"@;
        lemma_write(o[n - 1].1, indent + 2, path.push(o[n - 1].0), legacy, head, hy);
        let w = write_spec(o[n - 1].1, indent + 2, path.push(o[n - 1].0), legacy, head);
        let comma = if n != o.len() {
            ","@
        } else {
            ""@
        };
        lemma_lays_concat(w, hy + inline_text(o[n - 1].1, false), comma, comma);
        lemma_lays_concat(w + comma, hy + inline_text(o[n - 1].1, false) + comma, "\n"@, ""@);
        assert(trailing(n - 1, o.len() as int) == (if n - 1 != 0 {
            separator(false)
        } else {
            ""@
        }));
        assert(hy + inline_text(o[n - 1].1, false) + comma + ""@ =~= y + inline_members(o, false, n) + trailing(
            n,
            o.len() as int,
        ));
    } else {
        assert(y + inline_members(o, false, n) + trailing(n, o.len() as int) =~= y);
    }
}

#[verifier::spinoff_prover]
#[verifier::rlimit(40)]
proof fn lemma_items_out(
    a: Seq<JsonView>,
    n: int,
    indent: nat,
    path: Seq<Seq<char>>,
    legacy: bool,
    entitlements: bool,
    start: Seq<char>,
    y: Seq<char>,
)
    requires
        0 <= n <= a.len(),
        lays_out(start, y),
        items_plain_numbers(a, n),
    ensures
        lays_out(
            items_out(a, n, indent, path, legacy, entitlements, start),
            y + inline_items(a, false, n) + trailing(n, a.len() as int),
        ),
    decreases a, n,
{
    lemma_punctuation();
    if n > 0 {
        lemma_items_out(a, n - 1, indent, path, legacy, entitlements, start, y);
        lemma_spaces(indent + 2);
        let prev = items_out(a, n - 1, indent, path, legacy, entitlements, start);
        let py = y + inline_items(a, false, n - 1) + trailing(n - 1, a.len() as int);
        lemma_lays_concat(prev, py, spaces(indent + 2), ""@);
        let head = prev + spaces(indent + 2);
        let hy = py + ""@;
        let body = if entitlements {
            head + inline_text(a[n - 1], true)
        } else {
            write_spec(a[n - 1], indent + 2, path, legacy, head)
        };
        if entitlements {
            lemma_inline(a[n - 1], true);
            lemma_lays_concat(head, hy, inline_text(a[n - 1], true), inline_text(a[n - 1], false));
        } else {
            lemma_write(a[n - 1], indent + 2, path, legacy, head, hy);
        }
        let comma = if n != a.len() {
            ","@
        } else {
            ""@
        };
        lemma_lays_concat(body, hy + inline_text(a[n - 1], false), comma, comma);
        lemma_lays_concat(body + comma, hy + inline_text(a[n - 1], false) + comma, "\n"@, ""@);
        assert(trailing(n - 1, a.len() as int) == (if n - 1 != 0 {
            separator(false)
        } else {
            ""@
        }));
        assert(hy + inline_text(a[n - 1], false) + comma + ""@ =~= y + inline_items(a, false, n) + trailing(
            n,
            a.len() as int,
        ));
    } else {
        assert(y + inline_items(a, false, n) + trailing(n, a.len() as int) =~= y);
    }
}

/// The settings layout adds only whitespace between tokens: dropping the JSON whitespace
/// that stands outside strings from the written text gives the document's compact JSON text,
/// the text `compact_json_text` returns and `serde_json::to_string` writes. So the written
/// settings read back as the document whenever its compact text does. Fractional numbers are
/// taken to be written without whitespace or quotes, as serde_json writes them.
pub proof fn law_layout_only_adds_whitespace(document: JsonView)
    requires
        plain_numbers(document),
    ensures
        without_layout(spec_encode_settings(document)) == inline_text(document, false),
{
    lemma_punctuation();
    lemma_write(document, 0, Seq::empty(), legacy_profile_items(document), Seq::empty(), Seq::empty());
    assert(Seq::<char>::empty() + inline_text(document, false) =~= inline_text(document, false));
}

} // verus!
