//! Text services behind the raw JSON editor: search, syntax tokens, cursor positions,
//! foldable sections and the folded view of the document.
//!
//! Every position handed in or out is a UTF-8 byte offset into the text it refers to.
use vstd::prelude::*;
use crate::text::{ascii_lower, ascii_lower_exec, byte_offset, chars_of, is_ascii_whitespace, lemma_offset_bounds, lemma_offset_monotonic, lemma_offset_step, utf8_len_fits, utf8_width};

verus! {

// ---------------------------------------------------------------------------------------
// Search
// ---------------------------------------------------------------------------------------

/// `q` occurs at character index `i` of `t`, ignoring ASCII case.
pub open spec fn matches_at(t: Seq<char>, q: Seq<char>, i: int) -> bool {
    &&& 0 <= i
    &&& i + q.len() <= t.len()
    &&& forall|k: int| 0 <= k < q.len() ==> ascii_lower(#[trigger] t[i + k]) == ascii_lower(q[k])
}

/// The non-overlapping, left-to-right occurrences of `q` in `t` at or after character `i`,
/// as byte ranges.
pub open spec fn matches_from(t: Seq<char>, q: Seq<char>, i: int) -> Seq<(int, int)>
    decreases t.len() - i,
{
    if q.len() == 0 || i < 0 || i + q.len() > t.len() {
        Seq::empty()
    } else if matches_at(t, q, i) {
        seq![(byte_offset(t, i) as int, byte_offset(t, i + q.len()) as int)] + matches_from(
            t,
            q,
            i + q.len(),
        )
    } else {
        matches_from(t, q, i + 1)
    }
}

proof fn lemma_matches_ordered(t: Seq<char>, q: Seq<char>, i: int)
    requires
        0 <= i,
    ensures
        forall|k: int|
            0 <= k < matches_from(t, q, i).len() ==> byte_offset(t, i) <= (#[trigger] matches_from(t, q, i)[k]).0
                < matches_from(t, q, i)[k].1,
        forall|a: int, b: int|
            0 <= a < b < matches_from(t, q, i).len() ==> (#[trigger] matches_from(t, q, i)[a]).1 <= (
            #[trigger] matches_from(t, q, i)[b]).0,
    decreases t.len() - i,
{
    if q.len() == 0 || i + q.len() > t.len() {
    } else if matches_at(t, q, i) {
        let j = i + q.len();
        lemma_matches_ordered(t, q, j);
        lemma_offset_monotonic(t, i, j);
        let rest = matches_from(t, q, j);
        let m = matches_from(t, q, i);
        assert(m == seq![(byte_offset(t, i) as int, byte_offset(t, j) as int)] + rest);
        assert forall|k: int| 0 <= k < m.len() implies byte_offset(t, i) <= (#[trigger] m[k]).0 < m[k].1 by {
            if k > 0 {
                assert(m[k] == rest[k - 1]);
            }
        }
        assert forall|a: int, b: int| 0 <= a < b < m.len() implies (#[trigger] m[a]).1 <= (#[trigger] m[b]).0 by {
            assert(m[b] == rest[b - 1]);
            if a > 0 {
                assert(m[a] == rest[a - 1]);
            }
        }
    } else {
        lemma_matches_ordered(t, q, i + 1);
        lemma_offset_monotonic(t, i, i + 1);
        let m = matches_from(t, q, i);
        let rest = matches_from(t, q, i + 1);
        assert(m == rest);
        assert forall|k: int| 0 <= k < m.len() implies byte_offset(t, i) <= (#[trigger] m[k]).0 < m[k].1 by {
            assert(m[k] == rest[k]);
        }
        assert forall|a: int, b: int| 0 <= a < b < m.len() implies (#[trigger] m[a]).1 <= (#[trigger] m[b]).0 by {
            assert(m[a] == rest[a]);
            assert(m[b] == rest[b]);
        }
    }
}

/// Search results are nonempty byte ranges, left to right, none overlapping the next.
pub proof fn law_search_matches_are_ordered_and_disjoint(text: Seq<char>, query: Seq<char>)
    ensures
        forall|k: int|
            0 <= k < matches_from(text, query, 0).len() ==> 0 <= (#[trigger] matches_from(text, query, 0)[k]).0
                < matches_from(text, query, 0)[k].1,
        forall|a: int, b: int|
            0 <= a < b < matches_from(text, query, 0).len() ==> (#[trigger] matches_from(text, query, 0)[a]).1
                <= (#[trigger] matches_from(text, query, 0)[b]).0,
{
    lemma_matches_ordered(text, query, 0);
}

proof fn lemma_matches_sound(t: Seq<char>, q: Seq<char>, i: int)
    requires
        0 <= i,
    ensures
        forall|k: int|
            0 <= k < matches_from(t, q, i).len() ==> exists|p: int|
                #![trigger byte_offset(t, p)]
                i <= p && matches_at(t, q, p) && #[trigger] matches_from(t, q, i)[k] == (
                    byte_offset(t, p) as int,
                    byte_offset(t, p + q.len()) as int,
                ),
    decreases t.len() - i,
{
    if q.len() == 0 || i + q.len() > t.len() {
    } else if matches_at(t, q, i) {
        let j = i + q.len();
        lemma_matches_sound(t, q, j);
        let rest = matches_from(t, q, j);
        let m = matches_from(t, q, i);
        assert(m == seq![(byte_offset(t, i) as int, byte_offset(t, j) as int)] + rest);
        assert forall|k: int| 0 <= k < m.len() implies exists|p: int|
            #![trigger byte_offset(t, p)]
            i <= p && matches_at(t, q, p) && #[trigger] m[k] == (byte_offset(t, p) as int, byte_offset(t, p + q.len()) as int) by {
            if k == 0 {
                assert(m[0] == (byte_offset(t, i) as int, byte_offset(t, i + q.len()) as int));
            } else {
                assert(m[k] == rest[k - 1]);
                let p = choose|p: int|
                    #![trigger byte_offset(t, p)]
                    j <= p && matches_at(t, q, p) && #[trigger] rest[k - 1] == (
                        byte_offset(t, p) as int,
                        byte_offset(t, p + q.len()) as int,
                    );
                assert(i <= p && matches_at(t, q, p) && m[k] == (byte_offset(t, p) as int, byte_offset(t, p + q.len()) as int));
            }
        }
    } else {
        lemma_matches_sound(t, q, i + 1);
        let m = matches_from(t, q, i);
        let rest = matches_from(t, q, i + 1);
        assert(m == rest);
        assert forall|k: int| 0 <= k < m.len() implies exists|p: int|
            #![trigger byte_offset(t, p)]
            i <= p && matches_at(t, q, p) && #[trigger] m[k] == (byte_offset(t, p) as int, byte_offset(t, p + q.len()) as int) by {
            let p = choose|p: int|
                #![trigger byte_offset(t, p)]
                i + 1 <= p && matches_at(t, q, p) && #[trigger] rest[k] == (
                    byte_offset(t, p) as int,
                    byte_offset(t, p + q.len()) as int,
                );
            assert(i <= p && matches_at(t, q, p) && m[k] == (byte_offset(t, p) as int, byte_offset(t, p + q.len()) as int));
        }
    }
}

proof fn lemma_matches_complete(t: Seq<char>, q: Seq<char>, i: int)
    requires
        0 <= i,
        q.len() > 0,
    ensures
        forall|p: int|
            i <= p && #[trigger] matches_at(t, q, p) ==> matches_from(t, q, i).contains(
                (byte_offset(t, p) as int, byte_offset(t, p + q.len()) as int),
            ) || exists|k: int|
                0 <= k < matches_from(t, q, i).len() && (#[trigger] matches_from(t, q, i)[k]).0 < byte_offset(t, p)
                    < matches_from(t, q, i)[k].1,
    decreases t.len() - i,
{
    let m = matches_from(t, q, i);
    if i + q.len() > t.len() {
    } else if matches_at(t, q, i) {
        let j = i + q.len();
        lemma_matches_complete(t, q, j);
        let rest = matches_from(t, q, j);
        assert(m == seq![(byte_offset(t, i) as int, byte_offset(t, j) as int)] + rest);
        assert forall|p: int| i <= p && #[trigger] matches_at(t, q, p) implies m.contains(
            (byte_offset(t, p) as int, byte_offset(t, p + q.len()) as int),
        ) || exists|k: int| 0 <= k < m.len() && (#[trigger] m[k]).0 < byte_offset(t, p) < m[k].1 by {
            if p == i {
                assert(m[0] == (byte_offset(t, p) as int, byte_offset(t, p + q.len()) as int));
            } else if p < j {
                lemma_offset_monotonic(t, i, p);
                lemma_offset_monotonic(t, p, j);
                assert(m[0].0 < byte_offset(t, p) < m[0].1);
            } else {
                if rest.contains((byte_offset(t, p) as int, byte_offset(t, p + q.len()) as int)) {
                    let k = choose|k: int| 0 <= k < rest.len() && rest[k] == (byte_offset(t, p) as int, byte_offset(t, p + q.len()) as int);
                    assert(m[k + 1] == rest[k]);
                } else {
                    let k = choose|k: int| 0 <= k < rest.len() && (#[trigger] rest[k]).0 < byte_offset(t, p) < rest[k].1;
                    assert(m[k + 1] == rest[k]);
                }
            }
        }
    } else {
        lemma_matches_complete(t, q, i + 1);
        assert(m == matches_from(t, q, i + 1));
    }
}

/// `query` is found at character `p` of `text`: its characters equal the text's from `p`
/// on, ignoring ASCII case.
pub open spec fn query_found_at(text: Seq<char>, query: Seq<char>, p: int) -> bool {
    &&& 0 <= p
    &&& p + query.len() <= text.len()
    &&& forall|j: int| 0 <= j < query.len() ==> ascii_lower(#[trigger] text[p + j]) == ascii_lower(query[j])
}

/// `range` is the byte range of an occurrence of `query` in `text`.
pub open spec fn occurrence_range(text: Seq<char>, query: Seq<char>, range: (int, int)) -> bool {
    exists|p: int|
        #![trigger byte_offset(text, p)]
        query_found_at(text, query, p) && range == (byte_offset(text, p) as int, byte_offset(text, p + query.len()) as int)
}

/// Search reports every occurrence it can: each reported range is an occurrence of the
/// query (ignoring ASCII case), and every occurrence is either reported or starts inside an
/// earlier reported one. Adjacent occurrences, as in "abab" for "ab", are both reported.
pub proof fn law_search_reports_every_free_occurrence(text: Seq<char>, query: Seq<char>)
    requires
        query.len() > 0,
    ensures
        forall|k: int|
            0 <= k < matches_from(text, query, 0).len() ==> occurrence_range(
                text,
                query,
                #[trigger] matches_from(text, query, 0)[k],
            ),
        forall|p: int|
            #[trigger] query_found_at(text, query, p) ==> (matches_from(text, query, 0).contains(
                (byte_offset(text, p) as int, byte_offset(text, p + query.len()) as int),
            ) || exists|k: int|
                0 <= k < matches_from(text, query, 0).len() && (#[trigger] matches_from(text, query, 0)[k]).0
                    < byte_offset(text, p) < matches_from(text, query, 0)[k].1),
{
    lemma_matches_sound(text, query, 0);
    lemma_matches_complete(text, query, 0);
    let m = matches_from(text, query, 0);
    assert forall|k: int| 0 <= k < m.len() implies occurrence_range(text, query, #[trigger] m[k]) by {
        let p = choose|p: int|
            #![trigger byte_offset(text, p)]
            0 <= p && matches_at(text, query, p) && #[trigger] m[k] == (
                byte_offset(text, p) as int,
                byte_offset(text, p + query.len()) as int,
            );
        assert(query_found_at(text, query, p));
    }
    assert forall|p: int| #[trigger] query_found_at(text, query, p) implies (m.contains(
        (byte_offset(text, p) as int, byte_offset(text, p + query.len()) as int),
    ) || exists|k: int| 0 <= k < m.len() && (#[trigger] m[k]).0 < byte_offset(text, p) < m[k].1) by {
        assert(matches_at(text, query, p));
    }
}

pub open spec fn range_view(r: Seq<(usize, usize)>) -> Seq<(int, int)> {
    r.map_values(|p: (usize, usize)| (p.0 as int, p.1 as int))
}

/// Every ASCII-case-insensitive, non-overlapping occurrence of `query` in `text`, scanning
/// left to right. An empty query matches nothing.
pub fn find_matches(text: &str, query: &str) -> (found: Vec<(usize, usize)>)
    ensures
        range_view(found@) == matches_from(text@, query@, 0),
{
    let t = chars_of(text);
    let q = chars_of(query);
    utf8_len_fits(text);
    let mut found: Vec<(usize, usize)> = Vec::new();
    if q.len() == 0 {
        assert(range_view(found@) =~= matches_from(text@, query@, 0));
        return found;
    }
    proof {
        lemma_offset_bounds(t@, 0);
    }
    let mut i: usize = 0;
    let mut offset: usize = 0;
    let ghost total = byte_offset(t@, t@.len() as int);
    while i <= t.len() && q.len() <= t.len() - i
        invariant
            t@ == text@,
            q@ == query@,
            q.len() > 0,
            i <= t.len(),
            offset == byte_offset(t@, i as int),
            total == byte_offset(t@, t@.len() as int),
            total <= usize::MAX,
            range_view(found@) + matches_from(t@, q@, i as int) == matches_from(t@, q@, 0),
        decreases t.len() - i,
    {
        proof {
            lemma_offset_bounds(t@, i as int);
        }
        let mut k: usize = 0;
        let mut end: usize = offset;
        let mut all = true;
        while k < q.len()
            invariant
                i + q.len() <= t.len(),
                k <= q.len(),
                end == byte_offset(t@, i + k),
                total == byte_offset(t@, t@.len() as int),
                total <= usize::MAX,
                all == forall|m: int| 0 <= m < k ==> ascii_lower(#[trigger] t@[i + m]) == ascii_lower(q@[m]),
            decreases q.len() - k,
        {
            proof {
                lemma_offset_step(t@, i + k);
                lemma_offset_bounds(t@, i + k + 1);
            }
            if ascii_lower_exec(t[i + k]) != ascii_lower_exec(q[k]) {
                all = false;
            }
            end = end + utf8_width(t[i + k]);
            k += 1;
        }
        if all {
            assert(matches_at(t@, q@, i as int));
            found.push((offset, end));
            proof {
                assert(range_view(found@) =~= range_view(found@.drop_last()) + seq![(offset as int, end as int)]);
            }
            assert(range_view(found@) + matches_from(t@, q@, (i + q.len()) as int) =~= matches_from(t@, q@, 0));
            i = i + q.len();
            offset = end;
        } else {
            assert(!matches_at(t@, q@, i as int)) by {
                if matches_at(t@, q@, i as int) {
                    assert(all);
                }
            }
            proof {
                lemma_offset_step(t@, i as int);
                lemma_offset_bounds(t@, i + 1);
            }
            offset = offset + utf8_width(t[i]);
            i = i + 1;
        }
    }
    assert(range_view(found@) =~= matches_from(text@, query@, 0));
    found
}

// ---------------------------------------------------------------------------------------
// Cursor positions
// ---------------------------------------------------------------------------------------

/// One-based line and column after reading all of `s`; a newline starts a new line.
pub open spec fn line_col(s: Seq<char>) -> (int, int)
    decreases s.len(),
{
    if s.len() == 0 {
        (1, 1)
    } else {
        let (line, column) = line_col(s.drop_last());
        if s.last() == '\n' {
            (line + 1, 1)
        } else {
            (line, column + 1)
        }
    }
}

proof fn lemma_line_col_bounds(s: Seq<char>)
    ensures
        1 <= line_col(s).0 <= s.len() + 1,
        1 <= line_col(s).1 <= s.len() + 1,
    decreases s.len(),
{
    if s.len() > 0 {
        lemma_line_col_bounds(s.drop_last());
    }
}

/// A position given in bytes and the same position given in characters name the same line
/// and column: the only character index at the byte offset of character `i` is `i` itself,
/// so `line_column_at_byte` at that offset and `line_column` at `i` agree.
pub proof fn law_byte_and_char_positions_agree(t: Seq<char>, i: int, k: int)
    requires
        0 <= i <= t.len(),
        0 <= k <= t.len(),
        byte_offset(t, k) == byte_offset(t, i),
    ensures
        k == i,
        line_col(t.take(k)) == line_col(t.take(i)),
{
    if i < k {
        lemma_offset_monotonic(t, i, k);
    } else if k < i {
        lemma_offset_monotonic(t, k, i);
    }
}

/// Line and column (both one-based) of the cursor placed before character
/// `character_index` of `text`; an index past the end places it at the end.
pub fn line_column(text: &str, character_index: usize) -> (position: (usize, usize))
    requires
        text@.len() < usize::MAX,
    ensures
        position.0 as int == line_col(text@.take(vstd::math::min(character_index as int, text@.len() as int))).0,
        position.1 as int == line_col(text@.take(vstd::math::min(character_index as int, text@.len() as int))).1,
{
    let t = chars_of(text);
    let mut line: usize = 1;
    let mut column: usize = 1;
    let mut i: usize = 0;
    assert(t@.take(0) =~= Seq::<char>::empty());
    while i < t.len() && i < character_index
        invariant
            t@ == text@,
            t.len() < usize::MAX,
            i <= t.len(),
            i <= character_index,
            line as int == line_col(t@.take(i as int)).0,
            column as int == line_col(t@.take(i as int)).1,
        decreases t.len() - i,
    {
        proof {
            lemma_line_col_bounds(t@.take(i as int));
            assert(t@.take(i + 1).drop_last() =~= t@.take(i as int));
        }
        if t[i] == '\n' {
            line += 1;
            column = 1;
        } else {
            column += 1;
        }
        i += 1;
    }
    position_of(line, column)
}

fn position_of(line: usize, column: usize) -> (p: (usize, usize))
    ensures
        p == (line, column),
{
    (line, column)
}

/// Byte offset of character `character_index`, where the index one past the last character
/// maps to the text's length; `None` beyond that.
pub fn character_to_byte(text: &str, character_index: usize) -> (byte: Option<usize>)
    ensures
        character_index <= text@.len() ==> byte == Some(byte_offset(text@, character_index as int) as usize),
        character_index > text@.len() ==> byte is None,
{
    let t = chars_of(text);
    utf8_len_fits(text);
    if character_index > t.len() {
        return None;
    }
    let offset = byte_offset_exec(t.as_slice(), character_index);
    Some(offset)
}

/// Byte offset of character `k` of `t`.
pub fn byte_offset_exec(t: &[char], k: usize) -> (offset: usize)
    requires
        k <= t@.len(),
        byte_offset(t@, t@.len() as int) <= usize::MAX,
    ensures
        offset == byte_offset(t@, k as int),
{
    let mut i: usize = 0;
    let mut offset: usize = 0;
    assert(t@.take(0) =~= Seq::<char>::empty());
    while i < k
        invariant
            k <= t@.len(),
            i <= k,
            offset == byte_offset(t@, i as int),
            byte_offset(t@, t@.len() as int) <= usize::MAX,
        decreases k - i,
    {
        proof {
            lemma_offset_step(t@, i as int);
            lemma_offset_bounds(t@, i + 1);
        }
        offset = offset + utf8_width(t[i]);
        i += 1;
    }
    offset
}

/// Character index whose byte offset is `byte`, if `byte` falls on a character boundary.
pub fn char_index_at_byte(t: &[char], byte: usize) -> (k: Option<usize>)
    requires
        byte_offset(t@, t@.len() as int) <= usize::MAX,
    ensures
        match k {
            Some(k) => k <= t@.len() && byte_offset(t@, k as int) == byte,
            None => forall|j: int| 0 <= j <= t@.len() ==> byte_offset(t@, j) != byte,
        },
{
    let mut i: usize = 0;
    let mut offset: usize = 0;
    assert(t@.take(0) =~= Seq::<char>::empty());
    while i < t.len() && offset < byte
        invariant
            i <= t@.len(),
            offset == byte_offset(t@, i as int),
            byte_offset(t@, t@.len() as int) <= usize::MAX,
            forall|j: int| 0 <= j < i ==> byte_offset(t@, j) < byte,
        decreases t.len() - i,
    {
        proof {
            lemma_offset_step(t@, i as int);
            lemma_offset_bounds(t@, i + 1);
        }
        offset = offset + utf8_width(t[i]);
        i += 1;
    }
    if offset == byte {
        Some(i)
    } else {
        proof {
            assert forall|j: int| 0 <= j <= t@.len() implies byte_offset(t@, j) != byte by {
                if j > i {
                    lemma_offset_monotonic(t@, i as int, j);
                }
            }
        }
        None
    }
}

/// Line and column (both one-based) of the cursor at byte `byte` of `text`.
pub fn line_column_at_byte(text: &str, byte: usize) -> (position: (usize, usize))
    requires
        exists|k: int| 0 <= k <= text@.len() && byte_offset(text@, k) == byte,
        text@.len() < usize::MAX,
    ensures
        forall|k: int|
            0 <= k <= text@.len() && byte_offset(text@, k) == byte ==> position.0 as int
                == line_col(text@.take(k)).0 && position.1 as int == line_col(text@.take(k)).1,
{
    let t = chars_of(text);
    proof {
        lemma_offset_bounds(t@, 0);
        let k = choose|k: int| 0 <= k <= text@.len() && byte_offset(text@, k) == byte;
        lemma_offset_bounds(t@, k);
    }
    utf8_len_fits(text);
    let k = char_index_at_byte(t.as_slice(), byte);
    let k = match k {
        Some(k) => k,
        None => 0,
    };
    proof {
        assert forall|j: int| 0 <= j <= text@.len() && byte_offset(text@, j) == byte implies j == k by {
            if j < k {
                lemma_offset_monotonic(t@, j, k as int);
            } else if j > k {
                lemma_offset_monotonic(t@, k as int, j);
            }
        }
    }
    line_column(text, k)
}

} // verus!

verus! {

// ---------------------------------------------------------------------------------------
// Syntax tokens
// ---------------------------------------------------------------------------------------

/// What a run of JSON text is, for syntax colouring.
#[derive(Clone, Copy, Debug, PartialEq, Eq, Structural)]
pub enum JsonTokenKind {
    Default,
    Key,
    String,
    Number,
    Literal,
}

pub open spec fn is_digit(c: char) -> bool {
    '0' <= c <= '9'
}

pub open spec fn is_number_char(c: char) -> bool {
    is_digit(c) || c == '.' || c == 'e' || c == 'E' || c == '+' || c == '-'
}

/// `w` occurs in `t` at character index `i`.
pub open spec fn occurs_at(t: Seq<char>, i: int, w: Seq<char>) -> bool {
    0 <= i && i + w.len() <= t.len() && t.subrange(i, i + w.len()) == w
}

/// Length of the literal `true`, `false` or `null` starting at `i`, or 0.
pub open spec fn literal_len(t: Seq<char>, i: int) -> int {
    if occurs_at(t, i, seq!['t', 'r', 'u', 'e']) {
        4
    } else if occurs_at(t, i, seq!['f', 'a', 'l', 's', 'e']) {
        5
    } else if occurs_at(t, i, seq!['n', 'u', 'l', 'l']) {
        4
    } else {
        0
    }
}

/// End (exclusive) of a string body scanned from `j`, after its closing quote; an
/// unterminated string runs to the end of the text.
pub open spec fn string_end(t: Seq<char>, j: int, escaped: bool) -> int
    decreases t.len() - j,
{
    if j < 0 || j >= t.len() {
        t.len() as int
    } else if escaped {
        string_end(t, j + 1, false)
    } else if t[j] == '\\' {
        string_end(t, j + 1, true)
    } else if t[j] == '"' {
        j + 1
    } else {
        string_end(t, j + 1, false)
    }
}

/// First index at or after `j` that is not ASCII whitespace.
pub open spec fn skip_whitespace(t: Seq<char>, j: int) -> int
    decreases t.len() - j,
{
    if j < 0 || j >= t.len() || !is_ascii_whitespace(t[j]) {
        j
    } else {
        skip_whitespace(t, j + 1)
    }
}

/// End of a run of number characters starting at `j`.
pub open spec fn number_end(t: Seq<char>, j: int) -> int
    decreases t.len() - j,
{
    if j < 0 || j >= t.len() || !is_number_char(t[j]) {
        j
    } else {
        number_end(t, j + 1)
    }
}

/// Where a token other than a string, number or literal may start.
pub open spec fn starts_special(t: Seq<char>, j: int) -> bool {
    t[j] == '"' || t[j] == '-' || is_digit(t[j]) || literal_len(t, j) > 0
}

/// End of a run of plain text starting at `j`: it stops before a quote, a minus sign, a digit
/// or a literal.
pub open spec fn default_end(t: Seq<char>, j: int) -> int
    decreases t.len() - j,
{
    if j < 0 || j >= t.len() || starts_special(t, j) {
        j
    } else {
        default_end(t, j + 1)
    }
}

/// End and kind of the token that starts at character `i`.
pub open spec fn token_at(t: Seq<char>, i: int) -> (int, JsonTokenKind) {
    if t[i] == '"' {
        let end = string_end(t, i + 1, false);
        let next = skip_whitespace(t, end);
        if next < t.len() && t[next] == ':' {
            (end, JsonTokenKind::Key)
        } else {
            (end, JsonTokenKind::String)
        }
    } else if t[i] == '-' || is_digit(t[i]) {
        (number_end(t, i + 1), JsonTokenKind::Number)
    } else if literal_len(t, i) > 0 {
        (i + literal_len(t, i), JsonTokenKind::Literal)
    } else {
        (default_end(t, i + 1), JsonTokenKind::Default)
    }
}

/// The tokens of `t` from character `i` on, as byte ranges with their kinds.
pub open spec fn tokens_from(t: Seq<char>, i: int) -> Seq<(int, int, JsonTokenKind)>
    decreases t.len() - i,
{
    if i < 0 || i >= t.len() {
        Seq::empty()
    } else {
        let (end, kind) = token_at(t, i);
        if end <= i || end > t.len() {
            Seq::empty()
        } else {
            seq![(byte_offset(t, i) as int, byte_offset(t, end) as int, kind)] + tokens_from(
                t,
                end,
            )
        }
    }
}

pub open spec fn token_view(r: Seq<(usize, usize, JsonTokenKind)>) -> Seq<(int, int, JsonTokenKind)> {
    r.map_values(|p: (usize, usize, JsonTokenKind)| (p.0 as int, p.1 as int, p.2))
}

proof fn lemma_string_end_bounds(t: Seq<char>, j: int, escaped: bool)
    requires
        0 <= j,
    ensures
        j <= string_end(t, j, escaped) <= t.len() || (j > t.len() && string_end(t, j, escaped) == t.len()),
        j <= t.len() ==> j <= string_end(t, j, escaped) <= t.len(),
    decreases t.len() - j,
{
    if j < t.len() {
        lemma_string_end_bounds(t, j + 1, !escaped && t[j] == '\\');
    }
}

proof fn lemma_skip_bounds(t: Seq<char>, j: int)
    requires
        0 <= j <= t.len(),
    ensures
        j <= skip_whitespace(t, j) <= t.len(),
    decreases t.len() - j,
{
    if j < t.len() && is_ascii_whitespace(t[j]) {
        lemma_skip_bounds(t, j + 1);
    }
}

proof fn lemma_number_bounds(t: Seq<char>, j: int)
    requires
        0 <= j <= t.len(),
    ensures
        j <= number_end(t, j) <= t.len(),
    decreases t.len() - j,
{
    if j < t.len() && is_number_char(t[j]) {
        lemma_number_bounds(t, j + 1);
    }
}

proof fn lemma_default_bounds(t: Seq<char>, j: int)
    requires
        0 <= j <= t.len(),
    ensures
        j <= default_end(t, j) <= t.len(),
    decreases t.len() - j,
{
    if j < t.len() && !starts_special(t, j) {
        lemma_default_bounds(t, j + 1);
    }
}

proof fn lemma_token_progress(t: Seq<char>, i: int)
    requires
        0 <= i < t.len(),
    ensures
        i < token_at(t, i).0 <= t.len(),
{
    lemma_string_end_bounds(t, i + 1, false);
    lemma_number_bounds(t, i + 1);
    lemma_default_bounds(t, i + 1);
}

fn occurs_at_exec(t: &[char], i: usize, w: &[char]) -> (r: bool)
    requires
        i <= t@.len(),
    ensures
        r == occurs_at(t@, i as int, w@),
{
    let tl = t.len();
    if w.len() > tl - i {
        return false;
    }
    let mut k: usize = 0;
    while k < w.len()
        invariant
            tl == t@.len(),
            i + w@.len() <= t@.len(),
            k <= w@.len(),
            forall|m: int| 0 <= m < k ==> t@[i + m] == w@[m],
        decreases w.len() - k,
    {
        if t[i + k] != w[k] {
            assert(t@.subrange(i as int, i + w@.len())[k as int] != w@[k as int]);
            return false;
        }
        k += 1;
    }
    assert(t@.subrange(i as int, i + w@.len()) =~= w@);
    true
}

fn literal_len_exec(t: &[char], i: usize) -> (n: usize)
    requires
        i <= t@.len(),
    ensures
        n == literal_len(t@, i as int),
{
    let tru = ['t', 'r', 'u', 'e'];
    let fals = ['f', 'a', 'l', 's', 'e'];
    let nul = ['n', 'u', 'l', 'l'];
    assert(tru@ =~= seq!['t', 'r', 'u', 'e']);
    assert(fals@ =~= seq!['f', 'a', 'l', 's', 'e']);
    assert(nul@ =~= seq!['n', 'u', 'l', 'l']);
    if occurs_at_exec(t, i, &tru) {
        4
    } else if occurs_at_exec(t, i, &fals) {
        5
    } else if occurs_at_exec(t, i, &nul) {
        4
    } else {
        0
    }
}

fn is_digit_exec(c: char) -> (r: bool)
    ensures
        r == is_digit(c),
{
    '0' <= c && c <= '9'
}

/// Splits `text` into syntax tokens that cover it from start to end: keys (strings followed
/// by a colon), other strings, numbers, the literals `true`, `false` and `null`, and the
/// plain text between them.
pub fn json_tokens(text: &str) -> (tokens: Vec<(usize, usize, JsonTokenKind)>)
    ensures
        token_view(tokens@) == tokens_from(text@, 0),
{
    let t = chars_of(text);
    utf8_len_fits(text);
    let n = t.len();
    let mut tokens: Vec<(usize, usize, JsonTokenKind)> = Vec::new();
    let mut i: usize = 0;
    let mut offset: usize = 0;
    assert(t@.take(0) =~= Seq::<char>::empty());
    while i < n
        invariant
            t@ == text@,
            n == t@.len(),
            i <= n,
            offset == byte_offset(t@, i as int),
            byte_offset(t@, n as int) <= usize::MAX,
            token_view(tokens@) + tokens_from(t@, i as int) == tokens_from(t@, 0),
        decreases n - i,
    {
        proof {
            lemma_token_progress(t@, i as int);
        }
        let c = t[i];
        let mut j: usize;
        let kind: JsonTokenKind;
        if c == '"' {
            j = i + 1;
            let mut escaped = false;
            let mut done = false;
            while j < n && !done
                invariant
                    i < j <= n,
                    n == t@.len(),
                    done ==> string_end(t@, i + 1, false) == j,
                    !done ==> string_end(t@, j as int, escaped) == string_end(t@, i + 1, false),
                decreases n - j,
            {
                let b = t[j];
                j += 1;
                if escaped {
                    escaped = false;
                } else if b == '\\' {
                    escaped = true;
                } else if b == '"' {
                    done = true;
                }
            }
            let mut next = j;
            proof {
                lemma_skip_bounds(t@, j as int);
            }
            while next < n && (t[next] == ' ' || t[next] == '\t' || t[next] == '\n' || t[next] == '\x0C' || t[next] == '\r')
                invariant
                    j <= next <= n,
                    n == t@.len(),
                    skip_whitespace(t@, next as int) == skip_whitespace(t@, j as int),
                decreases n - next,
            {
                next += 1;
            }
            if next < n && t[next] == ':' {
                kind = JsonTokenKind::Key;
            } else {
                kind = JsonTokenKind::String;
            }
        } else if c == '-' || is_digit_exec(c) {
            j = i + 1;
            while j < n && (is_digit_exec(t[j]) || t[j] == '.' || t[j] == 'e' || t[j] == 'E' || t[j] == '+' || t[j] == '-')
                invariant
                    i < j <= n,
                    n == t@.len(),
                    number_end(t@, j as int) == number_end(t@, i + 1),
                decreases n - j,
            {
                j += 1;
            }
            kind = JsonTokenKind::Number;
        } else {
            let lit = literal_len_exec(t.as_slice(), i);
            if lit > 0 {
                j = i + lit;
                kind = JsonTokenKind::Literal;
            } else {
                j = i + 1;
                while j < n && !(t[j] == '"' || t[j] == '-' || is_digit_exec(t[j]) || literal_len_exec(t.as_slice(), j) > 0)
                    invariant
                        i < j <= n,
                        n == t@.len(),
                        default_end(t@, j as int) == default_end(t@, i + 1),
                    decreases n - j,
                {
                    j += 1;
                }
                kind = JsonTokenKind::Default;
            }
        }
        assert(j as int == token_at(t@, i as int).0);
        assert(kind == token_at(t@, i as int).1);
        let start = offset;
        let mut k = i;
        while k < j
            invariant
                i <= k <= j <= n,
                n == t@.len(),
                offset == byte_offset(t@, k as int),
                byte_offset(t@, n as int) <= usize::MAX,
            decreases j - k,
        {
            proof {
                lemma_offset_step(t@, k as int);
                lemma_offset_bounds(t@, k + 1);
            }
            offset = offset + utf8_width(t[k]);
            k += 1;
        }
        tokens.push((start, offset, kind));
        proof {
            assert(token_view(tokens@) =~= token_view(tokens@.drop_last()) + seq![(start as int, offset as int, kind)]);
        }
        assert(token_view(tokens@) + tokens_from(t@, j as int) =~= tokens_from(t@, 0));
        i = j;
    }
    assert(token_view(tokens@) =~= tokens_from(t@, 0));
    tokens
}

} // verus!

verus! {

// ---------------------------------------------------------------------------------------
// Foldable sections
// ---------------------------------------------------------------------------------------

/// A `{ … }` or `[ … ]` section that spans more than one line and can be folded.
///
/// `id` is the section's path of child positions among the sections of the document, which
/// survives edits elsewhere in the text better than a byte offset does.
#[derive(Clone, Debug, PartialEq, Eq)]
pub struct FoldRegion {
    pub id: Vec<usize>,
    pub open_byte: usize,
    pub close_byte: usize,
    pub open_line: usize,
}

/// Mathematical value of a [`FoldRegion`].
pub struct RegionView {
    pub id: Seq<int>,
    pub open_byte: int,
    pub close_byte: int,
    pub open_line: int,
}

pub open spec fn id_view(id: Seq<usize>) -> Seq<int> {
    id.map_values(|x: usize| x as int)
}

impl FoldRegion {
    pub open spec fn region_view(&self) -> RegionView {
        RegionView {
            id: id_view(self.id@),
            open_byte: self.open_byte as int,
            close_byte: self.close_byte as int,
            open_line: self.open_line as int,
        }
    }
}

pub open spec fn regions_view(r: Seq<FoldRegion>) -> Seq<RegionView> {
    r.map_values(|x: FoldRegion| x.region_view())
}

/// A section that has been opened and not yet closed while scanning.
pub struct OpenView {
    pub delim: char,
    pub ch: int,
    pub line: int,
    pub id: Seq<int>,
    pub next_child: int,
    pub slot: int,
}

/// The scanner's state: open sections, one slot per opened section in opening order (filled
/// when it closes across lines), the next top-level index, the current line, and whether
/// the scan is inside a string and just after a backslash there.
pub struct ScanView {
    pub stack: Seq<OpenView>,
    pub slots: Seq<Option<RegionView>>,
    pub root: int,
    pub line: int,
    pub in_string: bool,
    pub escaped: bool,
}

pub open spec fn scan_start() -> ScanView {
    ScanView {
        stack: Seq::empty(),
        slots: Seq::empty(),
        root: 0,
        line: 1,
        in_string: false,
        escaped: false,
    }
}

pub open spec fn open_section(s: ScanView, c: char, i: int) -> ScanView {
    let slot = s.slots.len() as int;
    if s.stack.len() > 0 {
        let parent = s.stack.last();
        let id = parent.id.push(parent.next_child);
        let parent2 = OpenView { next_child: parent.next_child + 1, ..parent };
        let opened = OpenView { delim: c, ch: i, line: s.line, id, next_child: 0, slot };
        ScanView {
            stack: s.stack.drop_last().push(parent2).push(opened),
            slots: s.slots.push(None),
            ..s
        }
    } else {
        let opened = OpenView { delim: c, ch: i, line: s.line, id: seq![s.root], next_child: 0, slot };
        ScanView {
            stack: s.stack.push(opened),
            slots: s.slots.push(None),
            root: s.root + 1,
            ..s
        }
    }
}

pub open spec fn close_section(s: ScanView, t: Seq<char>, i: int) -> ScanView {
    let expected = if t[i] == '}' { '{' } else { '[' };
    if s.stack.len() > 0 && s.stack.last().delim == expected {
        let o = s.stack.last();
        let slots = if s.line > o.line {
            s.slots.update(
                o.slot,
                Some(
                    RegionView {
                        id: o.id,
                        open_byte: byte_offset(t, o.ch) as int,
                        close_byte: byte_offset(t, i) as int,
                        open_line: o.line,
                    },
                ),
            )
        } else {
            s.slots
        };
        ScanView { stack: s.stack.drop_last(), slots, ..s }
    } else {
        s
    }
}

/// Reads character `i` of `t`: quotes and backslashes drive the string state, brackets
/// outside strings open and close sections, and a newline advances the line.
pub open spec fn scan_step(s: ScanView, t: Seq<char>, i: int) -> ScanView {
    let c = t[i];
    let s1 = if s.in_string {
        if s.escaped {
            ScanView { escaped: false, ..s }
        } else if c == '\\' {
            ScanView { escaped: true, ..s }
        } else if c == '"' {
            ScanView { in_string: false, ..s }
        } else {
            s
        }
    } else if c == '"' {
        ScanView { in_string: true, ..s }
    } else if c == '{' || c == '[' {
        open_section(s, c, i)
    } else if c == '}' || c == ']' {
        close_section(s, t, i)
    } else {
        s
    };
    if c == '\n' {
        ScanView { line: s1.line + 1, ..s1 }
    } else {
        s1
    }
}

/// The scanner's state after reading the first `n` characters of `t`.
pub open spec fn scan(t: Seq<char>, n: int) -> ScanView
    decreases n,
{
    if n <= 0 {
        scan_start()
    } else {
        scan_step(scan(t, n - 1), t, n - 1)
    }
}

/// The filled slots, in order.
pub open spec fn filled(slots: Seq<Option<RegionView>>) -> Seq<RegionView>
    decreases slots.len(),
{
    if slots.len() == 0 {
        Seq::empty()
    } else {
        let rest = filled(slots.drop_last());
        match slots.last() {
            Some(r) => rest.push(r),
            None => rest,
        }
    }
}

/// The foldable sections of `t`, ordered by where they open.
pub open spec fn spec_fold_regions(t: Seq<char>) -> Seq<RegionView> {
    filled(scan(t, t.len() as int).slots)
}

struct OpenSection {
    delimiter: char,
    ch: usize,
    byte: usize,
    line: usize,
    id: Vec<usize>,
    next_child: usize,
    slot: usize,
}

impl OpenSection {
    spec fn open_view(&self) -> OpenView {
        OpenView {
            delim: self.delimiter,
            ch: self.ch as int,
            line: self.line as int,
            id: id_view(self.id@),
            next_child: self.next_child as int,
            slot: self.slot as int,
        }
    }
}

spec fn stack_view(s: Seq<OpenSection>) -> Seq<OpenView> {
    s.map_values(|o: OpenSection| o.open_view())
}

spec fn slots_view(s: Seq<Option<FoldRegion>>) -> Seq<Option<RegionView>> {
    s.map_values(
        |o: Option<FoldRegion>|
            match o {
                Some(r) => Some(r.region_view()),
                None => None,
            },
    )
}

/// Everything in the scanner state stays below the number of characters read.
spec fn scan_bounded(s: ScanView, t: Seq<char>, n: int) -> bool {
    &&& 0 <= s.root <= n
    &&& 1 <= s.line <= n + 1
    &&& s.slots.len() <= n
    &&& forall|k: int|
        0 <= k < s.stack.len() ==> {
            &&& 0 <= #[trigger] s.stack[k].ch < n
            &&& 0 <= s.stack[k].next_child <= n
            &&& 0 <= s.stack[k].slot < s.slots.len()
            &&& forall|m: int| 0 <= m < s.stack[k].id.len() ==> 0 <= #[trigger] s.stack[k].id[m] <= n
        }
}

#[verifier::spinoff_prover]
#[verifier::rlimit(30)]
proof fn lemma_step_bounded(s: ScanView, t: Seq<char>, i: int)
    requires
        0 <= i < t.len(),
        scan_bounded(s, t, i),
    ensures
        scan_bounded(scan_step(s, t, i), t, i + 1),
{
    let c = t[i];
    let n = i + 1;
    if !s.in_string && (c == '{' || c == '[') {
        let s2 = open_section(s, c, i);
        assert forall|k: int| 0 <= k < s2.stack.len() implies {
            &&& 0 <= #[trigger] s2.stack[k].ch < n
            &&& 0 <= s2.stack[k].next_child <= n
            &&& 0 <= s2.stack[k].slot < s2.slots.len()
            &&& forall|m: int| 0 <= m < s2.stack[k].id.len() ==> 0 <= #[trigger] s2.stack[k].id[m] <= n
        } by {
            if s.stack.len() > 0 {
                let p = s.stack[s.stack.len() - 1];
                assert(0 <= p.ch < i);
                if k == s.stack.len() {
                    assert forall|m: int| 0 <= m < s2.stack[k].id.len() implies 0 <= #[trigger] s2.stack[k].id[m] <= n by {
                        if m < p.id.len() {
                            assert(s2.stack[k].id[m] == p.id[m]);
                        }
                    }
                } else if k == s.stack.len() - 1 {
                    assert(s2.stack[k].id == s.stack[k].id);
                } else {
                    assert(s2.stack[k] == s.stack[k]);
                }
            } else {
                assert(k == 0);
            }
        }
        assert(scan_bounded(s2, t, n));
    } else if !s.in_string && (c == '}' || c == ']') {
        let s2 = close_section(s, t, i);
        assert forall|k: int| 0 <= k < s2.stack.len() implies {
            &&& 0 <= #[trigger] s2.stack[k].ch < n
            &&& 0 <= s2.stack[k].next_child <= n
            &&& 0 <= s2.stack[k].slot < s2.slots.len()
            &&& forall|m: int| 0 <= m < s2.stack[k].id.len() ==> 0 <= #[trigger] s2.stack[k].id[m] <= n
        } by {
            assert(s2.stack[k] == s.stack[k]);
        }
        assert(scan_bounded(s2, t, n));
    } else {
        assert forall|k: int| 0 <= k < s.stack.len() implies {
            &&& 0 <= #[trigger] s.stack[k].ch < n
            &&& 0 <= s.stack[k].next_child <= n
            &&& 0 <= s.stack[k].slot < s.slots.len()
            &&& forall|m: int| 0 <= m < s.stack[k].id.len() ==> 0 <= #[trigger] s.stack[k].id[m] <= n
        } by {
            assert(0 <= s.stack[k].ch < i);
        }
    }
}

proof fn lemma_scan_bounded(t: Seq<char>, n: int)
    requires
        0 <= n <= t.len(),
    ensures
        scan_bounded(scan(t, n), t, n),
    decreases n,
{
    if n > 0 {
        lemma_scan_bounded(t, n - 1);
        lemma_step_bounded(scan(t, n - 1), t, n - 1);
    }
}

pub(crate) fn copy_id(id: &Vec<usize>) -> (r: Vec<usize>)
    ensures
        r@ == id@,
{
    let mut r: Vec<usize> = Vec::new();
    let mut i: usize = 0;
    while i < id.len()
        invariant
            i <= id.len(),
            r@ == id@.take(i as int),
        decreases id.len() - i,
    {
        r.push(id[i]);
        i += 1;
        assert(r@ =~= id@.take(i as int));
    }
    assert(id@.take(id.len() as int) =~= id@);
    r
}

/// The foldable sections of `text`: every `{`/`[` outside a string whose matching closer
/// (also outside strings) is on a later line, ordered by where the section opens. A closer
/// that does not match the innermost open section is ignored.
pub fn fold_regions(text: &str) -> (regions: Vec<FoldRegion>)
    requires
        text@.len() < usize::MAX,
    ensures
        regions_view(regions@) == spec_fold_regions(text@),
{
    let t = chars_of(text);
    utf8_len_fits(text);
    let n = t.len();
    let mut stack: Vec<OpenSection> = Vec::new();
    let mut slots: Vec<Option<FoldRegion>> = Vec::new();
    let mut root_index: usize = 0;
    let mut line: usize = 1;
    let mut in_string = false;
    let mut escaped = false;
    let mut i: usize = 0;
    let mut offset: usize = 0;
    proof {
        assert(t@.take(0) =~= Seq::<char>::empty());
        assert(stack_view(stack@) =~= Seq::<OpenView>::empty());
        assert(slots_view(slots@) =~= Seq::<Option<RegionView>>::empty());
        lemma_offset_bounds(t@, 0);
    }
    while i < n
        invariant
            t@ == text@,
            n == t@.len(),
            i <= n,
            offset == byte_offset(t@, i as int),
            byte_offset(t@, n as int) <= usize::MAX,
            n < usize::MAX,
            ({
                let s = scan(t@, i as int);
                &&& stack_view(stack@) == s.stack
                &&& slots_view(slots@) == s.slots
                &&& root_index == s.root
                &&& line == s.line
                &&& in_string == s.in_string
                &&& escaped == s.escaped
            }),
            forall|k: int| 0 <= k < stack@.len() ==> (#[trigger] stack@[k]).byte == byte_offset(t@, stack@[k].ch as int),
        decreases n - i,
    {
        proof {
            lemma_scan_bounded(t@, i as int);
            lemma_offset_bounds(t@, i as int);
            lemma_offset_step(t@, i as int);
            lemma_offset_bounds(t@, i + 1);
        }
        let ghost s = scan(t@, i as int);
        let c = t[i];
        if in_string {
            if escaped {
                escaped = false;
            } else if c == '\\' {
                escaped = true;
            } else if c == '"' {
                in_string = false;
            }
        } else if c == '"' {
            in_string = true;
        } else if c == '{' || c == '[' {
            let slot = slots.len();
            let id: Vec<usize>;
            if stack.len() > 0 {
                let mut parent = stack.pop().unwrap();
                let ghost pv = s.stack.last();
                assert(parent.open_view() == pv);
                assert(s.stack[s.stack.len() - 1].ch < i);
                let child = parent.next_child;
                let mut new_id = copy_id(&parent.id);
                new_id.push(child);
                parent.next_child = child + 1;
                stack.push(parent);
                id = new_id;
                assert(id_view(id@) =~= pv.id.push(pv.next_child));
            } else {
                id = vec![root_index];
                assert(id_view(id@) =~= seq![s.root]);
                root_index += 1;
            }
            stack.push(OpenSection { delimiter: c, ch: i, byte: offset, line, id, next_child: 0, slot });
            slots.push(None);
            proof {
                let s2 = open_section(s, c, i as int);
                assert(stack_view(stack@) =~= s2.stack);
                assert(slots_view(slots@) =~= s2.slots);
            }
        } else if c == '}' || c == ']' {
            let expected = if c == '}' { '{' } else { '[' };
            if stack.len() > 0 && stack[stack.len() - 1].delimiter == expected {
                let open = stack.pop().unwrap();
                assert(open.open_view() == s.stack.last());
                if line > open.line {
                    let region = FoldRegion {
                        id: open.id,
                        open_byte: open.byte,
                        close_byte: offset,
                        open_line: open.line,
                    };
                    slots.set(open.slot, Some(region));
                }
                proof {
                    let s2 = close_section(s, t@, i as int);
                    assert(stack_view(stack@) =~= s2.stack);
                    assert(slots_view(slots@) =~= s2.slots);
                }
            }
        }
        if c == '\n' {
            line += 1;
        }
        offset = offset + utf8_width(c);
        i += 1;
        proof {
            assert(scan(t@, i as int) == scan_step(s, t@, i - 1));
        }
    }
    collect_filled(&slots)
}

fn copy_region(r: &FoldRegion) -> (c: FoldRegion)
    ensures
        c.region_view() == r.region_view(),
{
    FoldRegion { id: copy_id(&r.id), open_byte: r.open_byte, close_byte: r.close_byte, open_line: r.open_line }
}

fn collect_filled(slots: &Vec<Option<FoldRegion>>) -> (regions: Vec<FoldRegion>)
    ensures
        regions_view(regions@) == filled(slots_view(slots@)),
{
    let mut regions: Vec<FoldRegion> = Vec::new();
    let mut i: usize = 0;
    assert(slots_view(slots@).take(0) =~= Seq::<Option<RegionView>>::empty());
    while i < slots.len()
        invariant
            i <= slots.len(),
            regions_view(regions@) == filled(slots_view(slots@).take(i as int)),
        decreases slots.len() - i,
    {
        assert(slots_view(slots@).take(i + 1).drop_last() =~= slots_view(slots@).take(i as int));
        match &slots[i] {
            Some(r) => {
                regions.push(copy_region(r));
                assert(regions_view(regions@) =~= regions_view(regions@.drop_last()).push(r.region_view()));
            }
            None => {}
        }
        i += 1;
    }
    assert(slots_view(slots@).take(slots.len() as int) =~= slots_view(slots@));
    regions
}

} // verus!

verus! {

// ---------------------------------------------------------------------------------------
// Folded view
// ---------------------------------------------------------------------------------------

/// What a folded section shows in place of its hidden contents: " … ".
pub open spec fn placeholder_chars() -> Seq<char> {
    seq![' ', '\u{2026}', ' ']
}

/// A run of the folded view copied verbatim from the source.
#[derive(Debug)]
pub struct ProjectionCopy {
    pub display: core::ops::Range<usize>,
    pub source: core::ops::Range<usize>,
}

/// A placeholder in the folded view standing for hidden source text.
#[derive(Debug)]
pub struct ProjectionPlaceholder {
    pub display: core::ops::Range<usize>,
    pub source: core::ops::Range<usize>,
    pub id: Vec<usize>,
}

/// Why an edit of the folded view could not be carried into the source.
#[derive(Debug)]
pub enum ProjectionEditError {
    /// The edit touched the placeholder of this folded section.
    Hidden(Vec<usize>),
    /// An edit boundary does not correspond to a source position.
    InvalidMapping,
}

/// The document as shown with some sections folded: the shown text, and how its byte
/// ranges correspond to byte ranges of the source.
pub struct FoldProjection {
    text: String,
    copies: Vec<ProjectionCopy>,
    placeholders: Vec<ProjectionPlaceholder>,
}

pub open spec fn copy_view(c: ProjectionCopy) -> (int, int, int, int) {
    (c.display.start as int, c.display.end as int, c.source.start as int, c.source.end as int)
}

pub open spec fn holder_view(p: ProjectionPlaceholder) -> (int, int, int, int, Seq<int>) {
    (
        p.display.start as int,
        p.display.end as int,
        p.source.start as int,
        p.source.end as int,
        id_view(p.id@),
    )
}

pub open spec fn copies_view(c: Seq<ProjectionCopy>) -> Seq<(int, int, int, int)> {
    c.map_values(|x: ProjectionCopy| copy_view(x))
}

pub open spec fn holders_view(p: Seq<ProjectionPlaceholder>) -> Seq<(int, int, int, int, Seq<int>)> {
    p.map_values(|x: ProjectionPlaceholder| holder_view(x))
}

/// A copy maps a display range onto a source range of the same length.
pub open spec fn copy_consistent(c: (int, int, int, int)) -> bool {
    0 <= c.0 <= c.1 && 0 <= c.2 <= c.3 && c.1 - c.0 == c.3 - c.2
}

/// Each copied run ends, in the folded view, before the next one starts: a placeholder
/// always stands between two runs.
pub open spec fn copies_ordered(c: Seq<ProjectionCopy>) -> bool {
    forall|a: int, b: int| 0 <= a < b < c.len() ==> #[trigger] copy_view(c[a]).1 < #[trigger] copy_view(c[b]).0
}

impl FoldProjection {
    #[verifier::type_invariant]
    spec fn consistent(&self) -> bool {
        &&& forall|k: int| 0 <= k < self.copies@.len() ==> copy_consistent(#[trigger] copy_view(self.copies@[k]))
        &&& copies_ordered(self.copies@)
    }

    pub closed spec fn view_text(&self) -> Seq<char> {
        self.text@
    }

    pub closed spec fn view_copies(&self) -> Seq<(int, int, int, int)> {
        copies_view(self.copies@)
    }

    pub closed spec fn view_placeholders(&self) -> Seq<(int, int, int, int, Seq<int>)> {
        holders_view(self.placeholders@)
    }

    /// The text shown in the folded view.
    pub fn text(&self) -> (t: &String)
        ensures
            t@ == self.view_text(),
    {
        &self.text
    }

    /// Replaces the shown text, as the editor does while the user types.
    pub fn set_text(&mut self, text: String)
        ensures
            final(self).view_text() == text@,
            final(self).view_copies() == old(self).view_copies(),
            final(self).view_placeholders() == old(self).view_placeholders(),
    {
        proof {
            use_type_invariant(&*self);
        }
        self.text = text;
    }

    /// The verbatim runs, in display order.
    pub fn copies(&self) -> (c: &[ProjectionCopy])
        ensures
            copies_view(c@) == self.view_copies(),
    {
        self.copies.as_slice()
    }

    /// The placeholders of folded sections, in display order.
    pub fn placeholders(&self) -> (p: &[ProjectionPlaceholder])
        ensures
            holders_view(p@) == self.view_placeholders(),
    {
        self.placeholders.as_slice()
    }
}

// --- which sections are shown folded -----------------------------------------------------

/// `folded` names `id`.
pub open spec fn is_folded(folded: Seq<Vec<usize>>, id: Seq<usize>) -> bool {
    exists|k: int| 0 <= k < folded.len() && (#[trigger] folded[k])@ == id
}

/// Indices of the regions whose id is folded, in the given order.
pub open spec fn selected(regions: Seq<FoldRegion>, folded: Seq<Vec<usize>>) -> Seq<int>
    decreases regions.len(),
{
    if regions.len() == 0 {
        Seq::empty()
    } else {
        let rest = selected(regions.drop_last(), folded);
        if is_folded(folded, regions.last().id@) {
            rest.push(regions.len() - 1)
        } else {
            rest
        }
    }
}

/// Inserts `x` into `s` after every index whose region opens no later.
pub open spec fn insert_by_open(s: Seq<int>, x: int, regions: Seq<FoldRegion>) -> Seq<int>
    decreases s.len(),
{
    if s.len() == 0 {
        seq![x]
    } else if regions[s.last()].open_byte <= regions[x].open_byte {
        s.push(x)
    } else {
        insert_by_open(s.drop_last(), x, regions).push(s.last())
    }
}

/// Stable sort of region indices by where the region opens.
pub open spec fn sort_by_open(s: Seq<int>, regions: Seq<FoldRegion>) -> Seq<int>
    decreases s.len(),
{
    if s.len() == 0 {
        Seq::empty()
    } else {
        insert_by_open(sort_by_open(s.drop_last(), regions), s.last(), regions)
    }
}

/// Keeps, in order, each region that starts after the last kept one has closed.
pub open spec fn outermost(s: Seq<int>, regions: Seq<FoldRegion>, k: int, hidden_until: int) -> Seq<int>
    decreases s.len() - k,
{
    if k < 0 || k >= s.len() {
        Seq::empty()
    } else {
        let r = regions[s[k]];
        if (r.open_byte as int) < hidden_until {
            outermost(s, regions, k + 1, hidden_until)
        } else {
            seq![s[k]] + outermost(s, regions, k + 1, r.close_byte + 1)
        }
    }
}

/// The folded sections that are shown as placeholders.
pub open spec fn shown_folds(regions: Seq<FoldRegion>, folded: Seq<Vec<usize>>) -> Seq<int> {
    outermost(sort_by_open(selected(regions, folded), regions), regions, 0, 0)
}

/// Every index is a region of the input whose id is folded.
pub open spec fn all_folded(s: Seq<int>, regions: Seq<FoldRegion>, folded: Seq<Vec<usize>>) -> bool {
    forall|k: int|
        0 <= k < s.len() ==> 0 <= #[trigger] s[k] < regions.len() && is_folded(folded, regions[s[k]].id@)
}

proof fn lemma_selected_folded(regions: Seq<FoldRegion>, folded: Seq<Vec<usize>>)
    ensures
        all_folded(selected(regions, folded), regions, folded),
    decreases regions.len(),
{
    if regions.len() > 0 {
        lemma_selected_folded(regions.drop_last(), folded);
        let rest = selected(regions.drop_last(), folded);
        assert forall|k: int| 0 <= k < rest.len() implies regions[rest[k]] == regions.drop_last()[rest[k]] by {}
    }
}

proof fn lemma_insert_folded(s: Seq<int>, x: int, regions: Seq<FoldRegion>, folded: Seq<Vec<usize>>)
    requires
        all_folded(s, regions, folded),
        0 <= x < regions.len(),
        is_folded(folded, regions[x].id@),
    ensures
        all_folded(insert_by_open(s, x, regions), regions, folded),
    decreases s.len(),
{
    if s.len() > 0 && !(regions[s.last()].open_byte <= regions[x].open_byte) {
        lemma_insert_folded(s.drop_last(), x, regions, folded);
    }
}

proof fn lemma_sort_folded(s: Seq<int>, regions: Seq<FoldRegion>, folded: Seq<Vec<usize>>)
    requires
        all_folded(s, regions, folded),
    ensures
        all_folded(sort_by_open(s, regions), regions, folded),
    decreases s.len(),
{
    if s.len() > 0 {
        lemma_sort_folded(s.drop_last(), regions, folded);
        lemma_insert_folded(sort_by_open(s.drop_last(), regions), s.last(), regions, folded);
    }
}

proof fn lemma_outermost_folded(s: Seq<int>, regions: Seq<FoldRegion>, folded: Seq<Vec<usize>>, k: int, h: int)
    requires
        all_folded(s, regions, folded),
        0 <= k,
    ensures
        all_folded(outermost(s, regions, k, h), regions, folded),
    decreases s.len() - k,
{
    if k < s.len() {
        let r = regions[s[k]];
        if (r.open_byte as int) < h {
            lemma_outermost_folded(s, regions, folded, k + 1, h);
        } else {
            lemma_outermost_folded(s, regions, folded, k + 1, r.close_byte + 1);
        }
    }
}

/// The shown folds are folded regions of the input.
proof fn lemma_shown_folds(regions: Seq<FoldRegion>, folded: Seq<Vec<usize>>)
    ensures
        all_folded(shown_folds(regions, folded), regions, folded),
{
    lemma_selected_folded(regions, folded);
    lemma_sort_folded(selected(regions, folded), regions, folded);
    lemma_outermost_folded(sort_by_open(selected(regions, folded), regions), regions, folded, 0, 0);
}

} // verus!

verus! {

/// `b` is the byte offset of a character boundary of `t` (the end counts).
pub open spec fn char_boundary(t: Seq<char>, b: int) -> bool {
    exists|k: int| 0 <= k <= t.len() && byte_offset(t, k) == b
}

/// The character index at byte boundary `b`.
pub open spec fn char_at(t: Seq<char>, b: int) -> int {
    choose|k: int| 0 <= k <= t.len() && byte_offset(t, k) == b
}

/// A folded region can be shown as a placeholder: its hidden text starts and ends on
/// character boundaries.
pub open spec fn cut_ok(t: Seq<char>, r: FoldRegion) -> bool {
    &&& char_boundary(t, r.open_byte + 1)
    &&& char_boundary(t, r.close_byte as int)
    &&& r.close_byte < usize::MAX
}

/// Region `r` opens at a bracket of `t` and closes at a character of `t`.
pub open spec fn region_in_text(t: Seq<char>, r: RegionView) -> bool {
    &&& exists|k: int|
        0 <= k < t.len() && (t[k] == '{' || t[k] == '[') && r.open_byte == byte_offset(t, k)
    &&& exists|i: int| 0 <= i < t.len() && r.close_byte == byte_offset(t, i)
    &&& r.open_byte < r.close_byte
}

/// What the scan keeps true of `t` after `n` characters: every open section starts at a
/// bracket already read, and every recorded region lies in `t`.
pub open spec fn scan_in_text(t: Seq<char>, s: ScanView, n: int) -> bool {
    &&& forall|j: int|
        0 <= j < s.stack.len() ==> 0 <= #[trigger] s.stack[j].ch < n && n <= t.len() && (t[s.stack[j].ch] == '{'
            || t[s.stack[j].ch] == '[') && 0 <= s.stack[j].slot < s.slots.len()
    &&& forall|j: int| 0 <= j < s.slots.len() ==> (#[trigger] s.slots[j] matches Some(r) ==> region_in_text(t, r))
}

proof fn lemma_scan_in_text(t: Seq<char>, n: int)
    requires
        0 <= n <= t.len(),
    ensures
        scan_in_text(t, scan(t, n), n),
    decreases n,
{
    if n > 0 {
        lemma_scan_in_text(t, n - 1);
        let s = scan(t, n - 1);
        let i = n - 1;
        let c = t[i];
        if !s.in_string && c != '"' && (c == '{' || c == '[') {
            let o = open_section(s, c, i);
            assert forall|j: int| 0 <= j < o.stack.len() implies 0 <= #[trigger] o.stack[j].ch < n && n <= t.len()
                && (t[o.stack[j].ch] == '{' || t[o.stack[j].ch] == '[') && 0 <= o.stack[j].slot < o.slots.len() by {
                if j < s.stack.len() {
                    assert(o.stack[j].ch == s.stack[j].ch && o.stack[j].slot == s.stack[j].slot);
                }
            }
            assert forall|j: int| 0 <= j < o.slots.len() implies (#[trigger] o.slots[j] matches Some(r)
                ==> region_in_text(t, r)) by {
                if j < s.slots.len() {
                    assert(o.slots[j] == s.slots[j]);
                }
            }
        } else if !s.in_string && c != '"' && (c == '}' || c == ']') {
            let o = close_section(s, t, i);
            let expected = if t[i] == '}' {
                '{'
            } else {
                '['
            };
            if s.stack.len() > 0 && s.stack.last().delim == expected {
                let top = s.stack.last();
                assert(0 <= top.ch < n && (t[top.ch] == '{' || t[top.ch] == '['));
                assert(0 <= top.slot < s.slots.len());
                assert(o.slots.len() == s.slots.len());
                assert forall|j: int| 0 <= j < o.stack.len() implies 0 <= #[trigger] o.stack[j].ch < n && n <= t.len()
                    && (t[o.stack[j].ch] == '{' || t[o.stack[j].ch] == '[') && 0 <= o.stack[j].slot < o.slots.len() by {
                    assert(o.stack[j] == s.stack[j]);
                }
                let rv = RegionView {
                    id: top.id,
                    open_byte: byte_offset(t, top.ch) as int,
                    close_byte: byte_offset(t, i) as int,
                    open_line: top.line,
                };
                lemma_offset_monotonic(t, top.ch, i);
                assert(region_in_text(t, rv));
                assert forall|j: int| 0 <= j < o.slots.len() implies (#[trigger] o.slots[j] matches Some(r)
                    ==> region_in_text(t, r)) by {
                    if s.line > top.line && j == top.slot {
                        assert(o.slots[j] == Some(rv));
                    } else {
                        assert(o.slots[j] == s.slots[j]);
                    }
                }
            }
        }
    }
}

proof fn lemma_filled_in_text(t: Seq<char>, slots: Seq<Option<RegionView>>)
    requires
        forall|j: int| 0 <= j < slots.len() ==> (#[trigger] slots[j] matches Some(r) ==> region_in_text(t, r)),
    ensures
        forall|m: int| 0 <= m < filled(slots).len() ==> region_in_text(t, #[trigger] filled(slots)[m]),
    decreases slots.len(),
{
    if slots.len() > 0 {
        let rest = slots.drop_last();
        assert forall|j: int| 0 <= j < rest.len() implies (#[trigger] rest[j] matches Some(r) ==> region_in_text(
            t,
            r,
        )) by {
            assert(rest[j] == slots[j]);
        }
        lemma_filled_in_text(t, rest);
        assert(slots.last() == slots[slots.len() - 1]);
        let f = filled(rest);
        match slots.last() {
            Some(r) => {
                assert(region_in_text(t, r));
                assert forall|m: int| 0 <= m < filled(slots).len() implies region_in_text(t, #[trigger] filled(slots)[m]) by {
                    if m < f.len() {
                        assert(filled(slots)[m] == f[m]);
                    }
                }
            },
            None => {},
        }
    }
}

/// Every section that `fold_regions` finds can be folded: its hidden text starts just after
/// its opening bracket and ends at its closing bracket, both on character boundaries, and
/// it closes after it opens. So any choice of found sections meets what
/// `FoldProjection::new` requires.
pub proof fn law_found_regions_can_be_folded(t: Seq<char>, regions: Seq<FoldRegion>)
    requires
        regions_view(regions) == spec_fold_regions(t),
        crate::text::utf8_len(t) <= usize::MAX,
    ensures
        forall|k: int| 0 <= k < regions.len() ==> cut_ok(t, #[trigger] regions[k]),
        forall|k: int| 0 <= k < regions.len() ==> (#[trigger] regions[k]).open_byte < regions[k].close_byte,
{
    lemma_scan_in_text(t, t.len() as int);
    lemma_filled_in_text(t, scan(t, t.len() as int).slots);
    assert forall|k: int| 0 <= k < regions.len() implies (#[trigger] regions[k]).open_byte < regions[k].close_byte by {
        assert(regions_view(regions)[k] == regions[k].region_view());
    }
    assert forall|k: int| 0 <= k < regions.len() implies cut_ok(t, #[trigger] regions[k]) by {
        let r = regions[k];
        assert(regions_view(regions)[k] == r.region_view());
        assert(region_in_text(t, r.region_view()));
        let a = choose|a: int| 0 <= a < t.len() && (t[a] == '{' || t[a] == '[') && r.open_byte == byte_offset(t, a);
        let i = choose|i: int| 0 <= i < t.len() && r.close_byte == byte_offset(t, i);
        lemma_offset_step(t, a);
        crate::text::lemma_char_width_range(t[a]);
        assert(byte_offset(t, a + 1) == r.open_byte + 1);
        lemma_offset_monotonic(t, i, t.len() as int);
        lemma_offset_bounds(t, t.len() as int);
    }
}

/// The folded view under construction: shown text, copies, placeholders, and the source
/// character up to which the source has been consumed.
pub struct ProjView {
    pub text: Seq<char>,
    pub copies: Seq<(int, int, int, int)>,
    pub holders: Seq<(int, int, int, int, Seq<int>)>,
    pub cursor: int,
}

pub open spec fn push_copy_spec(st: ProjView, t: Seq<char>, from: int, to: int) -> ProjView {
    if from >= to {
        st
    } else {
        let seg = t.subrange(from, to);
        ProjView {
            text: st.text + seg,
            copies: st.copies.push(
                (
                    crate::text::utf8_len(st.text) as int,
                    crate::text::utf8_len(st.text + seg) as int,
                    byte_offset(t, from) as int,
                    byte_offset(t, to) as int,
                ),
            ),
            ..st
        }
    }
}

pub open spec fn push_holder_spec(st: ProjView, r: FoldRegion) -> ProjView {
    ProjView {
        text: st.text + placeholder_chars(),
        holders: st.holders.push(
            (
                crate::text::utf8_len(st.text) as int,
                crate::text::utf8_len(st.text + placeholder_chars()) as int,
                r.open_byte + 1,
                r.close_byte as int,
                id_view(r.id@),
            ),
        ),
        ..st
    }
}

/// Lays out the folded view: source text up to each shown fold's opening bracket, its
/// placeholder, and so on, then the rest of the source.
pub open spec fn build(t: Seq<char>, regions: Seq<FoldRegion>, cuts: Seq<int>, k: int, st: ProjView) -> ProjView
    decreases cuts.len() - k,
{
    if k < 0 || k >= cuts.len() {
        push_copy_spec(st, t, st.cursor, t.len() as int)
    } else {
        let r = regions[cuts[k]];
        let st1 = push_copy_spec(st, t, st.cursor, char_at(t, r.open_byte + 1));
        let st2 = push_holder_spec(st1, r);
        build(t, regions, cuts, k + 1, ProjView { cursor: char_at(t, r.close_byte as int), ..st2 })
    }
}

pub open spec fn empty_view() -> ProjView {
    ProjView { text: Seq::empty(), copies: Seq::empty(), holders: Seq::empty(), cursor: 0 }
}

/// The folded view of `t` with the given regions folded.
pub open spec fn spec_projection(t: Seq<char>, regions: Seq<FoldRegion>, folded: Seq<Vec<usize>>) -> ProjView {
    build(t, regions, shown_folds(regions, folded), 0, empty_view())
}

proof fn lemma_nothing_selected(regions: Seq<FoldRegion>)
    ensures
        selected(regions, Seq::<Vec<usize>>::empty()) == Seq::<int>::empty(),
    decreases regions.len(),
{
    if regions.len() > 0 {
        lemma_nothing_selected(regions.drop_last());
    }
}

/// With nothing folded, the folded view is the document itself: one verbatim run that maps
/// every byte to the same byte of the source, and no placeholders.
pub proof fn law_unfolded_view_is_the_source(t: Seq<char>, regions: Seq<FoldRegion>)
    ensures
        spec_projection(t, regions, Seq::empty()).text == t,
        spec_projection(t, regions, Seq::empty()).holders.len() == 0,
        t.len() > 0 ==> spec_projection(t, regions, Seq::empty()).copies == seq![
            (0int, crate::text::utf8_len(t) as int, 0int, crate::text::utf8_len(t) as int),
        ],
        t.len() > 0 ==> forall|pos: int|
            0 <= pos <= crate::text::utf8_len(t) ==> #[trigger] spec_display_to_source(
                spec_projection(t, regions, Seq::empty()).copies,
                spec_projection(t, regions, Seq::empty()).holders,
                pos,
            ) == Some(pos),
{
    lemma_nothing_selected(regions);
    assert(shown_folds(regions, Seq::empty()) == Seq::<int>::empty());
    assert(t.subrange(0, t.len() as int) =~= t);
    assert(Seq::<char>::empty() + t =~= t);
    assert(t.take(t.len() as int) =~= t);
    assert(t.take(0) =~= Seq::<char>::empty());
}

/// Copy `c` shows characters `a..b` of `t` as characters `ka..` of the folded text `text`:
/// its byte ranges are those characters' byte ranges in each.
#[verifier::opaque]
pub open spec fn copy_aligned(text: Seq<char>, t: Seq<char>, c: (int, int, int, int)) -> bool {
    exists|ka: int, a: int, b: int|
        #![trigger byte_offset(text, ka), byte_offset(t, a), byte_offset(t, b)]
        0 <= a <= b <= t.len() && 0 <= ka && ka + (b - a) <= text.len() && c == (
            byte_offset(text, ka) as int,
            byte_offset(text, ka + (b - a)) as int,
            byte_offset(t, a) as int,
            byte_offset(t, b) as int,
        ) && text.subrange(ka, ka + (b - a)) == t.subrange(a, b)
}

/// The folded view keeps its runs aligned with the source, and each placeholder's hidden
/// text starts and ends on character boundaries of the source.
pub open spec fn view_aligned(t: Seq<char>, st: ProjView) -> bool {
    &&& 0 <= st.cursor <= t.len()
    &&& forall|i: int| 0 <= i < st.copies.len() ==> copy_aligned(st.text, t, #[trigger] st.copies[i])
    &&& forall|i: int|
        0 <= i < st.holders.len() ==> char_boundary(t, (#[trigger] st.holders[i]).2) && char_boundary(t, st.holders[i].3)
}

proof fn lemma_aligned_extend(text: Seq<char>, more: Seq<char>, t: Seq<char>, c: (int, int, int, int))
    requires
        copy_aligned(text, t, c),
    ensures
        copy_aligned(text + more, t, c),
{
    reveal(copy_aligned);
    let (ka, a, b) = choose|ka: int, a: int, b: int|
        #![trigger byte_offset(text, ka), byte_offset(t, a), byte_offset(t, b)]
        0 <= a <= b <= t.len() && 0 <= ka && ka + (b - a) <= text.len() && c == (
            byte_offset(text, ka) as int,
            byte_offset(text, ka + (b - a)) as int,
            byte_offset(t, a) as int,
            byte_offset(t, b) as int,
        ) && text.subrange(ka, ka + (b - a)) == t.subrange(a, b);
    let u = text + more;
    assert(u.take(ka) =~= text.take(ka));
    assert(u.take(ka + (b - a)) =~= text.take(ka + (b - a)));
    assert(u.subrange(ka, ka + (b - a)) =~= text.subrange(ka, ka + (b - a)));
    assert(byte_offset(u, ka) == byte_offset(text, ka));
}

proof fn lemma_view_extend(t: Seq<char>, st: ProjView, more: Seq<char>)
    requires
        view_aligned(t, st),
    ensures
        forall|i: int| 0 <= i < st.copies.len() ==> copy_aligned(st.text + more, t, #[trigger] st.copies[i]),
{
    assert forall|i: int| 0 <= i < st.copies.len() implies copy_aligned(st.text + more, t, #[trigger] st.copies[i]) by {
        lemma_aligned_extend(st.text, more, t, st.copies[i]);
    }
}

proof fn lemma_push_copy_aligned(st: ProjView, t: Seq<char>, to: int)
    requires
        view_aligned(t, st),
        0 <= to <= t.len(),
    ensures
        push_copy_spec(st, t, st.cursor, to).holders == st.holders,
        push_copy_spec(st, t, st.cursor, to).cursor == st.cursor,
        forall|i: int|
            0 <= i < push_copy_spec(st, t, st.cursor, to).copies.len() ==> copy_aligned(
                push_copy_spec(st, t, st.cursor, to).text,
                t,
                #[trigger] push_copy_spec(st, t, st.cursor, to).copies[i],
            ),
{
    let from = st.cursor;
    if from < to {
        let seg = t.subrange(from, to);
        let nt = st.text + seg;
        lemma_view_extend(t, st, seg);
        let ka = st.text.len() as int;
        assert(nt.take(ka) =~= st.text);
        assert(nt.take(ka + (to - from)) =~= nt);
        assert(nt.subrange(ka, ka + (to - from)) =~= seg);
        let c = (
            crate::text::utf8_len(st.text) as int,
            crate::text::utf8_len(nt) as int,
            byte_offset(t, from) as int,
            byte_offset(t, to) as int,
        );
        assert(copy_aligned(nt, t, c)) by {
            reveal(copy_aligned);
            assert(c == (
                byte_offset(nt, ka) as int,
                byte_offset(nt, ka + (to - from)) as int,
                byte_offset(t, from) as int,
                byte_offset(t, to) as int,
            ));
        }
        let n = push_copy_spec(st, t, from, to);
        assert(n.copies == st.copies.push(c));
        assert forall|i: int| 0 <= i < n.copies.len() implies copy_aligned(n.text, t, #[trigger] n.copies[i]) by {
            if i < st.copies.len() {
                assert(n.copies[i] == st.copies[i]);
            }
        }
    }
}

proof fn lemma_build_aligned(t: Seq<char>, regions: Seq<FoldRegion>, cuts: Seq<int>, k: int, st: ProjView)
    requires
        view_aligned(t, st),
        0 <= k,
        forall|m: int| 0 <= m < cuts.len() ==> 0 <= #[trigger] cuts[m] < regions.len() && cut_ok(t, regions[cuts[m]]),
    ensures
        view_aligned(t, build(t, regions, cuts, k, st)),
    decreases cuts.len() - k,
{
    if k >= cuts.len() {
        lemma_push_copy_aligned(st, t, t.len() as int);
    } else {
        let r = regions[cuts[k]];
        assert(cut_ok(t, r));
        let to = char_at(t, r.open_byte + 1);
        let back = char_at(t, r.close_byte as int);
        lemma_push_copy_aligned(st, t, to);
        let st1 = push_copy_spec(st, t, st.cursor, to);
        let st2 = push_holder_spec(st1, r);
        let s3 = ProjView { cursor: back, ..st2 };
        assert forall|i: int| 0 <= i < s3.copies.len() implies copy_aligned(s3.text, t, #[trigger] s3.copies[i]) by {
            lemma_aligned_extend(st1.text, placeholder_chars(), t, st1.copies[i]);
        }
        assert forall|i: int| 0 <= i < s3.holders.len() implies char_boundary(t, (#[trigger] s3.holders[i]).2)
            && char_boundary(t, s3.holders[i].3) by {
            if i < st1.holders.len() {
                assert(s3.holders[i] == st.holders[i]);
            }
        }
        assert(view_aligned(t, s3));
        lemma_build_aligned(t, regions, cuts, k + 1, s3);
    }
}

/// Consecutive shown folds: the first opens at or after `hidden_until`, and each later one
/// opens after the one before it closes.
proof fn lemma_outermost_order(s: Seq<int>, regions: Seq<FoldRegion>, k: int, hidden_until: int)
    ensures
        forall|m: int|
            0 <= m < outermost(s, regions, k, hidden_until).len() ==> regions[#[trigger] outermost(
                s,
                regions,
                k,
                hidden_until,
            )[m]].open_byte >= (if m == 0 {
                hidden_until
            } else {
                regions[outermost(s, regions, k, hidden_until)[m - 1]].close_byte + 1
            }),
    decreases s.len() - k,
{
    if 0 <= k < s.len() {
        let r = regions[s[k]];
        if (r.open_byte as int) < hidden_until {
            lemma_outermost_order(s, regions, k + 1, hidden_until);
            assert(outermost(s, regions, k, hidden_until) == outermost(s, regions, k + 1, hidden_until));
        } else {
            let rest = outermost(s, regions, k + 1, r.close_byte + 1);
            lemma_outermost_order(s, regions, k + 1, r.close_byte + 1);
            let out = outermost(s, regions, k, hidden_until);
            assert(out == seq![s[k]] + rest);
            assert forall|m: int| 0 <= m < out.len() implies regions[#[trigger] out[m]].open_byte >= (if m == 0 {
                hidden_until
            } else {
                regions[out[m - 1]].close_byte + 1
            }) by {
                if m == 0 {
                    assert(out[0] == s[k]);
                } else {
                    assert(out[m] == rest[m - 1]);
                    if m > 1 {
                        assert(out[m - 1] == rest[m - 2]);
                    }
                }
            }
        }
    }
}

/// A stretch of the folded view and the stretch of source it stands for.
pub open spec fn seg_before(x: (int, int, int, int), y: (int, int, int, int)) -> bool {
    x.1 <= y.0 && x.3 <= y.2
}

pub open spec fn holder_seg(h: (int, int, int, int, Seq<int>)) -> (int, int, int, int) {
    (h.0, h.1, h.2, h.3)
}

/// Copies and placeholders follow one another in the same order in the folded view and in
/// the source, none reaching past `frontier` in the source.
pub open spec fn view_ordered(st: ProjView, frontier: int) -> bool {
    &&& forall|i: int, j: int|
        0 <= i < j < st.copies.len() ==> seg_before(#[trigger] st.copies[i], #[trigger] st.copies[j])
    &&& forall|i: int, j: int|
        0 <= i < j < st.holders.len() ==> seg_before(
            holder_seg(#[trigger] st.holders[i]),
            holder_seg(#[trigger] st.holders[j]),
        )
    &&& forall|i: int, j: int|
        0 <= i < st.copies.len() && 0 <= j < st.holders.len() ==> seg_before(
            #[trigger] st.copies[i],
            holder_seg(#[trigger] st.holders[j]),
        ) || seg_before(holder_seg(st.holders[j]), st.copies[i])
    &&& forall|i: int|
        0 <= i < st.copies.len() ==> copy_consistent(#[trigger] st.copies[i]) && st.copies[i].1 <= crate::text::utf8_len(
            st.text,
        ) && st.copies[i].3 <= frontier
    &&& forall|j: int|
        0 <= j < st.holders.len() ==> (#[trigger] st.holders[j]).0 < st.holders[j].1 && st.holders[j].2 <= st.holders[j].3
            && st.holders[j].1 <= crate::text::utf8_len(st.text) && st.holders[j].3 <= frontier
}

proof fn lemma_ordered_weaken(st: ProjView, f: int, g: int)
    requires
        view_ordered(st, f),
        f <= g,
    ensures
        view_ordered(st, g),
{
}

#[verifier::spinoff_prover]
proof fn lemma_push_copy_ordered(st: ProjView, t: Seq<char>, to: int)
    requires
        view_ordered(st, byte_offset(t, st.cursor) as int),
        0 <= st.cursor <= t.len(),
        0 <= to <= t.len(),
    ensures
        view_ordered(
            push_copy_spec(st, t, st.cursor, to),
            if st.cursor < to {
                byte_offset(t, to) as int
            } else {
                byte_offset(t, st.cursor) as int
            },
        ),
{
    let from = st.cursor;
    if from < to {
        let seg = t.subrange(from, to);
        let n = push_copy_spec(st, t, from, to);
        lemma_utf8_subrange(t, from, to);
        crate::text::lemma_encode_concat(st.text, seg);
        lemma_offset_monotonic(t, from, to);
        let c = n.copies.last();
        assert(n.copies == st.copies.push(c));
        assert(copy_consistent(c));
        assert forall|i: int, j: int| 0 <= i < j < n.copies.len() implies seg_before(
            #[trigger] n.copies[i],
            #[trigger] n.copies[j],
        ) by {
            assert(n.copies[i] == st.copies[i]);
            if j < st.copies.len() {
                assert(n.copies[j] == st.copies[j]);
            }
        }
        assert forall|i: int, j: int| 0 <= i < n.copies.len() && 0 <= j < n.holders.len() implies seg_before(
            #[trigger] n.copies[i],
            holder_seg(#[trigger] n.holders[j]),
        ) || seg_before(holder_seg(n.holders[j]), n.copies[i]) by {
            if i < st.copies.len() {
                assert(n.copies[i] == st.copies[i]);
            }
        }
        assert forall|i: int| 0 <= i < n.copies.len() implies copy_consistent(#[trigger] n.copies[i]) && n.copies[i].1
            <= crate::text::utf8_len(n.text) && n.copies[i].3 <= byte_offset(t, to) by {
            if i < st.copies.len() {
                assert(n.copies[i] == st.copies[i]);
            }
        }
    }
}

#[verifier::spinoff_prover]
proof fn lemma_push_holder_ordered(st: ProjView, r: FoldRegion, f: int)
    requires
        view_ordered(st, f),
        f <= r.open_byte + 1,
        r.open_byte < r.close_byte,
    ensures
        view_ordered(push_holder_spec(st, r), r.close_byte as int),
{
    let n = push_holder_spec(st, r);
    crate::text::lemma_encode_concat(st.text, placeholder_chars());
    lemma_offset_bounds(placeholder_chars(), 3);
    assert(placeholder_chars().take(3) =~= placeholder_chars());
    let h = n.holders.last();
    assert(n.holders == st.holders.push(h));
    assert forall|i: int, j: int| 0 <= i < j < n.holders.len() implies seg_before(
        holder_seg(#[trigger] n.holders[i]),
        holder_seg(#[trigger] n.holders[j]),
    ) by {
        assert(n.holders[i] == st.holders[i]);
        if j < st.holders.len() {
            assert(n.holders[j] == st.holders[j]);
        }
    }
    assert forall|i: int, j: int| 0 <= i < n.copies.len() && 0 <= j < n.holders.len() implies seg_before(
        #[trigger] n.copies[i],
        holder_seg(#[trigger] n.holders[j]),
    ) || seg_before(holder_seg(n.holders[j]), n.copies[i]) by {
        if j < st.holders.len() {
            assert(n.holders[j] == st.holders[j]);
        }
    }
    assert forall|j: int| 0 <= j < n.holders.len() implies (#[trigger] n.holders[j]).0 < n.holders[j].1
        && n.holders[j].2 <= n.holders[j].3 && n.holders[j].1 <= crate::text::utf8_len(n.text) && n.holders[j].3
        <= r.close_byte by {
        if j < st.holders.len() {
            assert(n.holders[j] == st.holders[j]);
        }
    }
}

proof fn lemma_char_at(t: Seq<char>, b: int)
    requires
        char_boundary(t, b),
    ensures
        0 <= char_at(t, b) <= t.len(),
        byte_offset(t, char_at(t, b)) == b,
{
}

#[verifier::rlimit(40)]
proof fn lemma_build_ordered(t: Seq<char>, regions: Seq<FoldRegion>, cuts: Seq<int>, k: int, st: ProjView)
    requires
        view_ordered(st, byte_offset(t, st.cursor) as int),
        0 <= st.cursor <= t.len(),
        0 <= k,
        forall|m: int|
            0 <= m < cuts.len() ==> 0 <= #[trigger] cuts[m] < regions.len() && cut_ok(t, regions[cuts[m]])
                && regions[cuts[m]].open_byte < regions[cuts[m]].close_byte,
        forall|m: int|
            0 < m < cuts.len() ==> regions[#[trigger] cuts[m]].open_byte >= regions[cuts[m - 1]].close_byte + 1,
        k < cuts.len() ==> byte_offset(t, st.cursor) <= regions[cuts[k]].open_byte + 1,
    ensures
        view_ordered(build(t, regions, cuts, k, st), byte_offset(t, t.len() as int) as int),
    decreases cuts.len() - k,
{
    lemma_offset_bounds(t, st.cursor as int);
    if k >= cuts.len() {
        lemma_push_copy_ordered(st, t, t.len() as int);
        let f = if st.cursor < t.len() {
            byte_offset(t, t.len() as int) as int
        } else {
            byte_offset(t, st.cursor) as int
        };
        lemma_ordered_weaken(push_copy_spec(st, t, st.cursor, t.len() as int), f, byte_offset(t, t.len() as int) as int);
    } else {
        let r = regions[cuts[k]];
        assert(cut_ok(t, r) && r.open_byte < r.close_byte);
        let to = char_at(t, r.open_byte + 1);
        let back = char_at(t, r.close_byte as int);
        lemma_char_at(t, r.open_byte + 1);
        lemma_char_at(t, r.close_byte as int);
        lemma_push_copy_ordered(st, t, to);
        let st1 = push_copy_spec(st, t, st.cursor, to);
        let f1 = if st.cursor < to {
            byte_offset(t, to) as int
        } else {
            byte_offset(t, st.cursor) as int
        };
        lemma_push_holder_ordered(st1, r, f1);
        let s3 = ProjView { cursor: back, ..push_holder_spec(st1, r) };
        if k + 1 < cuts.len() {
            assert(regions[cuts[k + 1]].open_byte >= regions[cuts[k]].close_byte + 1);
        }
        lemma_build_ordered(t, regions, cuts, k + 1, s3);
    }
}

pub proof fn lemma_utf8_subrange(t: Seq<char>, a: int, b: int)
    requires
        0 <= a <= b <= t.len(),
    ensures
        crate::text::utf8_len(t.subrange(a, b)) == byte_offset(t, b) - byte_offset(t, a),
{
    assert(t.take(b) =~= t.take(a) + t.subrange(a, b));
    crate::text::lemma_encode_concat(t.take(a), t.subrange(a, b));
}

pub open spec fn idx_view(s: Seq<usize>) -> Seq<int> {
    s.map_values(|i: usize| i as int)
}

pub(crate) fn id_equal(a: &Vec<usize>, b: &Vec<usize>) -> (r: bool)
    ensures
        r == (a@ == b@),
{
    if a.len() != b.len() {
        return false;
    }
    let mut i: usize = 0;
    while i < a.len()
        invariant
            a.len() == b.len(),
            i <= a.len(),
            forall|k: int| 0 <= k < i ==> a@[k] == b@[k],
        decreases a.len() - i,
    {
        if a[i] != b[i] {
            return false;
        }
        i += 1;
    }
    assert(a@ =~= b@);
    true
}

fn folded_contains(folded: &[Vec<usize>], id: &Vec<usize>) -> (r: bool)
    ensures
        r == is_folded(folded@, id@),
{
    let mut i: usize = 0;
    while i < folded.len()
        invariant
            i <= folded.len(),
            forall|k: int| 0 <= k < i ==> (#[trigger] folded@[k])@ != id@,
        decreases folded.len() - i,
    {
        if id_equal(&folded[i], id) {
            return true;
        }
        i += 1;
    }
    false
}

fn insert_by_open_exec(v: &mut Vec<usize>, x: usize, regions: &[FoldRegion])
    requires
        x < regions@.len(),
        forall|k: int| 0 <= k < old(v)@.len() ==> (#[trigger] old(v)@[k]) < regions@.len(),
    ensures
            idx_view(final(v)@) == insert_by_open(
            idx_view(old(v)@),
            x as int,
            regions@,
        ),
        forall|k: int| 0 <= k < final(v)@.len() ==> (#[trigger] final(v)@[k]) < regions@.len(),
{
    let ghost orig = idx_view(old(v)@);
    let mut tail: Vec<usize> = Vec::new();
    while v.len() > 0 && regions[v[v.len() - 1]].open_byte > regions[x].open_byte
        invariant
            x < regions@.len(),
            forall|k: int| 0 <= k < v@.len() ==> (#[trigger] v@[k]) < regions@.len(),
            forall|k: int| 0 <= k < tail@.len() ==> (#[trigger] tail@[k]) < regions@.len(),
            insert_by_open(orig, x as int, regions@) == insert_by_open(
            idx_view(v@),
                x as int,
                regions@,
            ) + idx_view(tail@),
        decreases v.len(),
    {
        let ghost before = idx_view(v@);
        let last = v.pop().unwrap();
        assert(before.drop_last() =~= idx_view(v@));
        tail.insert(0, last);
        assert(insert_by_open(before, x as int, regions@) =~= insert_by_open(
            idx_view(v@), x as int, regions@).push(last as int));
        assert(idx_view(tail@) =~= seq![last as int] + idx_view(tail@.drop_first()));
        assert(insert_by_open(orig, x as int, regions@) =~= insert_by_open(
            idx_view(v@), x as int, regions@) + idx_view(tail@));
    }
    let ghost kept = idx_view(v@);
    v.push(x);
        assert(idx_view(v@) =~= insert_by_open(kept, x as int, regions@));
    let mut i: usize = 0;
    while i < tail.len()
        invariant
            i <= tail.len(),
            forall|k: int| 0 <= k < v@.len() ==> (#[trigger] v@[k]) < regions@.len(),
            forall|k: int| 0 <= k < tail@.len() ==> (#[trigger] tail@[k]) < regions@.len(),
            idx_view(v@) == insert_by_open(kept, x as int, regions@)
                + idx_view(tail@.take(i as int)),
        decreases tail.len() - i,
    {
        let ghost prev = v@;
        v.push(tail[i]);
        assert(tail@.take(i + 1) =~= tail@.take(i as int).push(tail@[i as int]));
        assert(v@ =~= prev.push(tail@[i as int]));
        assert(idx_view(v@) =~= idx_view(prev).push(tail@[i as int] as int));
        assert(idx_view(tail@.take(i + 1)) =~= idx_view(tail@.take(i as int)).push(tail@[i as int] as int));
        i += 1;
        assert(idx_view(v@) =~= insert_by_open(kept, x as int, regions@)
            + idx_view(tail@.take(i as int)));
    }
    assert(tail@.take(tail.len() as int) =~= tail@);
}

/// The indices of the shown folds, computed as `shown_folds` describes.
fn shown_fold_indices(regions: &[FoldRegion], folded: &[Vec<usize>]) -> (cuts: Vec<usize>)
    requires
        forall|k: int|
            0 <= k < regions@.len() && is_folded(folded@, regions@[k].id@) ==> (#[trigger] regions@[k]).close_byte < usize::MAX,
    ensures
            idx_view(cuts@) == shown_folds(regions@, folded@),
{
    let ghost sel_spec = selected(regions@, folded@);
    let mut sel: Vec<usize> = Vec::new();
    let mut i: usize = 0;
    while i < regions.len()
        invariant
            i <= regions.len(),
            idx_view(sel@) == selected(regions@.take(i as int), folded@),
            forall|k: int| 0 <= k < sel@.len() ==> (#[trigger] sel@[k]) < i,
        decreases regions.len() - i,
    {
        assert(regions@.take(i + 1).drop_last() =~= regions@.take(i as int));
        if folded_contains(folded, &regions[i].id) {
            sel.push(i);
        }
        i += 1;
        assert(idx_view(sel@) =~= selected(regions@.take(i as int), folded@));
    }
    assert(regions@.take(regions.len() as int) =~= regions@);
    proof {
        lemma_selected_folded(regions@, folded@);
    }
    let mut sorted: Vec<usize> = Vec::new();
    let mut j: usize = 0;
    while j < sel.len()
        invariant
            j <= sel.len(),
            idx_view(sel@) == sel_spec,
            idx_view(sorted@) == sort_by_open(sel_spec.take(j as int), regions@),
            forall|k: int| 0 <= k < sorted@.len() ==> (#[trigger] sorted@[k]) < regions@.len(),
            forall|k: int| 0 <= k < sel@.len() ==> (#[trigger] sel@[k]) < regions@.len(),
        decreases sel.len() - j,
    {
        assert(sel_spec.take(j + 1).drop_last() =~= sel_spec.take(j as int));
        assert(sel_spec.take(j + 1).last() == sel@[j as int] as int);
        insert_by_open_exec(&mut sorted, sel[j], regions);
        j += 1;
    }
    assert(sel_spec.take(sel.len() as int) =~= sel_spec);
    let ghost srt = sort_by_open(sel_spec, regions@);
    proof {
        lemma_sort_folded(sel_spec, regions@, folded@);
    }
    let mut cuts: Vec<usize> = Vec::new();
    let mut hidden_until: usize = 0;
    let mut k: usize = 0;
    while k < sorted.len()
        invariant
            k <= sorted.len(),
            idx_view(sorted@) == srt,
            all_folded(srt, regions@, folded@),
            forall|m: int|
                0 <= m < regions@.len() && is_folded(folded@, regions@[m].id@) ==> (#[trigger] regions@[m]).close_byte < usize::MAX,
            idx_view(cuts@) + outermost(srt, regions@, k as int, hidden_until as int)
                == outermost(srt, regions@, 0, 0),
        decreases sorted.len() - k,
    {
        let x = sorted[k];
        assert(srt[k as int] == x as int);
        let r = &regions[x];
        if r.open_byte < hidden_until {
        } else {
            hidden_until = r.close_byte + 1;
            cuts.push(x);
        assert(idx_view(cuts@) =~= idx_view(cuts@.drop_last()) + seq![x as int]);
        }
        k += 1;
    }
        assert(idx_view(cuts@) =~= outermost(srt, regions@, 0, 0));
    cuts
}

} // verus!

verus! {

/// Appends `t[from..to]` to `text`, keeping `display_len` equal to the UTF-8 length of `text`.
fn push_segment(text: &mut String, display_len: &mut usize, t: &[char], from: usize, to: usize)
    requires
        from <= to <= t@.len(),
        *old(display_len) == crate::text::utf8_len(old(text)@),
    ensures
        final(text)@ == old(text)@ + t@.subrange(from as int, to as int),
        *final(display_len) == crate::text::utf8_len(final(text)@),
{
    let mut i = from;
    while i < to
        invariant
            from <= i <= to <= t@.len(),
            text@ == old(text)@ + t@.subrange(from as int, i as int),
            *display_len == crate::text::utf8_len(text@),
        decreases to - i,
    {
        let ghost prev = text@;
        crate::text::push_char(text, t[i]);
        crate::text::utf8_len_fits(text.as_str());
        proof {
            crate::text::lemma_encode_concat(prev, seq![t@[i as int]]);
            crate::text::lemma_single_width(t@[i as int]);
            assert(text@ =~= prev + seq![t@[i as int]]);
        }
        *display_len = *display_len + utf8_width(t[i]);
        i += 1;
        assert(text@ =~= old(text)@ + t@.subrange(from as int, i as int));
    }
}

impl FoldProjection {
    /// The folded view of `source` in which the regions named in `folded` are collapsed.
    ///
    /// Folded regions are taken in order of where they open; one that starts inside an
    /// earlier collapsed region is already hidden and is skipped. Each collapsed region keeps
    /// its brackets and shows " … " in place of its contents.
    pub fn new(source: &str, regions: &[FoldRegion], folded: &[Vec<usize>]) -> (p: FoldProjection)
        requires
            forall|k: int|
                0 <= k < regions@.len() && is_folded(folded@, regions@[k].id@) ==> cut_ok(
                    source@,
                    #[trigger] regions@[k],
                ),
        ensures
            p.view_text() == spec_projection(source@, regions@, folded@).text,
            p.view_copies() == spec_projection(source@, regions@, folded@).copies,
            p.view_placeholders() == spec_projection(source@, regions@, folded@).holders,
    {
        let t = chars_of(source);
        utf8_len_fits(source);
        let n = t.len();
        let cuts = shown_fold_indices(regions, folded);
        let ghost cs = shown_folds(regions@, folded@);
        let ghost target = spec_projection(source@, regions@, folded@);
        proof {
            lemma_shown_folds(regions@, folded@);
        }
        let mut text = String::new();
        let mut display_len: usize = 0;
        let mut copies: Vec<ProjectionCopy> = Vec::new();
        let mut placeholders: Vec<ProjectionPlaceholder> = Vec::new();
        let mut cursor: usize = 0;
        let mut cursor_byte: usize = 0;
        let ph = [' ', '\u{2026}', ' '];
        assert(ph@ =~= placeholder_chars());
        proof {
            assert(t@.take(0) =~= Seq::<char>::empty());
            assert(crate::text::utf8_len(Seq::<char>::empty()) == 0) by {
                assert(vstd::utf8::encode_utf8(Seq::<char>::empty()) =~= Seq::<u8>::empty());
            }
            lemma_offset_bounds(t@, 0);
            assert(copies_view(copies@) =~= Seq::<(int, int, int, int)>::empty());
            assert(holders_view(placeholders@) =~= Seq::<(int, int, int, int, Seq<int>)>::empty());
            assert(text@ =~= Seq::<char>::empty());
        }
        let mut k: usize = 0;
        while k < cuts.len()
            invariant
                t@ == source@,
                n == t@.len(),
                idx_view(cuts@) == cs,
                all_folded(cs, regions@, folded@),
                forall|m: int|
                    0 <= m < regions@.len() && is_folded(folded@, regions@[m].id@) ==> cut_ok(
                        source@,
                        #[trigger] regions@[m],
                    ),
                ph@ == placeholder_chars(),
                byte_offset(t@, n as int) <= usize::MAX,
                k <= cuts.len(),
                cursor <= n,
                cursor_byte == byte_offset(t@, cursor as int),
                display_len == crate::text::utf8_len(text@),
                build(
                    t@,
                    regions@,
                    cs,
                    k as int,
                    ProjView {
                        text: text@,
                        copies: copies_view(copies@),
                        holders: holders_view(placeholders@),
                        cursor: cursor as int,
                    },
                ) == target,
                forall|m: int| 0 <= m < copies@.len() ==> copy_consistent(#[trigger] copy_view(copies@[m])),
                copies_ordered(copies@),
                forall|m: int| 0 <= m < copies@.len() ==> #[trigger] copy_view(copies@[m]).1 < display_len,
            decreases cuts.len() - k,
        {
            let x = cuts[k];
            assert(cs[k as int] == x as int);
            assert(0 <= cs[k as int] < regions@.len());
            let r = &regions[x];
            assert(cut_ok(source@, regions@[x as int]));
            proof {
                let a = choose|j: int| 0 <= j <= t@.len() && byte_offset(t@, j) == r.open_byte + 1;
                lemma_offset_bounds(t@, a);
            }
            let oc = match char_index_at_byte(t.as_slice(), r.open_byte + 1) {
                Some(v) => v,
                None => 0,
            };
            let cc = match char_index_at_byte(t.as_slice(), r.close_byte) {
                Some(v) => v,
                None => 0,
            };
            proof {
                let a = choose|j: int| 0 <= j <= t@.len() && byte_offset(t@, j) == r.open_byte + 1;
                let b = choose|j: int| 0 <= j <= t@.len() && byte_offset(t@, j) == r.close_byte;
                assert forall|j1: int, j2: int|
                    0 <= j1 <= t@.len() && 0 <= j2 <= t@.len() && byte_offset(t@, j1) == byte_offset(t@, j2) implies j1 == j2 by {
                    if j1 < j2 {
                        lemma_offset_monotonic(t@, j1, j2);
                    } else if j2 < j1 {
                        lemma_offset_monotonic(t@, j2, j1);
                    }
                }
                assert(oc as int == char_at(t@, r.open_byte + 1));
                assert(cc as int == char_at(t@, r.close_byte as int));
            }
            let ghost st0 = ProjView {
                text: text@,
                copies: copies_view(copies@),
                holders: holders_view(placeholders@),
                cursor: cursor as int,
            };
            // Copy the source up to and including the opening bracket.
            if cursor < oc {
                let d0 = display_len;
                let ghost before_text = text@;
                push_segment(&mut text, &mut display_len, t.as_slice(), cursor, oc);
                proof {
                    lemma_utf8_subrange(t@, cursor as int, oc as int);
                    crate::text::lemma_encode_concat(before_text, t@.subrange(cursor as int, oc as int));
                    lemma_offset_bounds(t@, oc as int);
                }
                copies.push(ProjectionCopy { display: d0..display_len, source: cursor_byte..(r.open_byte + 1) });
                assert(copies_view(copies@) =~= st0.copies.push(
                    (d0 as int, display_len as int, cursor_byte as int, r.open_byte + 1)));
            }
            let ghost st1 = push_copy_spec(st0, t@, cursor as int, oc as int);
            assert(text@ == st1.text && copies_view(copies@) == st1.copies);
            // The placeholder.
            let d0 = display_len;
            let ghost before_text = text@;
            push_segment(&mut text, &mut display_len, &ph, 0, 3);
            assert(ph@.subrange(0, 3) =~= placeholder_chars());
            proof {
                crate::text::lemma_encode_concat(before_text, placeholder_chars());
                lemma_offset_bounds(placeholder_chars(), 3);
                assert(placeholder_chars().take(3) =~= placeholder_chars());
            }
            assert(d0 < display_len);
            let id = copy_id(&r.id);
            placeholders.push(ProjectionPlaceholder { display: d0..display_len, source: (r.open_byte + 1)..r.close_byte, id });
            let ghost st2 = push_holder_spec(st1, regions@[x as int]);
            assert(holders_view(placeholders@) =~= st2.holders);
            cursor = cc;
            cursor_byte = r.close_byte;
            k += 1;
        }
        // The rest of the source.
        let ghost st0 = ProjView {
            text: text@,
            copies: copies_view(copies@),
            holders: holders_view(placeholders@),
            cursor: cursor as int,
        };
        if cursor < n {
            let d0 = display_len;
            let ghost before_text = text@;
            push_segment(&mut text, &mut display_len, t.as_slice(), cursor, n);
            proof {
                lemma_utf8_subrange(t@, cursor as int, n as int);
                crate::text::lemma_encode_concat(before_text, t@.subrange(cursor as int, n as int));
                lemma_offset_bounds(t@, n as int);
            }
            let end_byte = byte_offset_exec(t.as_slice(), n);
            copies.push(ProjectionCopy { display: d0..display_len, source: cursor_byte..end_byte });
            assert(copies_view(copies@) =~= st0.copies.push(
                (d0 as int, display_len as int, cursor_byte as int, end_byte as int)));
        }
        FoldProjection { text, copies, placeholders }
    }
}

} // verus!

verus! {

// --- positions between the folded view and the source ------------------------------------

/// Source position of display position `pos` through the first copy (from `k` on) whose
/// display range contains it, ends included.
pub open spec fn copies_to_source(c: Seq<(int, int, int, int)>, pos: int, k: int) -> Option<int>
    decreases c.len() - k,
{
    if k < 0 || k >= c.len() {
        None
    } else if c[k].0 <= pos <= c[k].1 {
        Some(c[k].2 + pos - c[k].0)
    } else {
        copies_to_source(c, pos, k + 1)
    }
}

/// Source position of a display position at the edge of a placeholder.
pub open spec fn holders_to_source(h: Seq<(int, int, int, int, Seq<int>)>, pos: int, k: int) -> Option<int>
    decreases h.len() - k,
{
    if k < 0 || k >= h.len() {
        None
    } else if pos == h[k].0 {
        Some(h[k].2)
    } else if pos == h[k].1 {
        Some(h[k].3)
    } else {
        holders_to_source(h, pos, k + 1)
    }
}

pub open spec fn spec_display_to_source(
    c: Seq<(int, int, int, int)>,
    h: Seq<(int, int, int, int, Seq<int>)>,
    pos: int,
) -> Option<int> {
    match copies_to_source(c, pos, 0) {
        Some(x) => Some(x),
        None => holders_to_source(h, pos, 0),
    }
}

/// Display position of source position `pos` through the first copy (from `k` on) whose
/// source range contains it, ends included.
pub open spec fn source_to_display_from(c: Seq<(int, int, int, int)>, pos: int, k: int) -> Option<int>
    decreases c.len() - k,
{
    if k < 0 || k >= c.len() {
        None
    } else if c[k].2 <= pos <= c[k].3 {
        Some(c[k].0 + pos - c[k].2)
    } else {
        source_to_display_from(c, pos, k + 1)
    }
}

/// Display range of source range `a..b` through the first copy that contains all of it.
pub open spec fn range_to_display_from(c: Seq<(int, int, int, int)>, a: int, b: int, k: int) -> Option<(int, int)>
    decreases c.len() - k,
{
    if k < 0 || k >= c.len() {
        None
    } else if c[k].2 <= a && b <= c[k].3 {
        Some((c[k].0 + a - c[k].2, c[k].0 + b - c[k].2))
    } else {
        range_to_display_from(c, a, b, k + 1)
    }
}

/// A forward range maps to a forward display range that the copies' bounds contain.
proof fn lemma_forward_range_fits(c: Seq<(int, int, int, int)>, a: int, b: int, k: int)
    requires
        a <= b,
        forall|m: int| 0 <= m < c.len() ==> copy_consistent(#[trigger] c[m]) && c[m].1 <= usize::MAX,
    ensures
        range_to_display_from(c, a, b, k) matches Some(p) ==> 0 <= p.0 <= p.1 <= usize::MAX,
    decreases c.len() - k,
{
    if 0 <= k < c.len() {
        assert(copy_consistent(c[k]) && c[k].1 <= usize::MAX);
        if !(c[k].2 <= a && b <= c[k].3) {
            lemma_forward_range_fits(c, a, b, k + 1);
        }
    }
}

/// A display position inside copy `k` and past the end of every earlier copy maps back
/// through copy `k`.
proof fn lemma_copies_to_source_at(c: Seq<(int, int, int, int)>, pos: int, j: int, k: int)
    requires
        0 <= j <= k < c.len(),
        c[k].0 <= pos <= c[k].1,
        forall|m: int| j <= m < k ==> #[trigger] c[m].1 < pos,
    ensures
        copies_to_source(c, pos, j) == Some(c[k].2 + pos - c[k].0),
    decreases k - j,
{
    if j < k {
        assert(c[j].1 < pos);
        lemma_copies_to_source_at(c, pos, j + 1, k);
    }
}

proof fn lemma_copies_hit(c: Seq<(int, int, int, int)>, pos: int, j: int) -> (m: int)
    requires
        0 <= j,
        copies_to_source(c, pos, j) is Some,
    ensures
        j <= m < c.len(),
        c[m].0 <= pos <= c[m].1,
        copies_to_source(c, pos, j) == Some(c[m].2 + pos - c[m].0),
    decreases c.len() - j,
{
    if c[j].0 <= pos <= c[j].1 {
        j
    } else {
        lemma_copies_hit(c, pos, j + 1)
    }
}

proof fn lemma_holders_hit(h: Seq<(int, int, int, int, Seq<int>)>, pos: int, j: int) -> (m: int)
    requires
        0 <= j,
        holders_to_source(h, pos, j) is Some,
    ensures
        j <= m < h.len(),
        (pos == h[m].0 && holders_to_source(h, pos, j) == Some(h[m].2)) || (pos != h[m].0 && pos == h[m].1
            && holders_to_source(h, pos, j) == Some(h[m].3)),
    decreases h.len() - j,
{
    if pos == h[j].0 || pos == h[j].1 {
        j
    } else {
        lemma_holders_hit(h, pos, j + 1)
    }
}

/// A character boundary of the folded text that a copied run shows maps to a character
/// boundary of the source.
proof fn lemma_aligned_copy_boundary(text: Seq<char>, t: Seq<char>, c: (int, int, int, int), k: int)
    requires
        copy_aligned(text, t, c),
        0 <= k <= text.len(),
        c.0 <= byte_offset(text, k) <= c.1,
    ensures
        char_boundary(t, c.2 + byte_offset(text, k) - c.0),
{
    reveal(copy_aligned);
    let (ka, a, b) = choose|ka: int, a: int, b: int|
        #![trigger byte_offset(text, ka), byte_offset(t, a), byte_offset(t, b)]
        0 <= a <= b <= t.len() && 0 <= ka && ka + (b - a) <= text.len() && c == (
            byte_offset(text, ka) as int,
            byte_offset(text, ka + (b - a)) as int,
            byte_offset(t, a) as int,
            byte_offset(t, b) as int,
        ) && text.subrange(ka, ka + (b - a)) == t.subrange(a, b);
    let kb = ka + (b - a);
    if k < ka {
        lemma_offset_monotonic(text, k, ka);
    }
    if k > kb {
        lemma_offset_monotonic(text, kb, k);
    }
    let j = a + (k - ka);
    lemma_utf8_subrange(text, ka, k);
    lemma_utf8_subrange(t, a, j);
    assert(text.subrange(ka, k) =~= t.subrange(a, j)) by {
        assert(text.subrange(ka, k) =~= text.subrange(ka, kb).subrange(0, k - ka));
        assert(t.subrange(a, j) =~= t.subrange(a, b).subrange(0, k - ka));
    }
    assert(byte_offset(t, j) == c.2 + byte_offset(text, k) - c.0);
}

/// In an aligned folded view, every character boundary of the shown text maps to a
/// character boundary of the source, or to nothing.
pub proof fn lemma_view_positions_map_to_boundaries(t: Seq<char>, v: ProjView, k: int)
    requires
        view_aligned(t, v),
        0 <= k <= v.text.len(),
    ensures
        spec_display_to_source(v.copies, v.holders, byte_offset(v.text, k) as int) matches Some(x) ==> char_boundary(t, x),
{
    let pos = byte_offset(v.text, k) as int;
    if copies_to_source(v.copies, pos, 0) is Some {
        let m = lemma_copies_hit(v.copies, pos, 0);
        lemma_aligned_copy_boundary(v.text, t, v.copies[m], k);
    } else if holders_to_source(v.holders, pos, 0) is Some {
        let m = lemma_holders_hit(v.holders, pos, 0);
        assert(char_boundary(t, v.holders[m].2) && char_boundary(t, v.holders[m].3));
    }
}

/// The folded view that `FoldProjection::new` builds keeps its runs aligned with the source,
/// and its placeholders' hidden text on character boundaries.
pub proof fn lemma_projection_aligned(t: Seq<char>, regions: Seq<FoldRegion>, folded: Seq<Vec<usize>>)
    requires
        forall|k: int| 0 <= k < regions.len() && is_folded(folded, regions[k].id@) ==> cut_ok(t, #[trigger] regions[k]),
    ensures
        view_aligned(t, spec_projection(t, regions, folded)),
{
    lemma_shown_folds(regions, folded);
    let cs = shown_folds(regions, folded);
    assert forall|m: int| 0 <= m < cs.len() implies 0 <= #[trigger] cs[m] < regions.len() && cut_ok(t, regions[cs[m]]) by {
        assert(is_folded(folded, regions[cs[m]].id@));
    }
    assert(view_aligned(t, empty_view()));
    lemma_build_aligned(t, regions, cs, 0, empty_view());
}

/// The segment that maps display position `pos`: a copy (`true`) or a placeholder edge.
proof fn lemma_segment_of(v: ProjView, f: int, pos: int) -> (r: (bool, int))
    requires
        view_ordered(v, f),
        spec_display_to_source(v.copies, v.holders, pos) is Some,
    ensures
        r.0 ==> 0 <= r.1 < v.copies.len() && v.copies[r.1].0 <= pos <= v.copies[r.1].1
            && v.copies[r.1].2 <= spec_display_to_source(v.copies, v.holders, pos)->0 <= v.copies[r.1].3
            && spec_display_to_source(v.copies, v.holders, pos)->0 == v.copies[r.1].2 + pos - v.copies[r.1].0,
        !r.0 ==> 0 <= r.1 < v.holders.len() && v.holders[r.1].0 <= pos <= v.holders[r.1].1
            && v.holders[r.1].2 <= spec_display_to_source(v.copies, v.holders, pos)->0 <= v.holders[r.1].3
            && (pos == v.holders[r.1].0 ==> spec_display_to_source(v.copies, v.holders, pos)->0 == v.holders[r.1].2)
            && (pos != v.holders[r.1].0 ==> spec_display_to_source(v.copies, v.holders, pos)->0 == v.holders[r.1].3),
{
    if copies_to_source(v.copies, pos, 0) is Some {
        let m = lemma_copies_hit(v.copies, pos, 0);
        assert(copy_consistent(v.copies[m]));
        (true, m)
    } else {
        let m = lemma_holders_hit(v.holders, pos, 0);
        assert(v.holders[m].0 < v.holders[m].1 && v.holders[m].2 <= v.holders[m].3);
        (false, m)
    }
}

/// In an ordered folded view, display positions that map to the source map in order.
pub proof fn lemma_view_positions_in_order(v: ProjView, f: int, p: int, q: int)
    requires
        view_ordered(v, f),
        p <= q,
        spec_display_to_source(v.copies, v.holders, p) is Some,
        spec_display_to_source(v.copies, v.holders, q) is Some,
    ensures
        spec_display_to_source(v.copies, v.holders, p)->0 <= spec_display_to_source(v.copies, v.holders, q)->0,
{
    if p < q {
        let a = lemma_segment_of(v, f, p);
        let b = lemma_segment_of(v, f, q);
        if a.0 && b.0 {
            if a.1 < b.1 {
                assert(seg_before(v.copies[a.1], v.copies[b.1]));
            } else if a.1 > b.1 {
                assert(seg_before(v.copies[b.1], v.copies[a.1]));
            }
        } else if !a.0 && !b.0 {
            if a.1 < b.1 {
                assert(seg_before(holder_seg(v.holders[a.1]), holder_seg(v.holders[b.1])));
            } else if a.1 > b.1 {
                assert(seg_before(holder_seg(v.holders[b.1]), holder_seg(v.holders[a.1])));
            }
        } else if a.0 {
            assert(seg_before(v.copies[a.1], holder_seg(v.holders[b.1])) || seg_before(
                holder_seg(v.holders[b.1]),
                v.copies[a.1],
            ));
        } else {
            assert(seg_before(v.copies[b.1], holder_seg(v.holders[a.1])) || seg_before(
                holder_seg(v.holders[a.1]),
                v.copies[b.1],
            ));
        }
    }
}

/// The folded view that `FoldProjection::new` builds from sections that close after they
/// open lays out its copies and placeholders in source order.
pub proof fn lemma_projection_ordered(t: Seq<char>, regions: Seq<FoldRegion>, folded: Seq<Vec<usize>>)
    requires
        forall|k: int|
            0 <= k < regions.len() && is_folded(folded, regions[k].id@) ==> cut_ok(t, #[trigger] regions[k])
                && regions[k].open_byte < regions[k].close_byte,
    ensures
        view_ordered(spec_projection(t, regions, folded), byte_offset(t, t.len() as int) as int),
{
    lemma_shown_folds(regions, folded);
    let sorted = sort_by_open(selected(regions, folded), regions);
    let cs = shown_folds(regions, folded);
    lemma_outermost_order(sorted, regions, 0, 0);
    assert forall|m: int| 0 <= m < cs.len() implies 0 <= #[trigger] cs[m] < regions.len() && cut_ok(t, regions[cs[m]])
        && regions[cs[m]].open_byte < regions[cs[m]].close_byte by {
        assert(is_folded(folded, regions[cs[m]].id@));
    }
    assert forall|m: int| 0 < m < cs.len() implies regions[#[trigger] cs[m]].open_byte >= regions[cs[m - 1]].close_byte
        + 1 by {
        assert(cs == outermost(sorted, regions, 0, 0));
    }
    assert(t.take(0) =~= Seq::<char>::empty());
    assert(crate::text::utf8_len(Seq::<char>::empty()) == 0) by {
        assert(vstd::utf8::encode_utf8(Seq::<char>::empty()) =~= Seq::<u8>::empty());
    }
    assert(view_ordered(empty_view(), 0));
    lemma_build_ordered(t, regions, cs, 0, empty_view());
}

pub open spec fn opt_view(o: Option<usize>) -> Option<int> {
    match o {
        Some(x) => Some(x as int),
        None => None,
    }
}

impl FoldProjection {
    /// The source position shown at display position `position`: inside or at the ends of a
    /// copied run it maps through that run; at either edge of a placeholder it maps to the
    /// matching edge of the hidden text; elsewhere there is none.
    pub fn display_to_source(&self, position: usize) -> (r: Option<usize>)
        ensures
            opt_view(r) == spec_display_to_source(self.view_copies(), self.view_placeholders(), position as int),
    {
        proof {
            use_type_invariant(self);
        }
        let mut k: usize = 0;
        while k < self.copies.len()
            invariant
                k <= self.copies@.len(),
                forall|m: int| 0 <= m < self.copies@.len() ==> copy_consistent(#[trigger] copy_view(self.copies@[m])),
                copies_to_source(self.view_copies(), position as int, k as int) == copies_to_source(
                    self.view_copies(),
                    position as int,
                    0,
                ),
            decreases self.copies.len() - k,
        {
            let c = &self.copies[k];
            assert(self.view_copies()[k as int] == copy_view(self.copies@[k as int]));
            if c.display.start <= position && position <= c.display.end {
                return Some(c.source.start + (position - c.display.start));
            }
            k += 1;
        }
        let mut j: usize = 0;
        while j < self.placeholders.len()
            invariant
                j <= self.placeholders@.len(),
                copies_to_source(self.view_copies(), position as int, 0) is None,
                holders_to_source(self.view_placeholders(), position as int, j as int) == holders_to_source(
                    self.view_placeholders(),
                    position as int,
                    0,
                ),
            decreases self.placeholders.len() - j,
        {
            let p = &self.placeholders[j];
            assert(self.view_placeholders()[j as int] == holder_view(self.placeholders@[j as int]));
            if position == p.display.start {
                return Some(p.source.start);
            }
            if position == p.display.end {
                return Some(p.source.end);
            }
            j += 1;
        }
        None
    }

    /// The display position of source position `position`, if a copied run shows it.
    /// Mapping that display position back gives `position` again.
    pub fn source_to_display(&self, position: usize) -> (r: Option<usize>)
        ensures
            opt_view(r) == source_to_display_from(self.view_copies(), position as int, 0),
            r matches Some(d) ==> spec_display_to_source(self.view_copies(), self.view_placeholders(), d as int)
                == Some(position as int),
    {
        proof {
            use_type_invariant(self);
        }
        let mut k: usize = 0;
        while k < self.copies.len()
            invariant
                k <= self.copies@.len(),
                forall|m: int| 0 <= m < self.copies@.len() ==> copy_consistent(#[trigger] copy_view(self.copies@[m])),
                copies_ordered(self.copies@),
                source_to_display_from(self.view_copies(), position as int, k as int)
                    == source_to_display_from(self.view_copies(), position as int, 0),
            decreases self.copies.len() - k,
        {
            let c = &self.copies[k];
            assert(self.view_copies()[k as int] == copy_view(self.copies@[k as int]));
            if c.source.start <= position && position <= c.source.end {
                let d = c.display.start + (position - c.source.start);
                proof {
                    let vc = self.view_copies();
                    assert(copy_consistent(vc[k as int]));
                    assert forall|m: int| 0 <= m < k implies #[trigger] vc[m].1 < d by {
                        assert(vc[m] == copy_view(self.copies@[m]));
                        assert(copy_view(self.copies@[m]).1 < copy_view(self.copies@[k as int]).0);
                    }
                    lemma_copies_to_source_at(vc, d as int, 0, k as int);
                }
                return Some(d);
            }
            k += 1;
        }
        None
    }

    /// The display range of source range `range`: through the first copied run whose source
    /// range holds `range.start` at or after its start and `range.end` at or before its end.
    /// A reversed range is mapped the same way; the mapped positions must not fall below zero
    /// or past `usize::MAX`.
    pub fn source_range_to_display(&self, range: core::ops::Range<usize>) -> (r: Option<(usize, usize)>)
        requires
            range.start <= range.end || (range_to_display_from(self.view_copies(), range.start as int, range.end as int, 0)
                matches Some(p) ==> (0 <= p.1 && p.0 <= usize::MAX && p.1 <= usize::MAX)),
        ensures
            match r {
                Some(p) => range_to_display_from(self.view_copies(), range.start as int, range.end as int, 0)
                    == Some((p.0 as int, p.1 as int)),
                None => range_to_display_from(self.view_copies(), range.start as int, range.end as int, 0) is None,
            },
    {
        proof {
            use_type_invariant(self);
            if range.start <= range.end {
                assert forall|m: int| 0 <= m < self.view_copies().len() implies copy_consistent(#[trigger] self.view_copies()[m])
                    && self.view_copies()[m].1 <= usize::MAX by {
                    assert(self.view_copies()[m] == copy_view(self.copies@[m]));
                }
                lemma_forward_range_fits(self.view_copies(), range.start as int, range.end as int, 0);
            }
        }
        let ghost target = range_to_display_from(self.view_copies(), range.start as int, range.end as int, 0);
        let mut k: usize = 0;
        while k < self.copies.len()
            invariant
                k <= self.copies@.len(),
                forall|m: int| 0 <= m < self.copies@.len() ==> copy_consistent(#[trigger] copy_view(self.copies@[m])),
                target == range_to_display_from(self.view_copies(), range.start as int, range.end as int, 0),
                target matches Some(p) ==> (0 <= p.1 && p.0 <= usize::MAX && p.1 <= usize::MAX),
                range_to_display_from(self.view_copies(), range.start as int, range.end as int, k as int) == target,
            decreases self.copies.len() - k,
        {
            let c = &self.copies[k];
            assert(self.view_copies()[k as int] == copy_view(self.copies@[k as int]));
            if c.source.start <= range.start && range.end <= c.source.end {
                let first = c.display.start + (range.start - c.source.start);
                let last = if range.end >= c.source.start {
                    c.display.start + (range.end - c.source.start)
                } else {
                    c.display.start - (c.source.start - range.end)
                };
                return Some((first, last));
            }
            k += 1;
        }
        None
    }
}

} // verus!
