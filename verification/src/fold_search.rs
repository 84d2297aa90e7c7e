//! Search in a folded document: which matches the folded view shows, and unfolding the
//! sections that hide a selected match; and the source line shown on each line of the
//! folded view.
use vstd::prelude::*;
use crate::fold_edit::lemma_char_at_unique;
use crate::text::{
    byte_offset, chars_of, lemma_offset_bounds, lemma_offset_monotonic, lemma_offset_step, utf8_len,
    utf8_len_fits, utf8_width,
};
use crate::json_text::{
    char_at, char_boundary, char_index_at_byte, cut_ok, lemma_projection_aligned, lemma_view_positions_map_to_boundaries,
    spec_display_to_source, spec_projection, copy_id, id_equal, is_folded, range_to_display_from, range_view, FoldProjection, FoldRegion,
};

verus! {

// ---------------------------------------------------------------------------------------
// Revealing a source range
// ---------------------------------------------------------------------------------------

/// Index of the first region (from `k` on) with the given id.
pub open spec fn region_with_id(regions: Seq<FoldRegion>, id: Seq<usize>, k: int) -> Option<int>
    decreases regions.len() - k,
{
    if k < 0 || k >= regions.len() {
        None
    } else if regions[k].id@ == id {
        Some(k)
    } else {
        region_with_id(regions, id, k + 1)
    }
}

/// A folded id stays folded when `range` is revealed: it names a region (the first with that
/// id decides) whose hidden text, the bytes strictly between its brackets, does not overlap
/// `range`.
pub open spec fn stays_folded(regions: Seq<FoldRegion>, id: Seq<usize>, range: (usize, usize)) -> bool {
    match region_with_id(regions, id, 0) {
        Some(k) => !(range.0 < regions[k].close_byte && regions[k].open_byte + 1 < range.1),
        None => false,
    }
}

fn find_region(regions: &[FoldRegion], id: &Vec<usize>) -> (k: Option<usize>)
    ensures
        match k {
            Some(k) => k < regions@.len() && region_with_id(regions@, id@, 0) == Some(k as int),
            None => region_with_id(regions@, id@, 0) is None,
        },
{
    let mut k: usize = 0;
    while k < regions.len()
        invariant
            k <= regions@.len(),
            region_with_id(regions@, id@, k as int) == region_with_id(regions@, id@, 0),
        decreases regions.len() - k,
    {
        if id_equal(&regions[k].id, id) {
            return Some(k);
        }
        k += 1;
    }
    None
}

/// Unfolds every folded section whose hidden text overlaps `range`, and forgets folded ids
/// that name no region. The other folded sections stay folded.
pub fn reveal_source_range(folded: &mut Vec<Vec<usize>>, regions: &[FoldRegion], range: (usize, usize))
    ensures
        forall|id: Seq<usize>|
            #![trigger is_folded(final(folded)@, id)]
            is_folded(final(folded)@, id) <==> is_folded(old(folded)@, id) && stays_folded(regions@, id, range),
        final(folded)@.len() <= old(folded)@.len(),
{
    let mut kept: Vec<Vec<usize>> = Vec::new();
    let mut i: usize = 0;
    while i < folded.len()
        invariant
            i <= folded@.len(),
            kept@.len() <= i,
            forall|id: Seq<usize>|
                #![trigger is_folded(kept@, id)]
                is_folded(kept@, id) <==> is_folded(folded@.take(i as int), id) && stays_folded(
                    regions@,
                    id,
                    range,
                ),
        decreases folded.len() - i,
    {
        let keep = match find_region(regions, &folded[i]) {
            Some(k) => {
                let r = &regions[k];
                !(range.0 < r.close_byte && range.1 > 0 && r.open_byte < range.1 - 1)
            },
            None => false,
        };
        let ghost prev = kept@;
        let ghost cur = folded@[i as int]@;
        if keep {
            kept.push(copy_id(&folded[i]));
        }
        proof {
            assert(folded@.take(i + 1) =~= folded@.take(i as int).push(folded@[i as int]));
            assert forall|id: Seq<usize>| #![trigger is_folded(kept@, id)]
                is_folded(kept@, id) <==> is_folded(folded@.take(i + 1), id) && stays_folded(
                    regions@,
                    id,
                    range,
                ) by {
                if is_folded(folded@.take(i + 1), id) {
                    let w = choose|w: int| 0 <= w < folded@.take(i + 1).len() && (#[trigger] folded@.take(i + 1)[w])@ == id;
                    if w < i {
                        assert(folded@.take(i as int)[w] == folded@.take(i + 1)[w]);
                    }
                }
                if is_folded(kept@, id) {
                    let w = choose|w: int| 0 <= w < kept@.len() && (#[trigger] kept@[w])@ == id;
                    if w < prev.len() {
                        assert(prev[w] == kept@[w]);
                        assert(is_folded(prev, id));
                        let v = choose|v: int| 0 <= v < folded@.take(i as int).len() && (#[trigger] folded@.take(i as int)[v])@ == id;
                        assert(folded@.take(i + 1)[v] == folded@.take(i as int)[v]);
                    } else {
                        assert(folded@.take(i + 1)[i as int] == folded@[i as int]);
                    }
                }
                if is_folded(prev, id) {
                    let w = choose|w: int| 0 <= w < prev.len() && (#[trigger] prev[w])@ == id;
                    assert(kept@[w] == prev[w]);
                }
                if keep && id == cur {
                    assert(kept@[prev.len() as int]@ == id);
                }
                if is_folded(folded@.take(i + 1), id) && !is_folded(folded@.take(i as int), id) {
                    let w = choose|w: int| 0 <= w < folded@.take(i + 1).len() && (#[trigger] folded@.take(i + 1)[w])@ == id;
                    if w < i {
                        assert(folded@.take(i as int)[w] == folded@.take(i + 1)[w]);
                    }
                    assert(id == cur);
                }
            }
        }
        i += 1;
    }
    assert(folded@.take(folded@.len() as int) =~= folded@);
    *folded = kept;
}

// ---------------------------------------------------------------------------------------
// Matches in the folded view
// ---------------------------------------------------------------------------------------

/// The display ranges of the source matches that the folded view shows, in order: a match
/// is shown when one copied run holds all of it.
pub open spec fn projected(c: Seq<(int, int, int, int)>, m: Seq<(usize, usize)>) -> Seq<(int, int)>
    decreases m.len(),
{
    if m.len() == 0 {
        Seq::empty()
    } else {
        let prev = projected(c, m.drop_last());
        match range_to_display_from(c, m.last().0 as int, m.last().1 as int, 0) {
            Some(p) => prev.push(p),
            None => prev,
        }
    }
}

/// Where the current source match lands among the shown matches, if it is shown.
pub open spec fn projected_current(
    c: Seq<(int, int, int, int)>,
    m: Seq<(usize, usize)>,
    current: Option<usize>,
) -> Option<usize> {
    match current {
        Some(j) => if j < m.len() && range_to_display_from(c, m[j as int].0 as int, m[j as int].1 as int, 0) is Some {
            Some(projected(c, m.take(j as int)).len() as usize)
        } else {
            None
        },
        None => None,
    }
}

/// The source matches as the folded view shows them, and the position of the current match
/// among them. Matches inside folded sections are left out.
pub fn projected_matches(
    projection: &FoldProjection,
    source_matches: &[(usize, usize)],
    current_source_match: Option<usize>,
) -> (r: (Vec<(usize, usize)>, Option<usize>))
    requires
        forall|k: int| 0 <= k < source_matches@.len() ==> (#[trigger] source_matches@[k]).0 <= source_matches@[k].1,
    ensures
        range_view(r.0@) == projected(projection.view_copies(), source_matches@),
        r.1 == projected_current(projection.view_copies(), source_matches@, current_source_match),
{
    let ghost c = projection.view_copies();
    let ghost m = source_matches@;
    let mut out: Vec<(usize, usize)> = Vec::new();
    let mut current: Option<usize> = None;
    let mut i: usize = 0;
    assert(m.take(0) =~= Seq::<(usize, usize)>::empty());
    assert(range_view(out@) =~= Seq::<(int, int)>::empty());
    while i < source_matches.len()
        invariant
            i <= m.len(),
            m == source_matches@,
            c == projection.view_copies(),
            forall|k: int| 0 <= k < m.len() ==> (#[trigger] m[k]).0 <= m[k].1,
            range_view(out@) == projected(c, m.take(i as int)),
            current == (match current_source_match {
                Some(j) => if j < i && range_to_display_from(c, m[j as int].0 as int, m[j as int].1 as int, 0) is Some {
                    Some(projected(c, m.take(j as int)).len() as usize)
                } else {
                    None
                },
                None => None,
            }),
        decreases source_matches.len() - i,
    {
        let (start, end) = source_matches[i];
        let shown = projection.source_range_to_display(start..end);
        assert(m.take(i + 1).drop_last() =~= m.take(i as int));
        assert(m.take(i + 1).last() == m[i as int]);
        match shown {
            Some(p) => {
                if current_source_match == Some(i) {
                    current = Some(out.len());
                }
                out.push(p);
                assert(range_view(out@) =~= projected(c, m.take(i as int)).push((p.0 as int, p.1 as int)));
            },
            None => {},
        }
        i += 1;
    }
    assert(m.take(m.len() as int) =~= m);
    (out, current)
}

// ---------------------------------------------------------------------------------------
// Line numbers of the folded view
// ---------------------------------------------------------------------------------------

/// Byte positions where the lines of `t` start: 0, and the byte after each line feed.
pub open spec fn line_starts(t: Seq<char>) -> Seq<int>
    decreases t.len(),
{
    if t.len() == 0 {
        seq![0]
    } else {
        let prev = line_starts(t.drop_last());
        if t.last() == '\n' {
            prev.push(utf8_len(t) as int)
        } else {
            prev
        }
    }
}

/// Number of line feeds in `s`.
pub open spec fn newline_count(s: Seq<char>) -> int
    decreases s.len(),
{
    if s.len() == 0 {
        0
    } else {
        newline_count(s.drop_last()) + if s.last() == '\n' {
            1int
        } else {
            0int
        }
    }
}

/// State of the walk down the shown lines: the source position reached, the source line
/// number there, and the numbers given so far.
pub struct LineWalk {
    pub cursor: int,
    pub line: int,
    pub lines: Seq<int>,
}

/// One shown line starting at display position `d`: it is mapped to the source (a start
/// with no source position stays where the walk is); when that does not move backwards,
/// the walk moves there, counting the line feeds it passes. The line gets the source line
/// number where the walk then is.
pub open spec fn walk_step(
    c: Seq<(int, int, int, int)>,
    h: Seq<(int, int, int, int, Seq<int>)>,
    source: Seq<char>,
    w: LineWalk,
    d: int,
) -> LineWalk {
    let p = match spec_display_to_source(c, h, d) {
        Some(x) => x,
        None => w.cursor,
    };
    if p >= w.cursor {
        let line = w.line + newline_count(source.subrange(char_at(source, w.cursor), char_at(source, p)));
        LineWalk { cursor: p, line, lines: w.lines.push(line) }
    } else {
        LineWalk { lines: w.lines.push(w.line), ..w }
    }
}

/// Numbers the shown lines starting at `starts`, from source line 1 at position 0.
pub open spec fn line_walk(
    c: Seq<(int, int, int, int)>,
    h: Seq<(int, int, int, int, Seq<int>)>,
    source: Seq<char>,
    starts: Seq<int>,
) -> LineWalk
    decreases starts.len(),
{
    if starts.len() == 0 {
        LineWalk { cursor: 0, line: 1, lines: Seq::empty() }
    } else {
        walk_step(c, h, source, line_walk(c, h, source, starts.drop_last()), starts.last())
    }
}

/// The source positions that the starts of shown lines map to fall on character boundaries
/// of `source`.
pub open spec fn line_starts_map_to_boundaries(
    c: Seq<(int, int, int, int)>,
    h: Seq<(int, int, int, int, Seq<int>)>,
    text: Seq<char>,
    source: Seq<char>,
) -> bool {
    forall|k: int|
        0 <= k <= text.len() && (k == 0 || text[k - 1] == '\n') ==> match #[trigger] spec_display_to_source(
            c,
            h,
            byte_offset(text, k) as int,
        ) {
            Some(x) => char_boundary(source, x),
            None => true,
        }
}

/// The folded view of a document, with any choice of foldable sections folded, shows each
/// of its lines from a character boundary of the source: it meets what
/// `visible_line_numbers` requires. With `law_found_regions_can_be_folded`, this holds of
/// every view built from the regions `fold_regions` finds.
pub proof fn law_folded_view_lines_start_on_boundaries(
    source: Seq<char>,
    regions: Seq<FoldRegion>,
    folded: Seq<Vec<usize>>,
)
    requires
        forall|k: int| 0 <= k < regions.len() && is_folded(folded, regions[k].id@) ==> cut_ok(source, #[trigger] regions[k]),
    ensures
        line_starts_map_to_boundaries(
            spec_projection(source, regions, folded).copies,
            spec_projection(source, regions, folded).holders,
            spec_projection(source, regions, folded).text,
            source,
        ),
{
    let v = spec_projection(source, regions, folded);
    lemma_projection_aligned(source, regions, folded);
    assert forall|k: int| 0 <= k <= v.text.len() && (k == 0 || v.text[k - 1] == '\n') implies match #[trigger] spec_display_to_source(
        v.copies,
        v.holders,
        byte_offset(v.text, k) as int,
    ) {
        Some(x) => char_boundary(source, x),
        None => true,
    } by {
        lemma_view_positions_map_to_boundaries(source, v, k);
    }
}

pub open spec fn usize_seq_view(s: Seq<usize>) -> Seq<int> {
    s.map_values(|x: usize| x as int)
}

proof fn lemma_newline_count_split(s: Seq<char>, i: int, j: int)
    requires
        0 <= i <= j <= s.len(),
    ensures
        newline_count(s.take(j)) == newline_count(s.take(i)) + newline_count(s.subrange(i, j)),
        newline_count(s.subrange(i, j)) <= j - i,
        0 <= newline_count(s.subrange(i, j)),
    decreases j - i,
{
    if i == j {
        assert(s.subrange(i, j) =~= Seq::<char>::empty());
    } else {
        lemma_newline_count_split(s, i, j - 1);
        assert(s.take(j).drop_last() =~= s.take(j - 1));
        assert(s.subrange(i, j).drop_last() =~= s.subrange(i, j - 1));
    }
}

fn count_newlines(s: &[char], from: usize, to: usize) -> (n: usize)
    requires
        from <= to <= s@.len(),
    ensures
        n == newline_count(s@.subrange(from as int, to as int)),
{
    let mut n: usize = 0;
    let mut i: usize = from;
    assert(s@.subrange(from as int, from as int) =~= Seq::<char>::empty());
    while i < to
        invariant
            from <= i <= to <= s@.len(),
            n == newline_count(s@.subrange(from as int, i as int)),
            n <= i - from,
        decreases to - i,
    {
        assert(s@.subrange(from as int, i + 1).drop_last() =~= s@.subrange(from as int, i as int));
        if s[i] == '\n' {
            n += 1;
        }
        i += 1;
    }
    n
}

/// The walk's exec state: `cursor` is the source byte reached, `kc` the character index
/// there, `line` the source line number there.
pub open spec fn walk_state_ok(sv: Seq<char>, cursor: usize, kc: usize, line: usize) -> bool {
    &&& kc <= sv.len()
    &&& byte_offset(sv, kc as int) == cursor
    &&& char_at(sv, cursor as int) == kc
    &&& line == 1 + newline_count(sv.take(kc as int))
}

/// Takes one step of the walk for the shown line starting at display position `d`.
fn walk_to(
    projection: &FoldProjection,
    s: &[char],
    d: usize,
    cursor: &mut usize,
    kc: &mut usize,
    line: &mut usize,
    lines: &mut Vec<usize>,
)
    requires
        s@.len() < usize::MAX,
        byte_offset(s@, s@.len() as int) <= usize::MAX,
        walk_state_ok(s@, *old(cursor), *old(kc), *old(line)),
        match spec_display_to_source(projection.view_copies(), projection.view_placeholders(), d as int) {
            Some(x) => char_boundary(s@, x),
            None => true,
        },
    ensures
        walk_state_ok(s@, *final(cursor), *final(kc), *final(line)),
        ({
            let w = walk_step(
                projection.view_copies(),
                projection.view_placeholders(),
                s@,
                LineWalk {
                    cursor: *old(cursor) as int,
                    line: *old(line) as int,
                    lines: usize_seq_view(old(lines)@),
                },
                d as int,
            );
            w.cursor == *final(cursor) as int && w.line == *final(line) as int && w.lines == usize_seq_view(
                final(lines)@,
            )
        }),
{
    let p = match projection.display_to_source(d) {
        Some(x) => x,
        None => *cursor,
    };
    if p >= *cursor {
        let kp = match char_index_at_byte(s, p) {
            Some(k) => k,
            None => {
                proof {
                    let w = choose|k: int| 0 <= k <= s@.len() && byte_offset(s@, k) == p;
                    assert(byte_offset(s@, w) != p);
                }
                *kc
            },
        };
        proof {
            lemma_char_at_unique(s@, p as int, kp as int);
            if kp < *kc {
                lemma_offset_monotonic(s@, kp as int, *kc as int);
            }
            lemma_newline_count_split(s@, *kc as int, kp as int);
            lemma_newline_count_split(s@, 0, kp as int);
            assert(s@.take(0) =~= Seq::<char>::empty());
            assert(s@.subrange(0, kp as int) =~= s@.take(kp as int));
        }
        let n = count_newlines(s, *kc, kp);
        *line = *line + n;
        *cursor = p;
        *kc = kp;
    }
    let ghost prev = lines@;
    lines.push(*line);
    assert(usize_seq_view(lines@) =~= usize_seq_view(prev).push(*line as int));
}

/// For each line of the folded view, the number of the source line it shows.
pub fn visible_line_numbers(source: &str, projection: &FoldProjection) -> (lines: Vec<usize>)
    requires
        source@.len() < usize::MAX,
        line_starts_map_to_boundaries(
            projection.view_copies(),
            projection.view_placeholders(),
            projection.view_text(),
            source@,
        ),
    ensures
        usize_seq_view(lines@) == line_walk(
            projection.view_copies(),
            projection.view_placeholders(),
            source@,
            line_starts(projection.view_text()),
        ).lines,
{
    let ghost c = projection.view_copies();
    let ghost h = projection.view_placeholders();
    let ghost sv = source@;
    utf8_len_fits(source);
    let s = chars_of(source);
    let text = projection.text();
    utf8_len_fits(text.as_str());
    let t = chars_of(text.as_str());
    let ghost tv = t@;
    let mut lines: Vec<usize> = Vec::new();
    let mut cursor: usize = 0;
    let mut kc: usize = 0;
    let mut line: usize = 1;
    assert(sv.take(0) =~= Seq::<char>::empty());
    assert(tv.take(0) =~= Seq::<char>::empty());
    proof {
        lemma_char_at_unique(sv, 0, 0);
        assert(byte_offset(tv, 0) == 0);
        assert(match spec_display_to_source(c, h, byte_offset(tv, 0) as int) {
            Some(x) => char_boundary(sv, x),
            None => true,
        });
        assert(usize_seq_view(lines@) =~= Seq::<int>::empty());
        assert(line_starts(tv.take(0)) =~= seq![0int]);
        assert(seq![0int].drop_last() =~= Seq::<int>::empty());
    }
    walk_to(projection, s.as_slice(), 0, &mut cursor, &mut kc, &mut line, &mut lines);
    proof {
        let e = Seq::<int>::empty();
        assert(line_walk(c, h, sv, e) == LineWalk { cursor: 0, line: 1, lines: e });
        assert(line_walk(c, h, sv, seq![0int]) == walk_step(c, h, sv, line_walk(c, h, sv, e), 0));
        assert(line_starts(tv.take(0)) == seq![0int]);
    }
    let mut offset: usize = 0;
    let mut i: usize = 0;
    while i < t.len()
        invariant
            sv == source@,
            s@ == sv,
            sv.len() < usize::MAX,
            byte_offset(sv, sv.len() as int) <= usize::MAX,
            tv == projection.view_text(),
            t@ == tv,
            byte_offset(tv, tv.len() as int) <= usize::MAX,
            c == projection.view_copies(),
            h == projection.view_placeholders(),
            line_starts_map_to_boundaries(c, h, tv, sv),
            i <= tv.len(),
            offset == byte_offset(tv, i as int),
            walk_state_ok(sv, cursor, kc, line),
            ({
                let w = line_walk(c, h, sv, line_starts(tv.take(i as int)));
                w.cursor == cursor as int && w.line == line as int && w.lines == usize_seq_view(lines@)
            }),
        decreases tv.len() - i,
    {
        proof {
            lemma_offset_step(tv, i as int);
            lemma_offset_bounds(tv, i + 1);
        }
        let ch = t[i];
        offset = offset + utf8_width(ch);
        let ghost prefix = tv.take(i as int);
        let ghost next = tv.take(i + 1);
        assert(next.drop_last() =~= prefix);
        assert(next.last() == ch);
        i += 1;
        if ch == '\n' {
            let ghost starts = line_starts(next);
            assert(starts == line_starts(prefix).push(offset as int));
            assert(starts.drop_last() =~= line_starts(prefix));
            assert(tv[i - 1] == '\n');
            assert(match spec_display_to_source(c, h, byte_offset(tv, i as int) as int) {
                Some(x) => char_boundary(sv, x),
                None => true,
            });
            walk_to(projection, s.as_slice(), offset, &mut cursor, &mut kc, &mut line, &mut lines);
        }
    }
    assert(tv.take(tv.len() as int) =~= tv);
    lines
}

} // verus!
