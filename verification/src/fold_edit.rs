//! Carrying an edit of the folded view back into the full document.
//!
//! The editor shows the document with some sections folded. When the user types, the
//! changed span of the shown text is found by comparing it with the text shown before the
//! edit, and that span is written into the source at the corresponding source positions.
//! An edit that reaches into the placeholder of a folded section is refused, so hidden text
//! is never overwritten.
use vstd::prelude::*;
use crate::text::{byte_offset, char_width, chars_of, lemma_encode_concat, lemma_offset_bounds, lemma_offset_monotonic, lemma_offset_step, lemma_single_width, str_eq, string_from_chars, utf8_len, utf8_len_fits, utf8_width};
use crate::json_text::{
    char_at, char_boundary, char_index_at_byte, copy_id, cut_ok, id_view, is_folded, lemma_projection_aligned,
    lemma_projection_ordered, lemma_view_positions_in_order, lemma_view_positions_map_to_boundaries,
    spec_display_to_source, spec_projection, FoldProjection, FoldRegion, ProjectionEditError,
};

verus! {

// ---------------------------------------------------------------------------------------
// Shared prefix and suffix
// ---------------------------------------------------------------------------------------

pub open spec fn shared_prefix_from(a: Seq<char>, b: Seq<char>, k: int) -> int
    decreases a.len() - k,
{
    if 0 <= k < a.len() && k < b.len() && a[k] == b[k] {
        shared_prefix_from(a, b, k + 1)
    } else {
        k
    }
}

/// Number of leading characters that `a` and `b` have in common.
pub open spec fn shared_prefix(a: Seq<char>, b: Seq<char>) -> int {
    shared_prefix_from(a, b, 0)
}

pub proof fn lemma_shared_prefix_from(a: Seq<char>, b: Seq<char>, k: int)
    requires
        0 <= k <= a.len(),
        k <= b.len(),
        a.take(k) == b.take(k),
    ensures
        k <= shared_prefix_from(a, b, k) <= a.len(),
        shared_prefix_from(a, b, k) <= b.len(),
        a.take(shared_prefix_from(a, b, k)) == b.take(shared_prefix_from(a, b, k)),
        shared_prefix_from(a, b, k) == a.len() || shared_prefix_from(a, b, k) == b.len() || a[shared_prefix_from(
            a,
            b,
            k,
        )] != b[shared_prefix_from(a, b, k)],
    decreases a.len() - k,
{
    if k < a.len() && k < b.len() && a[k] == b[k] {
        assert(a.take(k + 1) =~= a.take(k).push(a[k]));
        assert(b.take(k + 1) =~= b.take(k).push(b[k]));
        lemma_shared_prefix_from(a, b, k + 1);
    }
}

/// The shared prefix is the longest common prefix.
pub proof fn lemma_shared_prefix(a: Seq<char>, b: Seq<char>)
    ensures
        0 <= shared_prefix(a, b) <= a.len(),
        shared_prefix(a, b) <= b.len(),
        a.take(shared_prefix(a, b)) == b.take(shared_prefix(a, b)),
        shared_prefix(a, b) == a.len() || shared_prefix(a, b) == b.len() || a[shared_prefix(a, b)]
            != b[shared_prefix(a, b)],
{
    assert(a.take(0) =~= b.take(0));
    lemma_shared_prefix_from(a, b, 0);
}

/// Trailing characters shared by `a` and `b`, taken from the end while their total UTF-8
/// width stays within `limit`: how many characters, and their width.
pub open spec fn shared_suffix_from(a: Seq<char>, b: Seq<char>, limit: int, j: int, width: int) -> (int, int)
    decreases a.len() - j,
{
    if 0 <= j < a.len() && j < b.len() && a[a.len() - 1 - j] == b[b.len() - 1 - j] && width + char_width(
        a[a.len() - 1 - j],
    ) <= limit {
        shared_suffix_from(a, b, limit, j + 1, width + char_width(a[a.len() - 1 - j]))
    } else {
        (j, width)
    }
}

/// The room left for a shared suffix once `prefix` bytes are taken by the shared prefix:
/// the shorter UTF-8 length minus `prefix`, or zero.
pub open spec fn suffix_limit(a: Seq<char>, b: Seq<char>, prefix: int) -> int {
    let m = if utf8_len(a) <= utf8_len(b) {
        utf8_len(a) as int
    } else {
        utf8_len(b) as int
    };
    if m >= prefix {
        m - prefix
    } else {
        0
    }
}

/// The shared suffix of `a` and `b` that does not overlap the first `prefix` bytes.
pub open spec fn shared_suffix(a: Seq<char>, b: Seq<char>, prefix: int) -> (int, int) {
    shared_suffix_from(a, b, suffix_limit(a, b, prefix), 0, 0)
}

proof fn lemma_skip_step(a: Seq<char>, j: int)
    requires
        0 <= j < a.len(),
    ensures
        utf8_len(a.skip(a.len() - (j + 1))) == char_width(a[a.len() - 1 - j]) + utf8_len(a.skip(a.len() - j)),
{
    assert(a.skip(a.len() - (j + 1)) =~= seq![a[a.len() - 1 - j]] + a.skip(a.len() - j));
    lemma_encode_concat(seq![a[a.len() - 1 - j]], a.skip(a.len() - j));
    lemma_single_width(a[a.len() - 1 - j]);
}

pub proof fn lemma_shared_suffix_from(a: Seq<char>, b: Seq<char>, limit: int, j: int, width: int)
    requires
        0 <= j <= a.len(),
        j <= b.len(),
        a.skip(a.len() - j) == b.skip(b.len() - j),
        width == utf8_len(a.skip(a.len() - j)),
        width <= limit,
    ensures
        j <= shared_suffix_from(a, b, limit, j, width).0 <= a.len(),
        shared_suffix_from(a, b, limit, j, width).0 <= b.len(),
        a.skip(a.len() - shared_suffix_from(a, b, limit, j, width).0) == b.skip(
            b.len() - shared_suffix_from(a, b, limit, j, width).0,
        ),
        shared_suffix_from(a, b, limit, j, width).1 == utf8_len(
            a.skip(a.len() - shared_suffix_from(a, b, limit, j, width).0),
        ),
        shared_suffix_from(a, b, limit, j, width).1 <= limit,
    decreases a.len() - j,
{
    if 0 <= j < a.len() && j < b.len() && a[a.len() - 1 - j] == b[b.len() - 1 - j] && width + char_width(
        a[a.len() - 1 - j],
    ) <= limit {
        lemma_skip_step(a, j);
        assert(b.skip(b.len() - (j + 1)) =~= seq![b[b.len() - 1 - j]] + b.skip(b.len() - j));
        assert(a.skip(a.len() - (j + 1)) =~= seq![a[a.len() - 1 - j]] + a.skip(a.len() - j));
        lemma_shared_suffix_from(a, b, limit, j + 1, width + char_width(a[a.len() - 1 - j]));
    }
}

/// The shared suffix is a common suffix of both sequences whose width stays within the
/// limit.
pub proof fn lemma_shared_suffix(a: Seq<char>, b: Seq<char>, prefix: int)
    ensures
        0 <= shared_suffix(a, b, prefix).0 <= a.len(),
        shared_suffix(a, b, prefix).0 <= b.len(),
        a.skip(a.len() - shared_suffix(a, b, prefix).0) == b.skip(b.len() - shared_suffix(a, b, prefix).0),
        shared_suffix(a, b, prefix).1 == utf8_len(a.skip(a.len() - shared_suffix(a, b, prefix).0)),
        shared_suffix(a, b, prefix).1 <= suffix_limit(a, b, prefix),
{
    assert(a.skip(a.len() - 0) =~= Seq::<char>::empty());
    assert(b.skip(b.len() - 0) =~= Seq::<char>::empty());
    assert(vstd::utf8::encode_utf8(Seq::<char>::empty()) =~= Seq::<u8>::empty());
    lemma_shared_suffix_from(a, b, suffix_limit(a, b, prefix), 0, 0);
}

/// The width of the last `j` characters is the length minus the offset where they start.
pub proof fn lemma_tail_width(a: Seq<char>, j: int)
    requires
        0 <= j <= a.len(),
    ensures
        utf8_len(a.skip(a.len() - j)) == utf8_len(a) - byte_offset(a, a.len() - j),
{
    assert(a =~= a.take(a.len() - j) + a.skip(a.len() - j));
    lemma_encode_concat(a.take(a.len() - j), a.skip(a.len() - j));
}

/// Leading characters in common and their width in bytes.
fn prefix_run(l: &[char], r: &[char]) -> (run: (usize, usize))
    requires
        byte_offset(l@, l@.len() as int) <= usize::MAX,
    ensures
        run.0 == shared_prefix(l@, r@),
        run.1 == byte_offset(l@, run.0 as int),
{
    let mut k: usize = 0;
    let mut n: usize = 0;
    assert(l@.take(0) =~= Seq::<char>::empty());
    while k < l.len() && k < r.len() && l[k] == r[k]
        invariant
            k <= l@.len(),
            k <= r@.len(),
            n == byte_offset(l@, k as int),
            byte_offset(l@, l@.len() as int) <= usize::MAX,
            shared_prefix_from(l@, r@, k as int) == shared_prefix(l@, r@),
        decreases l.len() - k,
    {
        proof {
            lemma_offset_step(l@, k as int);
            lemma_offset_bounds(l@, k + 1);
        }
        n = n + utf8_width(l[k]);
        k += 1;
    }
    (k, n)
}

/// Number of bytes at the start of `left` and `right` that encode the same characters.
pub fn common_prefix_bytes(left: &str, right: &str) -> (n: usize)
    ensures
        n == byte_offset(left@, shared_prefix(left@, right@)),
{
    utf8_len_fits(left);
    let l = chars_of(left);
    let r = chars_of(right);
    let run = prefix_run(l.as_slice(), r.as_slice());
    run.1
}

/// Trailing characters in common, within `limit` bytes: how many, and their width.
fn suffix_run(l: &[char], r: &[char], limit: usize) -> (run: (usize, usize))
    ensures
        run.0 == shared_suffix_from(l@, r@, limit as int, 0, 0).0,
        run.1 == shared_suffix_from(l@, r@, limit as int, 0, 0).1,
{
    let mut j: usize = 0;
    let mut width: usize = 0;
    loop
        invariant
            j <= l@.len(),
            j <= r@.len(),
            width <= limit,
            shared_suffix_from(l@, r@, limit as int, j as int, width as int) == shared_suffix_from(
                l@,
                r@,
                limit as int,
                0,
                0,
            ),
        ensures
            shared_suffix_from(l@, r@, limit as int, j as int, width as int) == (j as int, width as int),
            shared_suffix_from(l@, r@, limit as int, j as int, width as int) == shared_suffix_from(
                l@,
                r@,
                limit as int,
                0,
                0,
            ),
        decreases l.len() - j,
    {
        if j >= l.len() || j >= r.len() {
            break;
        }
        let c = l[l.len() - 1 - j];
        let d = r[r.len() - 1 - j];
        let w = utf8_width(c);
        if c != d || w > limit - width {
            break;
        }
        width = width + w;
        j += 1;
    }
    (j, width)
}

/// Number of bytes at the end of `left` and `right` that encode the same characters,
/// without reaching into the first `prefix` bytes of the shorter one.
pub fn common_suffix_bytes(left: &str, right: &str, prefix: usize) -> (n: usize)
    ensures
        n == shared_suffix(left@, right@, prefix as int).1,
{
    utf8_len_fits(left);
    utf8_len_fits(right);
    let a = left.len();
    let b = right.len();
    let shorter = if a <= b {
        a
    } else {
        b
    };
    let limit = if shorter >= prefix {
        shorter - prefix
    } else {
        0
    };
    let l = chars_of(left);
    let r = chars_of(right);
    let run = suffix_run(l.as_slice(), r.as_slice(), limit);
    run.1
}

// ---------------------------------------------------------------------------------------
// Applying an edit of the folded view
// ---------------------------------------------------------------------------------------

/// An edit of display bytes `start..end` reaches into placeholder `h`: an insertion
/// (`start == end`) when it falls strictly inside the placeholder, a replacement when the
/// two ranges overlap.
pub open spec fn edit_touches(h: (int, int, int, int, Seq<int>), start: int, end: int) -> bool {
    if start == end {
        h.0 < start && start < h.1
    } else {
        start < h.1 && h.0 < end
    }
}

/// Index of the first placeholder (from `k` on) that the edit reaches into.
pub open spec fn first_touched(h: Seq<(int, int, int, int, Seq<int>)>, start: int, end: int, k: int) -> Option<int>
    decreases h.len() - k,
{
    if k < 0 || k >= h.len() {
        None
    } else if edit_touches(h[k], start, end) {
        Some(k)
    } else {
        first_touched(h, start, end, k + 1)
    }
}

/// Where an edit that turned `before` into `after` lies: the shared prefix in characters and
/// in bytes, the shared suffix in characters, and the byte where the replaced span of
/// `before` ends.
pub struct EditSpan {
    pub prefix_chars: int,
    pub prefix: int,
    pub suffix_chars: int,
    pub old_end: int,
}

pub open spec fn edit_span(before: Seq<char>, after: Seq<char>) -> EditSpan {
    let kp = shared_prefix(before, after);
    let prefix = byte_offset(before, kp) as int;
    let suffix = shared_suffix(before, after, prefix);
    EditSpan { prefix_chars: kp, prefix, suffix_chars: suffix.0, old_end: utf8_len(before) - suffix.1 }
}

/// The source positions that the edit's display boundaries map to are in order and fall on
/// character boundaries of `source`, whenever the edit gets as far as writing.
pub open spec fn edit_fits_source(
    c: Seq<(int, int, int, int)>,
    h: Seq<(int, int, int, int, Seq<int>)>,
    text: Seq<char>,
    source: Seq<char>,
    before: Seq<char>,
) -> bool {
    let sp = edit_span(before, text);
    let ss = spec_display_to_source(c, h, sp.prefix);
    let se = spec_display_to_source(c, h, sp.old_end);
    before != text && first_touched(h, sp.prefix, sp.old_end, 0) is None && ss is Some && se is Some ==> {
        &&& ss->0 <= se->0
        &&& char_boundary(source, ss->0)
        &&& char_boundary(source, se->0)
    }
}

/// Any edit of the folded view of a document, with sections folded that lie on character
/// boundaries and close after they open, meets what `apply_edit` requires: the changed span's
/// ends map, where they map at all, to character boundaries of the source and in order.
/// With `law_found_regions_can_be_folded`, this holds of every view built from the regions
/// `fold_regions` finds, whatever the edited text.
pub proof fn law_folded_view_edits_fit_the_source(
    source: Seq<char>,
    regions: Seq<FoldRegion>,
    folded: Seq<Vec<usize>>,
    after: Seq<char>,
)
    requires
        forall|k: int|
            0 <= k < regions.len() && is_folded(folded, regions[k].id@) ==> cut_ok(source, #[trigger] regions[k])
                && regions[k].open_byte < regions[k].close_byte,
    ensures
        edit_fits_source(
            spec_projection(source, regions, folded).copies,
            spec_projection(source, regions, folded).holders,
            after,
            source,
            spec_projection(source, regions, folded).text,
        ),
{
    let v = spec_projection(source, regions, folded);
    let before = v.text;
    lemma_projection_aligned(source, regions, folded);
    lemma_projection_ordered(source, regions, folded);
    lemma_shared_prefix(before, after);
    let kp = shared_prefix(before, after);
    let prefix = byte_offset(before, kp) as int;
    lemma_offset_bounds(before, kp);
    lemma_offset_bounds(after, kp);
    assert(byte_offset(after, kp) == prefix);
    lemma_shared_suffix(before, after, prefix);
    let j = shared_suffix(before, after, prefix).0;
    lemma_tail_width(before, j);
    lemma_offset_bounds(before, before.len() - j);
    let sp = edit_span(before, after);
    assert(sp.prefix == prefix);
    assert(sp.old_end == byte_offset(before, before.len() - j));
    assert(prefix <= sp.old_end);
    lemma_view_positions_map_to_boundaries(source, v, kp);
    lemma_view_positions_map_to_boundaries(source, v, before.len() - j);
    let ss = spec_display_to_source(v.copies, v.holders, sp.prefix);
    let se = spec_display_to_source(v.copies, v.holders, sp.old_end);
    if ss is Some && se is Some {
        lemma_view_positions_in_order(v, byte_offset(source, source.len() as int) as int, sp.prefix, sp.old_end);
    }
}

/// The source after the edit: the changed span of the shown text replaces the source text
/// between the mapped boundaries.
pub open spec fn spliced_source(
    c: Seq<(int, int, int, int)>,
    h: Seq<(int, int, int, int, Seq<int>)>,
    text: Seq<char>,
    source: Seq<char>,
    before: Seq<char>,
) -> Seq<char> {
    let sp = edit_span(before, text);
    let ss = spec_display_to_source(c, h, sp.prefix)->0;
    let se = spec_display_to_source(c, h, sp.old_end)->0;
    source.take(char_at(source, ss)) + text.subrange(sp.prefix_chars, text.len() - sp.suffix_chars) + source.skip(
        char_at(source, se),
    )
}

pub proof fn lemma_char_at_unique(t: Seq<char>, b: int, k: int)
    requires
        0 <= k <= t.len(),
        byte_offset(t, k) == b,
    ensures
        char_at(t, b) == k,
{
    assert(char_boundary(t, b));
    let k0 = char_at(t, b);
    if k0 < k {
        lemma_offset_monotonic(t, k0, k);
    } else if k0 > k {
        lemma_offset_monotonic(t, k, k0);
    }
}

/// The changed span of the shown text lies between the shared prefix and suffix.
proof fn lemma_span_ordered(before: Seq<char>, after: Seq<char>)
    ensures
        0 <= edit_span(before, after).prefix_chars <= after.len() - edit_span(before, after).suffix_chars,
        edit_span(before, after).suffix_chars <= after.len(),
        edit_span(before, after).prefix <= edit_span(before, after).old_end <= utf8_len(before),
{
    let sp = edit_span(before, after);
    let kp = sp.prefix_chars;
    let js = sp.suffix_chars;
    lemma_shared_prefix(before, after);
    lemma_shared_suffix(before, after, sp.prefix);
    lemma_offset_bounds(before, kp);
    lemma_offset_bounds(after, kp);
    lemma_offset_bounds(before, before.len() as int);
    lemma_offset_bounds(after, after.len() as int);
    assert(before.take(kp) == after.take(kp));
    assert(byte_offset(before, kp) == byte_offset(after, kp));
    lemma_tail_width(after, js);
    lemma_offset_bounds(after, after.len() - js);
    if after.len() - js < kp {
        lemma_offset_monotonic(after, after.len() - js, kp);
    }
}

fn push_range(out: &mut Vec<char>, src: &[char], from: usize, to: usize)
    requires
        from <= to <= src@.len(),
    ensures
        final(out)@ == old(out)@ + src@.subrange(from as int, to as int),
{
    let mut i: usize = from;
    while i < to
        invariant
            from <= i <= to <= src@.len(),
            out@ == old(out)@ + src@.subrange(from as int, i as int),
        decreases to - i,
    {
        out.push(src[i]);
        i += 1;
        assert(out@ =~= old(out)@ + src@.subrange(from as int, i as int));
    }
}

impl FoldProjection {
    /// Carries the user's edit of the shown text into `source`. `before` is the shown text as
    /// it was before the edit, and the projection's own text is the edited one. The changed
    /// span is what lies between the longest shared prefix and the shared suffix that does
    /// not overlap it. If that span reaches into a placeholder, the section it folds is
    /// reported and nothing changes; if a boundary of the span has no source position,
    /// nothing changes either. Otherwise the span replaces the source text between the
    /// mapped positions, and hidden text elsewhere is kept as it was.
    pub fn apply_edit(&self, source: &mut String, before: &str) -> (r: Result<(), ProjectionEditError>)
        requires
            edit_fits_source(
                self.view_copies(),
                self.view_placeholders(),
                self.view_text(),
                old(source)@,
                before@,
            ),
        ensures
            ({
                let sp = edit_span(before@, self.view_text());
                let h = self.view_placeholders();
                let ss = spec_display_to_source(self.view_copies(), h, sp.prefix);
                let se = spec_display_to_source(self.view_copies(), h, sp.old_end);
                if before@ == self.view_text() {
                    r is Ok && final(source)@ == old(source)@
                } else {
                    match first_touched(h, sp.prefix, sp.old_end, 0) {
                        Some(i) => {
                            &&& r matches Err(ProjectionEditError::Hidden(id)) && id_view(id@) == h[i].4
                            &&& final(source)@ == old(source)@
                        },
                        None => if ss is None || se is None {
                            &&& r matches Err(ProjectionEditError::InvalidMapping)
                            &&& final(source)@ == old(source)@
                        } else {
                            &&& r is Ok
                            &&& final(source)@ == spliced_source(
                                self.view_copies(),
                                h,
                                self.view_text(),
                                old(source)@,
                                before@,
                            )
                        },
                    }
                }
            }),
    {
        let text = self.text();
        if str_eq(text.as_str(), before) {
            return Ok(());
        }
        let ghost sp = edit_span(before@, self.view_text());
        let ghost hv = self.view_placeholders();
        utf8_len_fits(before);
        utf8_len_fits(text.as_str());
        let b = chars_of(before);
        let t = chars_of(text.as_str());
        let (kp, prefix) = prefix_run(b.as_slice(), t.as_slice());
        let before_len = before.len();
        let text_len = text.as_str().len();
        let shorter = if before_len <= text_len {
            before_len
        } else {
            text_len
        };
        let limit = if shorter >= prefix {
            shorter - prefix
        } else {
            0
        };
        let (js, suffix) = suffix_run(b.as_slice(), t.as_slice(), limit);
        proof {
            lemma_span_ordered(before@, self.view_text());
        }
        let old_end = before_len - suffix;
        assert(prefix as int == sp.prefix && old_end as int == sp.old_end);
        let holders = self.placeholders();
        let mut i: usize = 0;
        while i < holders.len()
            invariant
                i <= holders@.len(),
                crate::json_text::holders_view(holders@) == hv,
                prefix as int == sp.prefix && old_end as int == sp.old_end,
                before@ != self.view_text(),
                sp == edit_span(before@, self.view_text()),
                hv == self.view_placeholders(),
                first_touched(hv, prefix as int, old_end as int, i as int) == first_touched(
                    hv,
                    prefix as int,
                    old_end as int,
                    0,
                ),
            decreases holders.len() - i,
        {
            let p = &holders[i];
            assert(hv[i as int] == crate::json_text::holder_view(holders@[i as int]));
            let touches = if prefix == old_end {
                p.display.start < prefix && prefix < p.display.end
            } else {
                prefix < p.display.end && p.display.start < old_end
            };
            if touches {
                let id = copy_id(&p.id);
                proof {
                    assert(prefix as int == sp.prefix && old_end as int == sp.old_end);
                    assert(edit_touches(hv[i as int], prefix as int, old_end as int));
                    assert(id_view(id@) == hv[i as int].4);
                    assert(first_touched(hv, sp.prefix, sp.old_end, i as int) == Some(i as int));
                    assert(first_touched(hv, sp.prefix, sp.old_end, 0) == Some(i as int));
                }
                return Err(ProjectionEditError::Hidden(id));
            }
            i += 1;
        }
        let ss = match self.display_to_source(prefix) {
            Some(x) => x,
            None => {
                return Err(ProjectionEditError::InvalidMapping);
            },
        };
        let se = match self.display_to_source(old_end) {
            Some(x) => x,
            None => {
                return Err(ProjectionEditError::InvalidMapping);
            },
        };
        utf8_len_fits(source.as_str());
        let s = chars_of(source.as_str());
        let ks = match char_index_at_byte(s.as_slice(), ss) {
            Some(k) => k,
            None => {
                proof {
                    let w = choose|k: int| 0 <= k <= s@.len() && byte_offset(s@, k) == ss;
                    assert(byte_offset(s@, w) != ss);
                }
                return Err(ProjectionEditError::InvalidMapping);
            },
        };
        let ke = match char_index_at_byte(s.as_slice(), se) {
            Some(k) => k,
            None => {
                proof {
                    let w = choose|k: int| 0 <= k <= s@.len() && byte_offset(s@, k) == se;
                    assert(byte_offset(s@, w) != se);
                }
                return Err(ProjectionEditError::InvalidMapping);
            },
        };
        proof {
            lemma_char_at_unique(s@, ss as int, ks as int);
            lemma_char_at_unique(s@, se as int, ke as int);
            if ks > ke {
                lemma_offset_monotonic(s@, ke as int, ks as int);
            }
        }
        let mut out: Vec<char> = Vec::new();
        push_range(&mut out, s.as_slice(), 0, ks);
        push_range(&mut out, t.as_slice(), kp, t.len() - js);
        push_range(&mut out, s.as_slice(), ke, s.len());
        proof {
            assert(s@.subrange(0, ks as int) =~= s@.take(ks as int));
            assert(s@.subrange(ke as int, s@.len() as int) =~= s@.skip(ke as int));
        }
        *source = string_from_chars(out.as_slice());
        Ok(())
    }
}

} // verus!
