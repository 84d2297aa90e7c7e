//! Item editing rules shared by the guided editors: how authored levels are shown as
//! in-game power, the picker rows for item definitions, and compact picker text.
use vstd::prelude::*;
use crate::text::{chars_of, push_char, push_str, str_eq, string_from_chars};

verus! {

/// Power shown in game for each authored item level.
pub const POWER_PER_LEVEL: i64 = 10;

/// Lowest power that any powered item displays in game.
pub const MINIMUM_POWERED_ITEM_POWER: i64 = 750;

/// Highest power that the guided editor accepts.
pub const MAXIMUM_POWERED_ITEM_POWER: i64 = 1060;

/// The in-game power for an authored level: unpowered items show 0, and every powered
/// item shows at least the minimum powered value.
pub open spec fn spec_displayed_item_power(authored_level: int) -> int {
    if authored_level <= 0 {
        0
    } else if authored_level * 10 <= 750 {
        750
    } else if authored_level * 10 > i64::MAX {
        i64::MAX as int
    } else {
        authored_level * 10
    }
}

pub fn displayed_item_power(authored_level: i64) -> (power: i64)
    ensures
        power == spec_displayed_item_power(authored_level as int),
{
    if authored_level <= 0 {
        0
    } else {
        let scaled = if authored_level > i64::MAX / POWER_PER_LEVEL {
            i64::MAX
        } else {
            authored_level * POWER_PER_LEVEL
        };
        if scaled < MINIMUM_POWERED_ITEM_POWER {
            MINIMUM_POWERED_ITEM_POWER
        } else {
            scaled
        }
    }
}

/// The values the power field accepts: zero for unpowered items, up to the highest power.
pub fn item_power_input_range() -> (range: core::ops::RangeInclusive<i64>)
    ensures
        range@.start == 0,
        range@.end == MAXIMUM_POWERED_ITEM_POWER,
        !range@.exhausted,
{
    core::ops::RangeInclusive::new(0, MAXIMUM_POWERED_ITEM_POWER)
}

/// The authored level stored for an entered power: negative power is refused, zero stays
/// unpowered, and any other power is raised to the minimum powered value and rounded down
/// to a whole level.
pub open spec fn spec_authored_item_level(display_power: int) -> Option<int> {
    if display_power < 0 {
        None
    } else if display_power == 0 {
        Some(0)
    } else if display_power < MINIMUM_POWERED_ITEM_POWER {
        Some(MINIMUM_POWERED_ITEM_POWER as int / POWER_PER_LEVEL as int)
    } else {
        Some(display_power / (POWER_PER_LEVEL as int))
    }
}

/// Entering the power shown for a stored level gives that level back, for unpowered items
/// and for every level at or above the minimum powered level (whose shown power fits an
/// `i64`).
pub proof fn law_shown_power_reads_back(authored_level: int)
    requires
        authored_level == 0 || (MINIMUM_POWERED_ITEM_POWER / POWER_PER_LEVEL <= authored_level && authored_level * 10 <= i64::MAX),
    ensures
        spec_authored_item_level(spec_displayed_item_power(authored_level)) == Some(authored_level),
{
}

/// An entered powered value is stored as a level whose shown power is the entered power
/// snapped down to a whole level: at most the entry and less than one level below it.
pub proof fn law_entered_power_snaps_down(display_power: int)
    requires
        MINIMUM_POWERED_ITEM_POWER <= display_power <= i64::MAX,
    ensures
        spec_authored_item_level(display_power) matches Some(level) && {
            let shown = spec_displayed_item_power(level);
            shown <= display_power < shown + POWER_PER_LEVEL
        },
{
}

pub fn authored_item_level(display_power: i64) -> (level: Option<i64>)
    ensures
        match level {
            Some(l) => spec_authored_item_level(display_power as int) == Some(l as int),
            None => spec_authored_item_level(display_power as int) is None,
        },
{
    if display_power < 0 {
        None
    } else if display_power == 0 {
        Some(0)
    } else {
        let raised = if display_power < MINIMUM_POWERED_ITEM_POWER {
            MINIMUM_POWERED_ITEM_POWER
        } else {
            display_power
        };
        Some(raised / POWER_PER_LEVEL)
    }
}

/// What an empty plug slot of an item holds natively.
#[derive(Clone, Copy, Debug, PartialEq, Eq, Structural)]
pub enum NativePlugDefault {
    Plug(u64),
    Empty,
}

impl NativePlugDefault {
    /// The plug hash, if the slot natively holds one.
    pub fn value(self) -> (v: Option<u64>)
        ensures
            v == match self {
                NativePlugDefault::Plug(hash) => Some(hash),
                NativePlugDefault::Empty => None,
            },
    {
        match self {
            NativePlugDefault::Plug(hash) => Some(hash),
            NativePlugDefault::Empty => None,
        }
    }
}

// ---------------------------------------------------------------------------------------
// Definition picker
// ---------------------------------------------------------------------------------------

/// One item definition offered by a picker.
#[derive(Clone, Debug, PartialEq, Eq)]
pub struct DefinitionChoice {
    pub hash: u64,
    pub name: String,
    pub item_type: String,
    /// Optional browse grouping. Callers keep equal groups adjacent.
    pub group: Option<String>,
}

/// A row of the definition picker: a group heading, or a definition.
#[derive(Clone, Copy, Debug, PartialEq, Eq)]
pub enum DefinitionPickerRow<'a> {
    Group(&'a str),
    Definition(&'a DefinitionChoice),
}

/// Two optional group names are the same.
pub open spec fn same_group(a: Option<String>, b: Option<String>) -> bool {
    match (a, b) {
        (None, None) => true,
        (Some(x), Some(y)) => x@ == y@,
        _ => false,
    }
}

/// The definitions name at least two different groups.
pub open spec fn has_multiple_groups(defs: Seq<DefinitionChoice>) -> bool {
    exists|i: int, j: int|
        0 <= i < defs.len() && 0 <= j < defs.len() && (#[trigger] defs[i]).group is Some
            && (#[trigger] defs[j]).group is Some && defs[i].group->0@ != defs[j].group->0@
}

/// The picker layout of the first `n` definitions: for each definition, a heading first when
/// its group differs from the previous definition's (or, for the first, when it has one),
/// the definitions name several groups and it has a group; then the definition itself.
/// `(true, i)` is the heading of definition `i`'s group, `(false, i)` definition `i`.
pub open spec fn picker_shape(defs: Seq<DefinitionChoice>, multiple: bool, n: int) -> Seq<(bool, int)>
    decreases n,
{
    if n <= 0 {
        Seq::empty()
    } else {
        let prev = picker_shape(defs, multiple, n - 1);
        let i = n - 1;
        let changed = if i == 0 {
            defs[0].group is Some
        } else {
            !same_group(defs[i - 1].group, defs[i].group)
        };
        let with_heading = if changed && multiple && defs[i].group is Some {
            prev.push((true, i))
        } else {
            prev
        };
        with_heading.push((false, i))
    }
}

/// `rows` lays out `defs` as `picker_shape` describes.
pub open spec fn rows_match(rows: Seq<DefinitionPickerRow>, defs: Seq<DefinitionChoice>, shape: Seq<(bool, int)>) -> bool {
    &&& rows.len() == shape.len()
    &&& forall|k: int|
        0 <= k < rows.len() ==> match #[trigger] rows[k] {
            DefinitionPickerRow::Group(g) => shape[k].0 && 0 <= shape[k].1 < defs.len()
                && defs[shape[k].1].group is Some && g@ == defs[shape[k].1].group->0@,
            DefinitionPickerRow::Definition(d) => !shape[k].0 && 0 <= shape[k].1 < defs.len() && *d
                == defs[shape[k].1],
        }
}

fn opt_str_eq(a: &Option<String>, b: &Option<String>) -> (r: bool)
    ensures
        r == same_group(*a, *b),
{
    match (a, b) {
        (None, None) => true,
        (Some(x), Some(y)) => str_eq(x.as_str(), y.as_str()),
        _ => false,
    }
}

/// Whether the definitions name at least two different groups.
fn definitions_have_multiple_groups(defs: &[DefinitionChoice]) -> (r: bool)
    ensures
        r == has_multiple_groups(defs@),
{
    let mut first: Option<usize> = None;
    let mut i: usize = 0;
    while i < defs.len()
        invariant
            i <= defs@.len(),
            match first {
                Some(f) => f < i && defs@[f as int].group is Some && forall|k: int|
                    0 <= k < i && (#[trigger] defs@[k]).group is Some ==> defs@[k].group->0@
                        == defs@[f as int].group->0@,
                None => forall|k: int| 0 <= k < i ==> (#[trigger] defs@[k]).group is None,
            },
        decreases defs.len() - i,
    {
        match &defs[i].group {
            Some(g) => match first {
                Some(f) => {
                    let fg = defs[f].group.as_ref().unwrap();
                    if !str_eq(fg.as_str(), g.as_str()) {
                        assert(has_multiple_groups(defs@)) by {
                            assert(defs@[f as int].group is Some && defs@[i as int].group is Some);
                        }
                        return true;
                    }
                },
                None => {
                    first = Some(i);
                },
            },
            None => {},
        }
        i += 1;
    }
    proof {
        if has_multiple_groups(defs@) {
            let (a, b) = choose|a: int, b: int|
                0 <= a < defs@.len() && 0 <= b < defs@.len() && (#[trigger] defs@[a]).group is Some
                    && (#[trigger] defs@[b]).group is Some && defs@[a].group->0@ != defs@[b].group->0@;
            assert(defs@[a].group is Some);
        }
    }
    false
}

/// The rows of a definition picker: the definitions in order, with a heading before each run
/// of a group. When every grouped definition shares one group, its heading is left out.
pub fn definition_picker_rows(definitions: &[DefinitionChoice]) -> (rows: Vec<DefinitionPickerRow<'_>>)
    ensures
        rows_match(
            rows@,
            definitions@,
            picker_shape(definitions@, has_multiple_groups(definitions@), definitions@.len() as int),
        ),
{
    let multiple = definitions_have_multiple_groups(definitions);
    let ghost defs = definitions@;
    let mut rows: Vec<DefinitionPickerRow<'_>> = Vec::new();
    let mut i: usize = 0;
    while i < definitions.len()
        invariant
            i <= defs.len(),
            defs == definitions@,
            multiple == has_multiple_groups(defs),
            rows_match(rows@, defs, picker_shape(defs, multiple, i as int)),
        decreases definitions.len() - i,
    {
        let definition = &definitions[i];
        let changed = if i == 0 {
            definition.group.is_some()
        } else {
            !opt_str_eq(&definitions[i - 1].group, &definition.group)
        };
        let ghost prev = rows@;
        if changed && multiple {
            match &definition.group {
                Some(g) => {
                    rows.push(DefinitionPickerRow::Group(g.as_str()));
                },
                None => {},
            }
        }
        rows.push(DefinitionPickerRow::Definition(definition));
        proof {
            let shape = picker_shape(defs, multiple, i + 1);
            assert(shape.len() == rows@.len());
            assert forall|k: int| 0 <= k < rows@.len() implies match #[trigger] rows@[k] {
                DefinitionPickerRow::Group(g) => shape[k].0 && 0 <= shape[k].1 < defs.len()
                    && defs[shape[k].1].group is Some && g@ == defs[shape[k].1].group->0@,
                DefinitionPickerRow::Definition(d) => !shape[k].0 && 0 <= shape[k].1 < defs.len() && *d
                    == defs[shape[k].1],
            } by {
                if k < prev.len() {
                    assert(rows@[k] == prev[k]);
                }
            }
        }
        i += 1;
    }
    rows
}

// ---------------------------------------------------------------------------------------
// Compact picker text
// ---------------------------------------------------------------------------------------

/// Unicode whitespace, as `char::is_whitespace` defines it.
pub open spec fn is_whitespace(c: char) -> bool {
    ||| '\u{9}' <= c <= '\u{d}'
    ||| c == ' '
    ||| c == '\u{85}'
    ||| c == '\u{a0}'
    ||| c == '\u{1680}'
    ||| '\u{2000}' <= c <= '\u{200a}'
    ||| c == '\u{2028}'
    ||| c == '\u{2029}'
    ||| c == '\u{202f}'
    ||| c == '\u{205f}'
    ||| c == '\u{3000}'
}

fn is_whitespace_exec(c: char) -> (r: bool)
    ensures
        r == is_whitespace(c),
{
    ('\u{9}' <= c && c <= '\u{d}') || c == ' ' || c == '\u{85}' || c == '\u{a0}' || c == '\u{1680}'
        || ('\u{2000}' <= c && c <= '\u{200a}') || c == '\u{2028}' || c == '\u{2029}' || c
        == '\u{202f}' || c == '\u{205f}' || c == '\u{3000}'
}

/// The words of `s` (its maximal runs of non-whitespace) joined by single spaces, together
/// with whether `s` ends in whitespace.
pub open spec fn collapse_whitespace(s: Seq<char>) -> (Seq<char>, bool)
    decreases s.len(),
{
    if s.len() == 0 {
        (Seq::empty(), false)
    } else {
        let prev = collapse_whitespace(s.drop_last());
        let c = s.last();
        if is_whitespace(c) {
            (prev.0, true)
        } else if prev.1 && prev.0.len() > 0 {
            (prev.0.push(' ').push(c), false)
        } else {
            (prev.0.push(c), false)
        }
    }
}

/// The words of `text` joined by single spaces, so that it fits on one line.
pub fn single_line_text(text: &str) -> (line: String)
    ensures
        line@ == collapse_whitespace(text@).0,
{
    let chars = chars_of(text);
    let mut out = String::new();
    let mut gap = false;
    let mut i: usize = 0;
    assert(chars@.take(0) =~= Seq::<char>::empty());
    while i < chars.len()
        invariant
            i <= chars@.len(),
            (out@, gap) == collapse_whitespace(chars@.take(i as int)),
        decreases chars.len() - i,
    {
        let c = chars[i];
        assert(chars@.take(i + 1).drop_last() =~= chars@.take(i as int));
        if is_whitespace_exec(c) {
            gap = true;
        } else {
            if gap && !out.as_str().is_empty() {
                push_char(&mut out, ' ');
            }
            push_char(&mut out, c);
            gap = false;
        }
        i += 1;
    }
    assert(chars@.take(chars@.len() as int) =~= chars@);
    out
}

/// Number of whitespace characters at the start of `s`, from `k` on.
pub open spec fn leading_ws_from(s: Seq<char>, k: int) -> int
    decreases s.len() - k,
{
    if 0 <= k < s.len() && is_whitespace(s[k]) {
        leading_ws_from(s, k + 1)
    } else {
        k
    }
}

/// Index just past the last non-whitespace character of `s` before `k`.
pub open spec fn trailing_end(s: Seq<char>, k: int) -> int
    decreases k,
{
    if 0 < k <= s.len() && is_whitespace(s[k - 1]) {
        trailing_end(s, k - 1)
    } else {
        k
    }
}

/// `s` without leading and trailing whitespace, as `str::trim` gives it.
pub open spec fn trimmed(s: Seq<char>) -> Seq<char> {
    let start = leading_ws_from(s, 0);
    if start >= s.len() {
        Seq::empty()
    } else {
        s.subrange(start, trailing_end(s, s.len() as int))
    }
}

pub(crate) fn trim_chars(s: &[char]) -> (t: Vec<char>)
    ensures
        t@ == trimmed(s@),
{
    let mut start: usize = 0;
    while start < s.len() && is_whitespace_exec(s[start])
        invariant
            start <= s@.len(),
            leading_ws_from(s@, start as int) == leading_ws_from(s@, 0),
        decreases s.len() - start,
    {
        start += 1;
    }
    let mut out: Vec<char> = Vec::new();
    if start >= s.len() {
        return out;
    }
    let mut end: usize = s.len();
    while end > 0 && is_whitespace_exec(s[end - 1])
        invariant
            start < s@.len(),
            !is_whitespace(s@[start as int]),
            start < end <= s@.len(),
            trailing_end(s@, end as int) == trailing_end(s@, s@.len() as int),
        decreases end,
    {
        proof {
            if end - 1 == start {
                assert(!is_whitespace(s@[start as int]));
            }
        }
        end -= 1;
    }
    let mut i: usize = start;
    while i < end
        invariant
            start <= i <= end <= s@.len(),
            out@ == s@.subrange(start as int, i as int),
        decreases end - i,
    {
        out.push(s[i]);
        i += 1;
        assert(out@ =~= s@.subrange(start as int, i as int));
    }
    out
}

/// The secondary line of a picker row: the trimmed type name and description joined by a
/// middle dot, or whichever of them is not empty.
pub fn picker_secondary_text(item_type: &str, description: &str) -> (text: String)
    ensures
        text@ == (if trimmed(item_type@).len() == 0 {
            trimmed(description@)
        } else if trimmed(description@).len() == 0 {
            trimmed(item_type@)
        } else {
            trimmed(item_type@) + seq![' ', '\u{b7}', ' '] + trimmed(description@)
        }),
{
    let t = chars_of(item_type);
    let d = chars_of(description);
    let tt = trim_chars(t.as_slice());
    let dt = trim_chars(d.as_slice());
    if tt.len() == 0 {
        string_from_chars(dt.as_slice())
    } else if dt.len() == 0 {
        string_from_chars(tt.as_slice())
    } else {
        let mut out = string_from_chars(tt.as_slice());
        push_char(&mut out, ' ');
        push_char(&mut out, '\u{b7}');
        push_char(&mut out, ' ');
        let ghost head = out@;
        let rest = string_from_chars(dt.as_slice());
        push_str(&mut out, rest.as_str());
        assert(head =~= tt@ + seq![' ', '\u{b7}', ' ']);
        out
    }
}

} // verus!
