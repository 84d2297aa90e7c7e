//! Settings-file rules: where Sunrise keeps `settings.json`, the size limit each schema
//! allows, how the saved size is reported, and how the installed Sunrise version is shown.
use vstd::prelude::*;
use crate::encode::PreparedSettings;
use crate::item_editor::{is_whitespace, leading_ws_from, trailing_end};
use crate::text::{chars_of, decimal, owned, push_char, push_decimal, push_str, str_eq};

verus! {

/// Where an installation keeps its `settings.json`.
#[derive(Clone, Copy, Debug, PartialEq, Eq, Structural)]
pub enum SettingsLayout {
    Root,
    BinX64,
}

impl SettingsLayout {
    /// The path of `settings.json` below the installation folder.
    pub fn relative_path(self) -> (path: &'static str)
        ensures
            path@ == match self {
                SettingsLayout::Root => "Sunrise\\settings.json"@,
                SettingsLayout::BinX64 => "bin\\x64\\Sunrise\\settings.json"@,
            },
    {
        match self {
            SettingsLayout::Root => "Sunrise\\settings.json",
            SettingsLayout::BinX64 => "bin\\x64\\Sunrise\\settings.json",
        }
    }

    /// How the layout is stored in the preferences file.
    pub fn preference_value(self) -> (value: &'static str)
        ensures
            value@ == match self {
                SettingsLayout::Root => "root"@,
                SettingsLayout::BinX64 => "bin_x64"@,
            },
    {
        match self {
            SettingsLayout::Root => "root",
            SettingsLayout::BinX64 => "bin_x64",
        }
    }

    /// The layout a stored preference names, if it names one.
    pub fn from_preference(value: &str) -> (layout: Option<SettingsLayout>)
        ensures
            layout == if value@ == "root"@ {
                Some(SettingsLayout::Root)
            } else if value@ == "bin_x64"@ {
                Some(SettingsLayout::BinX64)
            } else {
                None
            },
    {
        if str_eq(value, "root") {
            Some(SettingsLayout::Root)
        } else if str_eq(value, "bin_x64") {
            Some(SettingsLayout::BinX64)
        } else {
            None
        }
    }
}

/// Reading a layout back from its stored preference gives the layout.
pub proof fn law_layout_preference_round_trip(layout: SettingsLayout)
    ensures
        (if (match layout {
            SettingsLayout::Root => "root"@,
            SettingsLayout::BinX64 => "bin_x64"@,
        }) == "root"@ {
            SettingsLayout::Root
        } else {
            SettingsLayout::BinX64
        }) == layout,
{
    reveal_strlit("root");
    reveal_strlit("bin_x64");
    assert("root"@ != "bin_x64"@) by {
        assert("root"@.len() != "bin_x64"@.len());
    }
}

/// Which `settings.json` an installation uses.
#[derive(Clone, Copy, Debug, PartialEq, Eq, Structural)]
pub enum SettingsPathResolution {
    /// The file of this layout.
    Found(SettingsLayout),
    /// Neither layout has the file.
    Missing,
    /// Both layouts have the file and no preference picks one.
    Ambiguous,
}

/// Whether the installation has the file of `layout`, given which files exist.
pub open spec fn layout_file_exists(layout: SettingsLayout, root_exists: bool, bin_x64_exists: bool) -> bool {
    match layout {
        SettingsLayout::Root => root_exists,
        SettingsLayout::BinX64 => bin_x64_exists,
    }
}

/// The settings file to use: the preferred layout's when it exists; otherwise the one
/// layout whose file exists; none when neither does, and no choice when both do.
pub fn resolve_settings_path(preferred_layout: Option<SettingsLayout>, root_exists: bool, bin_x64_exists: bool) -> (r:
    SettingsPathResolution)
    ensures
        r == (if preferred_layout matches Some(l) && layout_file_exists(l, root_exists, bin_x64_exists) {
            SettingsPathResolution::Found(preferred_layout->0)
        } else if root_exists && bin_x64_exists {
            SettingsPathResolution::Ambiguous
        } else if root_exists {
            SettingsPathResolution::Found(SettingsLayout::Root)
        } else if bin_x64_exists {
            SettingsPathResolution::Found(SettingsLayout::BinX64)
        } else {
            SettingsPathResolution::Missing
        }),
{
    if let Some(layout) = preferred_layout {
        let exists = match layout {
            SettingsLayout::Root => root_exists,
            SettingsLayout::BinX64 => bin_x64_exists,
        };
        if exists {
            return SettingsPathResolution::Found(layout);
        }
    }
    if root_exists && bin_x64_exists {
        SettingsPathResolution::Ambiguous
    } else if root_exists {
        SettingsPathResolution::Found(SettingsLayout::Root)
    } else if bin_x64_exists {
        SettingsPathResolution::Found(SettingsLayout::BinX64)
    } else {
        SettingsPathResolution::Missing
    }
}

/// The message for an installation without a settings file, naming the two places looked
/// in, as the paths are displayed.
pub fn missing_settings_message(root_path: &str, bin_x64_path: &str) -> (m: String)
    ensures
        m@ == "No Project Sunrise settings.json was found in the selected installation. Checked "@ + root_path@
            + " and "@ + bin_x64_path@
            + ". Choose the Destiny 2 Shadowkeep folder containing destiny2.exe and confirm Project Sunrise is installed there"@,
{
    let mut m = owned("No Project Sunrise settings.json was found in the selected installation. Checked ");
    push_str(&mut m, root_path);
    push_str(&mut m, " and ");
    push_str(&mut m, bin_x64_path);
    push_str(
        &mut m,
        ". Choose the Destiny 2 Shadowkeep folder containing destiny2.exe and confirm Project Sunrise is installed there",
    );
    m
}

/// The message for an installation where both layouts hold a settings file and no saved
/// preference picks one.
pub fn ambiguous_settings_message() -> (m: String)
    ensures
        m@ == "Two Sunrise settings.json files were found; open Sundial and choose which one Project Sunrise uses"@,
{
    owned("Two Sunrise settings.json files were found; open Sundial and choose which one Project Sunrise uses")
}

/// Safety warnings are shown unless the user turned them off.
pub fn default_show_safety_warnings() -> (show: bool)
    ensures
        show,
{
    true
}

/// There is something to save when the document or the raw JSON editor has edits.
pub fn has_pending_edits(document_dirty: bool, json_unapplied: bool) -> (pending: bool)
    ensures
        pending == (document_dirty || json_unapplied),
{
    document_dirty || json_unapplied
}

pub const KIB: usize = 1024;
pub const MIB: usize = 1024 * 1024;

/// A size limit as shown to the user: whole MiB when it is a multiple of one, else KiB.
pub open spec fn size_label_text(bytes: usize) -> Seq<char> {
    if bytes % MIB == 0 {
        decimal((bytes / MIB) as nat) + " MiB"@
    } else {
        decimal((bytes / KIB) as nat) + " KiB"@
    }
}

pub fn settings_size_label(bytes: usize) -> (label: String)
    ensures
        label@ == size_label_text(bytes),
{
    let mut label = String::new();
    if bytes % MIB == 0 {
        push_decimal(&mut label, (bytes / MIB) as u64);
        push_str(&mut label, " MiB");
    } else {
        push_decimal(&mut label, (bytes / KIB) as u64);
        push_str(&mut label, " KiB");
    }
    label
}

/// What a save produced: the bytes written, the schema's limit, and whether the file had to
/// be compacted and is still above the limit.
#[derive(Clone, Copy, Debug, PartialEq, Eq, Structural)]
pub struct SaveSizeReport {
    pub encoded_bytes: usize,
    pub size_limit_bytes: usize,
    pub compacted: bool,
    pub exceeds_size_limit: bool,
}

/// The sentence appended to the save status about the file's size.
pub open spec fn size_note_text(result: SaveSizeReport) -> Seq<char> {
    if result.exceeds_size_limit {
        " Warning: the compacted file is "@ + decimal(result.encoded_bytes as nat)
            + " bytes, above this Sunrise schema's "@ + size_label_text(result.size_limit_bytes)
            + " settings limit, and may not load."@
    } else if result.compacted {
        " Sunrise-style formatting exceeded this schema's "@ + size_label_text(result.size_limit_bytes)
            + " limit, so Sundial compacted the file to "@ + decimal(result.encoded_bytes as nat) + " bytes."@
    } else {
        Seq::empty()
    }
}

pub fn settings_size_note(result: &SaveSizeReport) -> (note: String)
    ensures
        note@ == size_note_text(*result),
{
    let limit = settings_size_label(result.size_limit_bytes);
    let mut note = String::new();
    if result.exceeds_size_limit {
        push_str(&mut note, " Warning: the compacted file is ");
        push_decimal(&mut note, result.encoded_bytes as u64);
        push_str(&mut note, " bytes, above this Sunrise schema's ");
        push_str(&mut note, limit.as_str());
        push_str(&mut note, " settings limit, and may not load.");
    } else if result.compacted {
        push_str(&mut note, " Sunrise-style formatting exceeded this schema's ");
        push_str(&mut note, limit.as_str());
        push_str(&mut note, " limit, so Sundial compacted the file to ");
        push_decimal(&mut note, result.encoded_bytes as u64);
        push_str(&mut note, " bytes.");
    }
    note
}

/// The sentence a save adds about ability pairings it corrected.
pub open spec fn repair_note_text(count: nat) -> Seq<char> {
    if count == 0 {
        Seq::empty()
    } else if count == 1 {
        " Corrected one invalid ability pairing."@
    } else {
        " Corrected "@ + decimal(count) + " invalid ability pairings."@
    }
}

pub fn repair_note(count: usize) -> (note: String)
    ensures
        note@ == repair_note_text(count as nat),
{
    if count == 0 {
        String::new()
    } else if count == 1 {
        owned(" Corrected one invalid ability pairing.")
    } else {
        let mut note = String::new();
        push_str(&mut note, " Corrected ");
        push_decimal(&mut note, count as u64);
        push_str(&mut note, " invalid ability pairings.");
        note
    }
}

/// The status after a save that wrote the file: when an unexpected setting was detected and
/// a safety copy of the untouched source was made, it names both; otherwise it reports the
/// save. Either way it adds the repair and size notes and the backup's place.
pub open spec fn saved_status_text(
    repaired: nat,
    size: SaveSizeReport,
    warning: Option<Seq<char>>,
    safety_copy: Option<Seq<char>>,
    backup: Seq<char>,
) -> Seq<char> {
    match (warning, safety_copy) {
        (Some(w), Some(c)) => "Saved after detecting an unexpected setting ("@ + w + ")."@ + repair_note_text(repaired)
            + size_note_text(size) + " The untouched source is at "@ + c + ". Backup: "@ + backup,
        _ => "Saved."@ + repair_note_text(repaired) + size_note_text(size) + " Backup: "@ + backup,
    }
}

/// The status after a save that wrote the file, as `saved_status_text` gives it, and whether
/// it is shown as an error: after an unexpected setting, or when the file is still above the
/// size limit.
pub fn saved_status(
    repaired: usize,
    size: &SaveSizeReport,
    warning: Option<&str>,
    safety_copy: Option<&str>,
    backup: &str,
) -> (status: (String, bool))
    ensures
        status.0@ == saved_status_text(
            repaired as nat,
            *size,
            match warning {
                Some(w) => Some(w@),
                None => None,
            },
            match safety_copy {
                Some(c) => Some(c@),
                None => None,
            },
            backup@,
        ),
        status.1 == ((warning is Some && safety_copy is Some) || size.exceeds_size_limit),
{
    let repair = repair_note(repaired);
    let note = settings_size_note(size);
    let mut text = String::new();
    match (warning, safety_copy) {
        (Some(w), Some(c)) => {
            push_str(&mut text, "Saved after detecting an unexpected setting (");
            push_str(&mut text, w);
            push_str(&mut text, ").");
            push_str(&mut text, repair.as_str());
            push_str(&mut text, note.as_str());
            push_str(&mut text, " The untouched source is at ");
            push_str(&mut text, c);
            push_str(&mut text, ". Backup: ");
            push_str(&mut text, backup);
            (text, true)
        },
        _ => {
            push_str(&mut text, "Saved.");
            push_str(&mut text, repair.as_str());
            push_str(&mut text, note.as_str());
            push_str(&mut text, " Backup: ");
            push_str(&mut text, backup);
            (text, size.exceeds_size_limit)
        },
    }
}

/// The largest `settings.json` a schema loads: 64 KiB through schema 3, 128 KiB through
/// schema 5, 1 MiB after that (also for schemas newer than known). A missing schema counts
/// as schema 0.
pub open spec fn spec_settings_size_limit(schema: Option<u64>) -> usize {
    let s: u64 = match schema {
        Some(v) => v,
        None => 0,
    };
    if s <= 3 {
        65536usize
    } else if s <= 5 {
        131072usize
    } else {
        MIB
    }
}

pub fn settings_size_limit_for_schema(schema: Option<u64>) -> (limit: usize)
    ensures
        limit == spec_settings_size_limit(schema),
{
    let s: u64 = match schema {
        Some(v) => v,
        None => 0,
    };
    if s <= 3 {
        65536usize
    } else if s <= 5 {
        131072usize
    } else {
        MIB
    }
}

/// Newer schemas never allow less than older ones.
pub proof fn law_size_limit_never_shrinks(a: u64, b: u64)
    requires
        a <= b,
    ensures
        spec_settings_size_limit(Some(a)) <= spec_settings_size_limit(Some(b)),
{
}

/// The subclass a Shadowkeep subclass hash names, and the super entry its middle tree
/// uses. Arcstrider and Sentinel keep entry 10; the others use entry 20.
pub open spec fn spec_shadowkeep_subclass_rules(subclass_hash: u64) -> Option<(Seq<char>, u64)> {
    if subclass_hash == 0x4F91_DC97 {
        Some(("Arcstrider"@, 10))
    } else if subclass_hash == 0xC99B_33E9 {
        Some(("Sentinel"@, 10))
    } else if subclass_hash == 0xB055_4739 {
        Some(("Striker"@, 20))
    } else if subclass_hash == 0xB920_CE9A {
        Some(("Sunbreaker"@, 20))
    } else if subclass_hash == 0xD8B8_D1FC {
        Some(("Gunslinger"@, 20))
    } else if subclass_hash == 0xC048_3D8B {
        Some(("Nightstalker"@, 20))
    } else if subclass_hash == 0xCF88_FEA5 {
        Some(("Dawnblade"@, 20))
    } else if subclass_hash == 0x686A_154A {
        Some(("Stormcaller"@, 20))
    } else if subclass_hash == 0xE7BC_88B0 {
        Some(("Voidwalker"@, 20))
    } else {
        None
    }
}

pub fn shadowkeep_subclass_rules(subclass_hash: u64) -> (rules: Option<(&'static str, u64)>)
    ensures
        match spec_shadowkeep_subclass_rules(subclass_hash) {
            Some(r) => rules matches Some(x) && x.0@ == r.0 && x.1 == r.1,
            None => rules is None,
        },
{
    if subclass_hash == 0x4F91_DC97 {
        Some(("Arcstrider", 10))
    } else if subclass_hash == 0xC99B_33E9 {
        Some(("Sentinel", 10))
    } else if subclass_hash == 0xB055_4739 {
        Some(("Striker", 20))
    } else if subclass_hash == 0xB920_CE9A {
        Some(("Sunbreaker", 20))
    } else if subclass_hash == 0xD8B8_D1FC {
        Some(("Gunslinger", 20))
    } else if subclass_hash == 0xC048_3D8B {
        Some(("Nightstalker", 20))
    } else if subclass_hash == 0xCF88_FEA5 {
        Some(("Dawnblade", 20))
    } else if subclass_hash == 0x686A_154A {
        Some(("Stormcaller", 20))
    } else if subclass_hash == 0xE7BC_88B0 {
        Some(("Voidwalker", 20))
    } else {
        None
    }
}

// ---------------------------------------------------------------------------------------
// Sunrise version text
// ---------------------------------------------------------------------------------------

/// The parts of `s` between dots.
pub open spec fn split_dots(s: Seq<char>) -> Seq<Seq<char>>
    decreases s.len(),
{
    if s.len() == 0 {
        seq![Seq::empty()]
    } else {
        let prev = split_dots(s.drop_last());
        if s.last() == '.' {
            prev.push(Seq::empty())
        } else {
            prev.update(prev.len() - 1, prev.last().push(s.last()))
        }
    }
}

pub open spec fn is_digit(c: char) -> bool {
    '0' <= c <= '9'
}

/// The number a run of decimal digits spells.
pub open spec fn digits_value(d: Seq<char>) -> nat
    decreases d.len(),
{
    if d.len() == 0 {
        0
    } else {
        digits_value(d.drop_last()) * 10 + ((d.last() as nat) - ('0' as nat)) as nat
    }
}

/// `t` read as an unsigned 64-bit number as `u64::from_str` reads it: an optional `+` and
/// at least one decimal digit, with a value that fits.
pub open spec fn all_digits(d: Seq<char>) -> bool {
    forall|i: int| 0 <= i < d.len() ==> is_digit(#[trigger] d[i])
}

/// The digits of a number text: without its leading `+`, if it has one.
pub open spec fn unsigned_digits(t: Seq<char>) -> Seq<char> {
    if t.len() > 0 && t[0] == '+' {
        t.drop_first()
    } else {
        t
    }
}

pub open spec fn parse_u64(t: Seq<char>) -> Option<u64> {
    let d = unsigned_digits(t);
    if d.len() == 0 || !all_digits(d) || digits_value(d) > u64::MAX {
        None
    } else {
        Some(digits_value(d) as u64)
    }
}

/// Every part read as a number, or `None` if one does not read.
pub open spec fn parse_parts(parts: Seq<Seq<char>>) -> Option<Seq<u64>>
    decreases parts.len(),
{
    if parts.len() == 0 {
        Some(Seq::empty())
    } else {
        match (parse_parts(parts.drop_last()), parse_u64(parts.last())) {
            (Some(prev), Some(v)) => Some(prev.push(v)),
            _ => None,
        }
    }
}

/// Trailing zero components dropped while more than two remain.
pub open spec fn drop_trailing_zeros(c: Seq<u64>) -> Seq<u64>
    decreases c.len(),
{
    if c.len() > 2 && c.last() == 0 {
        drop_trailing_zeros(c.drop_last())
    } else {
        c
    }
}

/// The components written in decimal and joined by dots.
pub open spec fn join_components(c: Seq<u64>) -> Seq<char>
    decreases c.len(),
{
    if c.len() == 0 {
        Seq::empty()
    } else if c.len() == 1 {
        decimal(c[0] as nat)
    } else {
        join_components(c.drop_last()) + seq!['.'] + decimal(c.last() as nat)
    }
}

/// A version shown as Sunrise writes it: two to four dot-separated numbers, with trailing
/// zero components beyond the second dropped; anything else is no version.
pub open spec fn spec_normalize_version(version: Seq<char>) -> Option<Seq<char>> {
    match parse_parts(split_dots(crate::item_editor::trimmed(version))) {
        Some(c) => if c.len() < 2 || c.len() > 4 {
            None
        } else {
            Some(join_components(drop_trailing_zeros(c)))
        },
        None => None,
    }
}

proof fn lemma_digits_step(d: Seq<char>, c: char)
    ensures
        digits_value(d.push(c)) == digits_value(d) * 10 + ((c as nat) - ('0' as nat)) as nat,
{
    assert(d.push(c).drop_last() =~= d);
}

/// Reads one part as a number.
fn parse_part(t: &[char]) -> (v: Option<u64>)
    ensures
        v == parse_u64(t@),
{
    let mut start: usize = 0;
    if t.len() > 0 && t[0] == '+' {
        start = 1;
    }
    let ghost d = unsigned_digits(t@);
    assert(d =~= t@.subrange(start as int, t@.len() as int));
    if start >= t.len() {
        return None;
    }
    let mut value: u64 = 0;
    let mut i: usize = start;
    assert(t@.subrange(start as int, start as int) =~= Seq::<char>::empty());
    while i < t.len()
        invariant
            start <= i <= t@.len(),
            d == t@.subrange(start as int, t@.len() as int),
            d == unsigned_digits(t@),
            forall|k: int| start <= k < i ==> is_digit(#[trigger] t@[k]),
            value as nat == digits_value(t@.subrange(start as int, i as int)),
        decreases t.len() - i,
    {
        let c = t[i];
        if !('0' <= c && c <= '9') {
            assert(d[i - start] == t@[i as int]);
            assert(!is_digit(d[i - start]));
            return None;
        }
        let digit = (c as u32 - '0' as u32) as u64;
        proof {
            assert(t@.subrange(start as int, i + 1) =~= t@.subrange(start as int, i as int).push(c));
            lemma_digits_step(t@.subrange(start as int, i as int), c);
        }
        if value > (u64::MAX - digit) / 10 {
            proof {
                lemma_digits_grow(t@, start as int, i + 1);
                assert(value as nat * 10 + digit as nat > u64::MAX) by (nonlinear_arith)
                    requires
                        value > (u64::MAX - digit) / 10,
                        digit <= 9,
                ;
                if all_digits(d) {
                    assert forall|k: int| start <= k < t@.len() implies is_digit(#[trigger] t@[k]) by {
                        assert(d[k - start] == t@[k]);
                    }
                    assert(digits_value(t@.subrange(start as int, i + 1)) <= digits_value(
                        t@.subrange(start as int, t@.len() as int),
                    ));
                }
            }
            return None;
        }
        value = value * 10 + digit;
        i += 1;
    }
    assert forall|k: int| 0 <= k < d.len() implies is_digit(#[trigger] d[k]) by {
        assert(d[k] == t@[k + start]);
    }
    Some(value)
}

/// Once the digits read so far exceed `u64::MAX`, more digits only make the value larger.
proof fn lemma_digits_grow(t: Seq<char>, start: int, i: int)
    requires
        0 <= start <= i <= t.len(),
    ensures
        forall|j: int|
            i <= j <= t.len() && (forall|k: int| start <= k < j ==> is_digit(#[trigger] t[k])) ==> digits_value(
                t.subrange(start, i),
            ) <= digits_value(t.subrange(start, j)),
    decreases t.len() - i,
{
    if i < t.len() {
        lemma_digits_grow(t, start, i + 1);
        assert(t.subrange(start, i + 1) =~= t.subrange(start, i).push(t[i]));
        lemma_digits_step(t.subrange(start, i), t[i]);
    }
}

/// Complete parts stay as they are when more text follows.
proof fn lemma_split_prefix(t: Seq<char>, i: int, j: int)
    requires
        0 <= i <= j <= t.len(),
    ensures
        split_dots(t.take(i)).len() <= split_dots(t.take(j)).len(),
        split_dots(t.take(j)).take(split_dots(t.take(i)).len() - 1) == split_dots(t.take(i)).drop_last(),
        split_dots(t.take(i)).len() >= 1,
    decreases j - i,
{
    lemma_split_nonempty(t.take(i));
    if i < j {
        lemma_split_prefix(t, i, j - 1);
        let a = split_dots(t.take(i));
        let b = split_dots(t.take(j - 1));
        let c = split_dots(t.take(j));
        assert(t.take(j).drop_last() =~= t.take(j - 1));
        lemma_split_nonempty(t.take(j - 1));
        assert(c.take(a.len() - 1) =~= b.take(a.len() - 1));
    }
}

proof fn lemma_split_nonempty(t: Seq<char>)
    ensures
        split_dots(t).len() >= 1,
    decreases t.len(),
{
    if t.len() > 0 {
        lemma_split_nonempty(t.drop_last());
    }
}

/// A part that does not read makes the whole list fail.
proof fn lemma_parse_parts_prefix(p: Seq<Seq<char>>, q: Seq<Seq<char>>)
    requires
        p.len() <= q.len(),
        q.take(p.len() as int) == p,
        parse_parts(p) is None,
    ensures
        parse_parts(q) is None,
    decreases q.len(),
{
    if q.len() == p.len() {
        assert(q =~= p);
    } else {
        assert(q.drop_last().take(p.len() as int) =~= p);
        lemma_parse_parts_prefix(p, q.drop_last());
    }
}

/// The installed Sunrise version as Sundial shows it, if `version` reads as one.
pub fn normalize_sunrise_version(version: &str) -> (normalized: Option<String>)
    ensures
        match spec_normalize_version(version@) {
            Some(v) => normalized matches Some(s) && s@ == v,
            None => normalized is None,
        },
{
    let all = chars_of(version);
    let trimmed = crate::item_editor::trim_chars(all.as_slice());
    // Split at dots and read each part.
    let mut components: Vec<u64> = Vec::new();
    let mut part: Vec<char> = Vec::new();
    let mut i: usize = 0;
    let ghost tv = trimmed@;
    assert(tv.take(0) =~= Seq::<char>::empty());
    while i < trimmed.len()
        invariant
            tv == trimmed@,
            tv == crate::item_editor::trimmed(version@),
            i <= tv.len(),
            split_dots(tv.take(i as int)).len() >= 1,
            part@ == split_dots(tv.take(i as int)).last(),
            parse_parts(split_dots(tv.take(i as int)).drop_last()) == Some(components@),
        decreases trimmed.len() - i,
    {
        let c = trimmed[i];
        let ghost prev = split_dots(tv.take(i as int));
        assert(tv.take(i + 1).drop_last() =~= tv.take(i as int));
        if c == '.' {
            match parse_part(part.as_slice()) {
                Some(v) => {
                    components.push(v);
                    part = Vec::new();
                    proof {
                        let parts = split_dots(tv.take(i + 1));
                        assert(parts == prev.push(Seq::empty()));
                        assert(parts.drop_last() == prev);
                        assert(prev.drop_last().push(prev.last()) =~= prev);
                    }
                },
                None => {
                    proof {
                        let parts = split_dots(tv.take(i + 1));
                        assert(parts == prev.push(Seq::empty()));
                        assert(prev.drop_last().push(prev.last()) =~= prev);
                        assert(parse_parts(prev) is None);
                        lemma_split_prefix(tv, i + 1, tv.len() as int);
                        assert(parts.drop_last() =~= prev);
                        assert(tv.take(tv.len() as int) =~= tv);
                        lemma_parse_parts_prefix(prev, split_dots(tv));
                    }
                    return None;
                },
            }
        } else {
            part.push(c);
            proof {
                let parts = split_dots(tv.take(i + 1));
                assert(parts == prev.update(prev.len() - 1, prev.last().push(c)));
                assert(parts.drop_last() =~= prev.drop_last());
            }
        }
        i += 1;
    }
    assert(tv.take(tv.len() as int) =~= tv);
    let last = parse_part(part.as_slice());
    let ghost parts = split_dots(tv);
    assert(parts.drop_last().push(parts.last()) =~= parts);
    match last {
        Some(v) => {
            components.push(v);
        },
        None => {
            assert(parse_parts(parts) is None);
            return None;
        },
    }
    assert(parse_parts(parts) == Some(components@));
    if components.len() < 2 || components.len() > 4 {
        return None;
    }
    while components.len() > 2 && components[components.len() - 1] == 0
        invariant
            drop_trailing_zeros(components@) == drop_trailing_zeros(parse_parts(parts)->0),
        decreases components.len(),
    {
        components.pop();
    }
    let ghost kept = components@;
    let mut out = String::new();
    let mut k: usize = 0;
    while k < components.len()
        invariant
            components@ == kept,
            k <= kept.len(),
            out@ == join_components(kept.take(k as int)),
        decreases components.len() - k,
    {
        assert(kept.take(k + 1).drop_last() =~= kept.take(k as int));
        if k > 0 {
            push_char(&mut out, '.');
        }
        push_decimal(&mut out, components[k]);
        proof {
            if k == 0 {
                assert(kept.take(1) =~= seq![kept[0]]);
                assert(out@ =~= join_components(kept.take(1)));
            }
        }
        k += 1;
    }
    assert(kept.take(kept.len() as int) =~= kept);
    Some(out)
}

/// The line a settings check prints for a valid file: its schema, the detected Sunrise
/// version, how many characters and catalog items there are, the size a save would write,
/// and a note when that size needed compaction or is still above the limit.
pub open spec fn check_summary_text(
    schema: u64,
    sunrise_version: Seq<char>,
    characters: usize,
    catalog_items: usize,
    prepared: PreparedSettings,
) -> Seq<char> {
    "Valid: settings schema "@ + decimal(schema as nat) + ", detected Project Sunrise "@ + sunrise_version + ", "@
        + decimal(characters as nat) + " characters, "@ + decimal(catalog_items as nat)
        + " compatible local catalog items loaded, save size "@ + decimal(prepared.encoded_bytes as nat) + " bytes"@
        + if prepared.exceeds_size_limit {
        " (warning: still above "@ + size_label_text(prepared.size_limit_bytes) + " after compaction)"@
    } else if prepared.compacted {
        " (compacted from Sunrise's readable layout)"@
    } else {
        Seq::empty()
    }
}

pub fn check_summary(
    schema: u64,
    sunrise_version: &str,
    characters: usize,
    catalog_items: usize,
    prepared: &PreparedSettings,
) -> (summary: String)
    ensures
        summary@ == check_summary_text(schema, sunrise_version@, characters, catalog_items, *prepared),
{
    let mut text = String::new();
    push_str(&mut text, "Valid: settings schema ");
    push_decimal(&mut text, schema);
    push_str(&mut text, ", detected Project Sunrise ");
    push_str(&mut text, sunrise_version);
    push_str(&mut text, ", ");
    push_decimal(&mut text, characters as u64);
    push_str(&mut text, " characters, ");
    push_decimal(&mut text, catalog_items as u64);
    push_str(&mut text, " compatible local catalog items loaded, save size ");
    push_decimal(&mut text, prepared.encoded_bytes as u64);
    push_str(&mut text, " bytes");
    if prepared.exceeds_size_limit {
        push_str(&mut text, " (warning: still above ");
        let label = settings_size_label(prepared.size_limit_bytes);
        push_str(&mut text, label.as_str());
        push_str(&mut text, " after compaction)");
    } else if prepared.compacted {
        push_str(&mut text, " (compacted from Sunrise's readable layout)");
    }
    text
}

// --- normalising a normalised version ---------------------------------------------------

/// A character of a version text: a digit or a dot.
pub open spec fn version_char(c: char) -> bool {
    is_digit(c) || c == '.'
}

proof fn lemma_decimal_digits(v: nat)
    ensures
        decimal(v).len() > 0,
        all_digits(decimal(v)),
        digits_value(decimal(v)) == v,
    decreases v,
{
    if v >= 10 {
        lemma_decimal_digits(v / 10);
        let d = decimal(v / 10);
        assert(decimal(v) == d.push(crate::text::digit_char(v % 10)));
        lemma_digits_step(d, crate::text::digit_char(v % 10));
        assert(crate::text::digit_char(v % 10) as nat == 48 + v % 10);
        assert((v / 10) * 10 + v % 10 == v);
        assert forall|i: int| 0 <= i < decimal(v).len() implies is_digit(#[trigger] decimal(v)[i]) by {
            if i < d.len() {
                assert(decimal(v)[i] == d[i]);
            }
        }
    } else {
        assert(decimal(v) == seq![crate::text::digit_char(v)]);
        assert(decimal(v).drop_last() =~= Seq::<char>::empty());
        assert(crate::text::digit_char(v) as nat == 48 + v);
        assert(digits_value(decimal(v)) == digits_value(decimal(v).drop_last()) * 10 + ((decimal(v).last() as nat) - 48) as nat);
    }
}

proof fn lemma_parse_decimal(v: u64)
    ensures
        parse_u64(decimal(v as nat)) == Some(v),
{
    lemma_decimal_digits(v as nat);
    assert(is_digit(decimal(v as nat)[0]));
}

/// Splitting text that ends in digits appended after a dot: the digits become a new part.
proof fn lemma_split_digits(a: Seq<char>, d: Seq<char>, k: int)
    requires
        0 <= k <= d.len(),
        all_digits(d),
    ensures
        split_dots(a + seq!['.'] + d.take(k)) == split_dots(a).push(d.take(k)),
    decreases k,
{
    if k == 0 {
        assert(a + seq!['.'] + d.take(0) =~= a.push('.'));
        assert(a.push('.').drop_last() =~= a);
        assert(d.take(0) =~= Seq::<char>::empty());
    } else {
        lemma_split_digits(a, d, k - 1);
        let t = a + seq!['.'] + d.take(k);
        assert(t.drop_last() =~= a + seq!['.'] + d.take(k - 1));
        assert(t.last() == d[k - 1]);
        assert(is_digit(d[k - 1]));
        assert(d.take(k) =~= d.take(k - 1).push(d[k - 1]));
        let prev = split_dots(a).push(d.take(k - 1));
        assert(prev.update(prev.len() - 1, prev.last().push(d[k - 1])) =~= split_dots(a).push(d.take(k)));
    }
}

proof fn lemma_split_single(d: Seq<char>, k: int)
    requires
        0 <= k <= d.len(),
        all_digits(d),
    ensures
        split_dots(d.take(k)) == seq![d.take(k)],
    decreases k,
{
    if k == 0 {
        assert(d.take(0) =~= Seq::<char>::empty());
    } else {
        lemma_split_single(d, k - 1);
        assert(d.take(k).drop_last() =~= d.take(k - 1));
        assert(is_digit(d[k - 1]));
        assert(d.take(k) =~= d.take(k - 1).push(d[k - 1]));
        assert(seq![d.take(k - 1)].update(0, d.take(k - 1).push(d[k - 1])) =~= seq![d.take(k)]);
    }
}

/// Joined components split back into their decimal texts, which read back as the components;
/// the joined text holds only digits and dots and starts and ends with a digit.
proof fn lemma_join_reads_back(c: Seq<u64>)
    requires
        c.len() > 0,
    ensures
        parse_parts(split_dots(join_components(c))) == Some(c),
        split_dots(join_components(c)).len() == c.len(),
        join_components(c).len() > 0,
        forall|i: int| 0 <= i < join_components(c).len() ==> version_char(#[trigger] join_components(c)[i]),
        is_digit(join_components(c)[0]),
        is_digit(join_components(c).last()),
    decreases c.len(),
{
    let j = join_components(c);
    let last = decimal(c.last() as nat);
    lemma_decimal_digits(c.last() as nat);
    lemma_parse_decimal(c.last());
    assert(last.take(last.len() as int) =~= last);
    if c.len() == 1 {
        assert(c.last() == c[0]);
        lemma_split_single(last, last.len() as int);
        assert(seq![last].drop_last() =~= Seq::<Seq<char>>::empty());
        assert(c =~= Seq::<u64>::empty().push(c[0]));
        assert(j == last);
        assert(split_dots(j) == seq![last]);
        assert(parse_parts(seq![last].drop_last()) == Some(Seq::<u64>::empty()));
        assert(parse_parts(seq![last]) == Some(Seq::<u64>::empty().push(c[0])));
        assert forall|i: int| 0 <= i < j.len() implies version_char(#[trigger] j[i]) by {}
    } else {
        let front = c.drop_last();
        lemma_join_reads_back(front);
        let a = join_components(front);
        assert(j == a + seq!['.'] + last);
        lemma_split_digits(a, last, last.len() as int);
        let parts = split_dots(a).push(last);
        assert(parts.drop_last() =~= split_dots(a));
        assert(c =~= front.push(c.last()));
        assert forall|i: int| 0 <= i < j.len() implies version_char(#[trigger] j[i]) by {
            if i < a.len() {
                assert(j[i] == a[i]);
            } else if i > a.len() {
                assert(j[i] == last[i - a.len() - 1]);
            }
        }
        assert(j[0] == a[0]);
        assert(j.last() == last.last());
    }
}

proof fn lemma_leading_none(s: Seq<char>, k: int)
    requires
        0 <= k <= s.len(),
        k < s.len() ==> !is_whitespace(s[k]),
    ensures
        leading_ws_from(s, k) == k,
{
}

proof fn lemma_trailing_none(s: Seq<char>)
    requires
        s.len() > 0,
        !is_whitespace(s.last()),
    ensures
        trailing_end(s, s.len() as int) == s.len(),
{
}

proof fn lemma_drop_zeros_len(c: Seq<u64>)
    ensures
        drop_trailing_zeros(c).len() <= c.len(),
        c.len() >= 2 ==> drop_trailing_zeros(c).len() >= 2,
        drop_trailing_zeros(drop_trailing_zeros(c)) == drop_trailing_zeros(c),
    decreases c.len(),
{
    if c.len() > 2 && c.last() == 0 {
        lemma_drop_zeros_len(c.drop_last());
    }
}

/// Normalising a version that normalisation gave changes nothing.
pub proof fn law_normalizing_twice_changes_nothing(version: Seq<char>)
    ensures
        spec_normalize_version(version) matches Some(n) ==> spec_normalize_version(n) == Some(n),
{
    if let Some(n) = spec_normalize_version(version) {
        let c = parse_parts(split_dots(crate::item_editor::trimmed(version)))->0;
        let d = drop_trailing_zeros(c);
        lemma_drop_zeros_len(c);
        lemma_join_reads_back(d);
        let j = join_components(d);
        assert(!is_whitespace(j[0]));
        assert(!is_whitespace(j.last()));
        lemma_leading_none(j, 0);
        lemma_trailing_none(j);
        assert(j.subrange(0, j.len() as int) =~= j);
        assert(crate::item_editor::trimmed(j) == j);
    }
}

} // verus!
