//! The raw JSON editor's state between frames: the find bar's current match, which sections
//! are folded, and whether the text holds edits not yet applied to the document.
use vstd::prelude::*;
use crate::json_text::{copy_id, id_equal, is_folded, FoldRegion, ProjectionEditError};
use crate::text::{decimal, owned, push_decimal, push_str};

verus! {

/// What the raw JSON editor remembers between frames.
pub struct JsonEditorState {
    pub query: String,
    pub current_match: Option<usize>,
    /// The ids of the folded sections.
    pub folded: Vec<Vec<usize>>,
    pub modified: bool,
    pub reset_pending: bool,
    pub cursor_line: usize,
    pub cursor_column: usize,
    pub cursor_source_byte: usize,
    pub restore_location: bool,
}

impl JsonEditorState {
    /// A fresh editor: no search, nothing folded or modified, the cursor at line 1, column 1.
    pub fn new() -> (s: Self)
        ensures
            s.query@ == Seq::<char>::empty(),
            s.current_match is None,
            s.folded@.len() == 0,
            !s.modified,
            !s.reset_pending,
            s.cursor_line == 1,
            s.cursor_column == 1,
            s.cursor_source_byte == 0,
            !s.restore_location,
    {
        JsonEditorState {
            query: String::new(),
            current_match: None,
            folded: Vec::new(),
            modified: false,
            reset_pending: false,
            cursor_line: 1,
            cursor_column: 1,
            cursor_source_byte: 0,
            restore_location: false,
        }
    }

    pub fn has_unapplied_changes(&self) -> (r: bool)
        ensures
            r == self.modified,
    {
        self.modified
    }

    /// The text now matches the document: nothing is modified and no reset is pending.
    pub fn mark_synced(&mut self)
        ensures
            *final(self) == (JsonEditorState { modified: false, reset_pending: false, ..*old(self) }),
    {
        self.modified = false;
        self.reset_pending = false;
    }

    /// The text was edited: it is modified and a pending reset is dropped.
    pub fn mark_modified(&mut self)
        ensures
            *final(self) == (JsonEditorState { modified: true, reset_pending: false, ..*old(self) }),
    {
        self.modified = true;
        self.reset_pending = false;
    }

    pub fn restore_location_next_draw(&mut self)
        ensures
            *final(self) == (JsonEditorState { restore_location: true, ..*old(self) }),
    {
        self.restore_location = true;
    }
}

// ---------------------------------------------------------------------------------------
// The find bar
// ---------------------------------------------------------------------------------------

/// The current match after a frame of the find bar, and whether the editor jumps to it:
/// without matches there is none; a new query, a missing or stale current match starts at
/// the first match (and jumps); then Previous or Next moves one match back or on, wrapping
/// around (and jumps).
pub open spec fn spec_find_step(current: Option<usize>, count: usize, query_changed: bool, previous: bool, next: bool) -> (Option<usize>, bool) {
    if count == 0 {
        (None, false)
    } else {
        let restart = query_changed || current is None || current->0 >= count;
        let at: usize = if restart {
            0
        } else {
            current->0
        };
        if previous {
            (Some(((at + count - 1) % (count as int)) as usize), true)
        } else if next {
            (Some(((at + 1) % (count as int)) as usize), true)
        } else {
            (Some(at), restart)
        }
    }
}

pub fn find_step(current: Option<usize>, count: usize, query_changed: bool, previous: bool, next: bool) -> (r: (Option<usize>, bool))
    ensures
        r == spec_find_step(current, count, query_changed, previous, next),
{
    if count == 0 {
        return (None, false);
    }
    let restart = query_changed || match current {
        Some(c) => c >= count,
        None => true,
    };
    let at: usize = if restart {
        0
    } else {
        match current {
            Some(c) => c,
            None => 0,
        }
    };
    if previous {
        let back = if at == 0 {
            count - 1
        } else {
            at - 1
        };
        assert(back as int == (at + count - 1) % (count as int)) by {
            if at == 0 {
                vstd::arithmetic::div_mod::lemma_small_mod((count - 1) as nat, count as nat);
            } else {
                vstd::arithmetic::div_mod::lemma_mod_add_multiples_vanish((at - 1) as int, count as int);
                vstd::arithmetic::div_mod::lemma_small_mod((at - 1) as nat, count as nat);
            }
        }
        (Some(back), true)
    } else if next {
        let on = if at + 1 == count {
            0
        } else {
            at + 1
        };
        assert(on as int == (at + 1) % (count as int)) by {
            if at + 1 == count {
                vstd::arithmetic::div_mod::lemma_mod_self_0(count as int);
            } else {
                vstd::arithmetic::div_mod::lemma_small_mod((at + 1) as nat, count as nat);
            }
        }
        (Some(on), true)
    } else {
        (Some(at), restart)
    }
}

/// The find bar's counter: "k of n" for the current match, "No matches" for a search that
/// found nothing, and nothing without a search.
pub open spec fn match_counter_text(current: Option<usize>, count: usize, query_empty: bool) -> Option<Seq<char>> {
    match current {
        Some(c) => Some(decimal((c + 1) as nat) + " of "@ + decimal(count as nat)),
        None => if query_empty {
            None
        } else {
            Some("No matches"@)
        },
    }
}

pub fn match_counter_label(current: Option<usize>, count: usize, query_empty: bool) -> (label: Option<String>)
    requires
        current matches Some(c) ==> c < usize::MAX,
    ensures
        match label {
            Some(t) => match_counter_text(current, count, query_empty) == Some(t@),
            None => match_counter_text(current, count, query_empty) is None,
        },
{
    match current {
        Some(c) => {
            let mut t = String::new();
            push_decimal(&mut t, (c + 1) as u64);
            push_str(&mut t, " of ");
            push_decimal(&mut t, count as u64);
            Some(t)
        },
        None => if query_empty {
            None
        } else {
            Some(owned("No matches"))
        },
    }
}

// ---------------------------------------------------------------------------------------
// Folded sections
// ---------------------------------------------------------------------------------------

proof fn lemma_folded_push(s: Seq<Vec<usize>>, x: Vec<usize>, id: Seq<usize>)
    ensures
        is_folded(s.push(x), id) <==> (is_folded(s, id) || x@ == id),
{
    if is_folded(s.push(x), id) {
        let w = choose|w: int| 0 <= w < s.push(x).len() && (#[trigger] s.push(x)[w])@ == id;
        if w < s.len() {
            assert(s[w] == s.push(x)[w]);
        }
    }
    if is_folded(s, id) {
        let w = choose|w: int| 0 <= w < s.len() && (#[trigger] s[w])@ == id;
        assert(s.push(x)[w] == s[w]);
    }
    if x@ == id {
        assert(s.push(x)[s.len() as int] == x);
    }
}

proof fn lemma_folded_empty(id: Seq<usize>)
    ensures
        !is_folded(Seq::<Vec<usize>>::empty(), id),
{
}

/// Some section is not folded yet, so "Collapse all" has something to do.
pub open spec fn can_collapse(regions: Seq<FoldRegion>, folded: Seq<Vec<usize>>) -> bool {
    exists|k: int| 0 <= k < regions.len() && !is_folded(folded, #[trigger] regions[k].id@)
}

/// `id` names one of the regions.
pub open spec fn names_region(regions: Seq<FoldRegion>, id: Seq<usize>) -> bool {
    exists|k: int| 0 <= k < regions.len() && (#[trigger] regions[k]).id@ == id
}

fn folded_has(folded: &Vec<Vec<usize>>, id: &Vec<usize>) -> (r: bool)
    ensures
        r == is_folded(folded@, id@),
{
    let mut i: usize = 0;
    while i < folded.len()
        invariant
            i <= folded@.len(),
            forall|k: int| 0 <= k < i ==> (#[trigger] folded@[k])@ != id@,
        decreases folded.len() - i,
    {
        if id_equal(&folded[i], id) {
            return true;
        }
        i += 1;
    }
    false
}

pub fn collapse_possible(regions: &[FoldRegion], folded: &Vec<Vec<usize>>) -> (r: bool)
    ensures
        r == can_collapse(regions@, folded@),
{
    let mut k: usize = 0;
    while k < regions.len()
        invariant
            k <= regions@.len(),
            forall|j: int| 0 <= j < k ==> is_folded(folded@, #[trigger] regions@[j].id@),
        decreases regions.len() - k,
    {
        if !folded_has(folded, &regions[k].id) {
            return true;
        }
        k += 1;
    }
    false
}

/// "Collapse all": every section is folded, and what was folded stays folded.
pub fn fold_all(folded: &mut Vec<Vec<usize>>, regions: &[FoldRegion])
    ensures
        forall|id: Seq<usize>|
            #![trigger is_folded(final(folded)@, id)]
            is_folded(final(folded)@, id) <==> (is_folded(old(folded)@, id) || names_region(regions@, id)),
{
    let ghost start = folded@;
    let mut k: usize = 0;
    while k < regions.len()
        invariant
            k <= regions@.len(),
            forall|id: Seq<usize>|
                #![trigger is_folded(folded@, id)]
                is_folded(folded@, id) <==> (is_folded(start, id) || names_region(regions@.take(k as int), id)),
        decreases regions.len() - k,
    {
        let ghost before = folded@;
        let id = copy_id(&regions[k].id);
        folded.push(id);
        proof {
            assert forall|x: Seq<usize>| #![trigger is_folded(folded@, x)]
                is_folded(folded@, x) <==> (is_folded(start, x) || names_region(regions@.take(k + 1), x)) by {
                lemma_folded_push(before, id, x);
                if names_region(regions@.take(k + 1), x) && !names_region(regions@.take(k as int), x) {
                    let j = choose|j: int| 0 <= j < regions@.take(k + 1).len() && (#[trigger] regions@.take(k + 1)[j]).id@ == x;
                    if j < k {
                        assert(regions@.take(k as int)[j] == regions@.take(k + 1)[j]);
                    }
                }
                if names_region(regions@.take(k as int), x) {
                    let j = choose|j: int| 0 <= j < regions@.take(k as int).len() && (#[trigger] regions@.take(k as int)[j]).id@ == x;
                    assert(regions@.take(k + 1)[j] == regions@.take(k as int)[j]);
                }
                if x == regions@[k as int].id@ {
                    assert(regions@.take(k + 1)[k as int] == regions@[k as int]);
                }
            }
        }
        k += 1;
    }
    assert(regions@.take(regions@.len() as int) =~= regions@);
}

/// The folded ids, less `id`.
fn keep_folds_except(folded: &mut Vec<Vec<usize>>, id: &Vec<usize>)
    ensures
        forall|x: Seq<usize>|
            #![trigger is_folded(final(folded)@, x)]
            is_folded(final(folded)@, x) <==> (is_folded(old(folded)@, x) && x != id@),
{
    let ghost start = folded@;
    let mut kept: Vec<Vec<usize>> = Vec::new();
    let mut i: usize = 0;
    while i < folded.len()
        invariant
            i <= folded@.len(),
            folded@ == start,
            forall|x: Seq<usize>|
                #![trigger is_folded(kept@, x)]
                is_folded(kept@, x) <==> (is_folded(start.take(i as int), x) && x != id@),
        decreases folded.len() - i,
    {
        let ghost prev = kept@;
        let ghost cur = folded@[i as int];
        if !id_equal(&folded[i], id) {
            kept.push(copy_id(&folded[i]));
        }
        proof {
            assert(start.take(i + 1) =~= start.take(i as int).push(cur));
            assert forall|x: Seq<usize>| #![trigger is_folded(kept@, x)]
                is_folded(kept@, x) <==> (is_folded(start.take(i + 1), x) && x != id@) by {
                lemma_folded_push(start.take(i as int), cur, x);
                if cur@ != id@ {
                    lemma_folded_push(prev, kept@.last(), x);
                    assert(prev.push(kept@.last()) =~= kept@);
                }
            }
        }
        i += 1;
    }
    assert(start.take(start.len() as int) =~= start);
    *folded = kept;
}

/// Forgets folded ids that name no section of the current text.
pub fn forget_missing_folds(folded: &mut Vec<Vec<usize>>, regions: &[FoldRegion])
    ensures
        forall|x: Seq<usize>|
            #![trigger is_folded(final(folded)@, x)]
            is_folded(final(folded)@, x) <==> (is_folded(old(folded)@, x) && names_region(regions@, x)),
{
    let ghost start = folded@;
    let mut kept: Vec<Vec<usize>> = Vec::new();
    let mut i: usize = 0;
    while i < folded.len()
        invariant
            i <= folded@.len(),
            folded@ == start,
            forall|x: Seq<usize>|
                #![trigger is_folded(kept@, x)]
                is_folded(kept@, x) <==> (is_folded(start.take(i as int), x) && names_region(regions@, x)),
        decreases folded.len() - i,
    {
        let ghost prev = kept@;
        let ghost cur = folded@[i as int];
        let mut found = false;
        let mut k: usize = 0;
        while k < regions.len()
            invariant
                k <= regions@.len(),
                cur == folded@[i as int],
                i < folded@.len(),
                found ==> names_region(regions@, cur@),
                !found ==> forall|j: int| 0 <= j < k ==> (#[trigger] regions@[j]).id@ != cur@,
            decreases regions.len() - k,
        {
            if !found && id_equal(&regions[k].id, &folded[i]) {
                found = true;
            }
            k += 1;
        }
        if found {
            kept.push(copy_id(&folded[i]));
        }
        proof {
            assert(start.take(i + 1) =~= start.take(i as int).push(cur));
            assert forall|x: Seq<usize>| #![trigger is_folded(kept@, x)]
                is_folded(kept@, x) <==> (is_folded(start.take(i + 1), x) && names_region(regions@, x)) by {
                lemma_folded_push(start.take(i as int), cur, x);
                if found {
                    lemma_folded_push(prev, kept@.last(), x);
                    assert(prev.push(kept@.last()) =~= kept@);
                }
            }
        }
        i += 1;
    }
    assert(start.take(start.len() as int) =~= start);
    *folded = kept;
}

/// Folds `id` when it is not folded, unfolds it when it is; other sections keep their state.
pub fn toggle_fold(folded: &mut Vec<Vec<usize>>, id: &Vec<usize>)
    ensures
        forall|x: Seq<usize>|
            #![trigger is_folded(final(folded)@, x)]
            is_folded(final(folded)@, x) <==> if x == id@ {
                !is_folded(old(folded)@, x)
            } else {
                is_folded(old(folded)@, x)
            },
{
    if folded_has(folded, id) {
        keep_folds_except(folded, id);
    } else {
        let ghost before = folded@;
        let copy = copy_id(id);
        folded.push(copy);
        proof {
            assert forall|x: Seq<usize>| #![trigger is_folded(folded@, x)]
                is_folded(folded@, x) <==> if x == id@ {
                    !is_folded(before, x)
                } else {
                    is_folded(before, x)
                } by {
                lemma_folded_push(before, copy, x);
            }
        }
    }
}

/// Toggling a section twice leaves every section as it was.
pub proof fn law_toggle_twice_restores(folded: Seq<Vec<usize>>, once: Seq<Vec<usize>>, twice: Seq<Vec<usize>>, id: Seq<usize>)
    requires
        forall|x: Seq<usize>|
            #![trigger is_folded(once, x)]
            is_folded(once, x) <==> if x == id {
                !is_folded(folded, x)
            } else {
                is_folded(folded, x)
            },
        forall|x: Seq<usize>|
            #![trigger is_folded(twice, x)]
            is_folded(twice, x) <==> if x == id {
                !is_folded(once, x)
            } else {
                is_folded(once, x)
            },
    ensures
        forall|x: Seq<usize>| #[trigger] is_folded(twice, x) <==> is_folded(folded, x),
{
    assert forall|x: Seq<usize>| #[trigger] is_folded(twice, x) <==> is_folded(folded, x) by {
        assert(is_folded(once, x) == if x == id {
            !is_folded(folded, x)
        } else {
            is_folded(folded, x)
        });
    }
}

/// What an edit of the folded view leaves: a carried edit marks the text modified; an edit
/// that touched a folded section unfolds it; an edit that could not be mapped unfolds
/// everything. Whether the edit was carried is returned.
pub fn apply_edit_outcome(state: &mut JsonEditorState, outcome: &Result<(), ProjectionEditError>) -> (carried: bool)
    ensures
        carried == outcome is Ok,
        match outcome {
            Ok(()) => *final(state) == (JsonEditorState { modified: true, reset_pending: false, ..*old(state) }),
            Err(ProjectionEditError::Hidden(id)) => {
                &&& final(state).query == old(state).query
                &&& final(state).current_match == old(state).current_match
                &&& final(state).modified == old(state).modified
                &&& final(state).reset_pending == old(state).reset_pending
                &&& forall|x: Seq<usize>|
                    #![trigger is_folded(final(state).folded@, x)]
                    is_folded(final(state).folded@, x) <==> (is_folded(old(state).folded@, x) && x != id@)
            },
            Err(ProjectionEditError::InvalidMapping) => *final(state) == (JsonEditorState {
                folded: final(state).folded,
                ..*old(state)
            }) && final(state).folded@.len() == 0,
        },
{
    match outcome {
        Ok(()) => {
            state.mark_modified();
            true
        },
        Err(ProjectionEditError::Hidden(id)) => {
            keep_folds_except(&mut state.folded, id);
            false
        },
        Err(ProjectionEditError::InvalidMapping) => {
            state.folded = Vec::new();
            false
        },
    }
}

} // verus!
