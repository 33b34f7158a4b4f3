//! Rules shared by several diagram types: the density lint, the accent
//! range check, edge-role colors and id lookup.

use crate::errors::{ParseError, Warning};
use crate::theme::{Color, Palette};
use crate::types::flowchart::EdgeRole;
use vstd::prelude::*;

verus! {

/// The density lint: one warning when `count` exceeds `soft_cap`.
pub open spec fn density_warnings(tag: &'static str, count: int, soft_cap: int) -> Seq<Warning> {
    if count > soft_cap {
        seq![Warning::DensityHigh { diagram_type: tag, count: count as usize, soft_cap: soft_cap as usize }]
    } else {
        Seq::empty()
    }
}

/// The accent rule: an accent index must name one of the `count` elements.
pub open spec fn accent_check(accent_idx: Option<usize>, count: int) -> Result<(), ParseError> {
    match accent_idx {
        Some(idx) if idx >= count => Err(
            ParseError::AccentOutOfRange { element_count: count as usize, accent_idx: idx },
        ),
        _ => Ok(()),
    }
}

/// Emit the density warning for `count` elements against `soft_cap`.
pub fn density_warning(tag: &'static str, count: usize, soft_cap: usize) -> (w: Vec<Warning>)
    ensures
        w@ == density_warnings(tag, count as int, soft_cap as int),
{
    if count > soft_cap {
        vec![Warning::DensityHigh { diagram_type: tag, count, soft_cap }]
    } else {
        Vec::new()
    }
}

/// Reject an accent index past the element count.
pub fn check_accent(accent_idx: Option<usize>, count: usize) -> (r: Result<(), ParseError>)
    ensures
        r == accent_check(accent_idx, count as int),
{
    if let Some(idx) = accent_idx {
        if idx >= count {
            return Err(ParseError::AccentOutOfRange { element_count: count, accent_idx: idx });
        }
    }
    Ok(())
}

/// The stroke / label color of an edge role: `Default` reads muted,
/// `Primary` reads as the accent, `External` reads as the link color.
pub open spec fn edge_color(role: EdgeRole, p: Palette) -> Color {
    match role {
        EdgeRole::Default => p.muted,
        EdgeRole::Primary => p.accent,
        EdgeRole::External => p.link,
    }
}

/// Map an [`EdgeRole`] to its stroke / label color under the given palette.
/// The same color is used for the arrow shaft and the edge label so the role
/// reads consistently.
pub fn edge_color_for_role(role: EdgeRole, palette: &Palette) -> (c: Color)
    ensures
        c == edge_color(role, *palette),
{
    match role {
        EdgeRole::Default => palette.muted,
        EdgeRole::Primary => palette.accent,
        EdgeRole::External => palette.link,
    }
}

/// The last index at which `key` occurs in `ids` (later duplicates shadow
/// earlier ones).
pub open spec fn last_index_of(ids: Seq<Seq<char>>, key: Seq<char>) -> Option<int>
    decreases ids.len(),
{
    if ids.len() == 0 {
        None
    } else if ids.last() == key {
        Some(ids.len() - 1)
    } else {
        last_index_of(ids.drop_last(), key)
    }
}

pub proof fn lemma_last_index_of(ids: Seq<Seq<char>>, key: Seq<char>)
    ensures
        last_index_of(ids, key) matches Some(i) ==> 0 <= i < ids.len() && ids[i] == key,
        last_index_of(ids, key) is None ==> forall|i: int| 0 <= i < ids.len() ==> ids[i] != key,
    decreases ids.len(),
{
    if ids.len() > 0 && ids.last() != key {
        lemma_last_index_of(ids.drop_last(), key);
        assert forall|i: int| 0 <= i < ids.len() - 1 implies ids[i] == ids.drop_last()[i] by {}
    }
}

/// Look `key` up in `ids` from the back.
pub fn find_last_id(ids: &Vec<String>, key: &String) -> (r: Option<usize>)
    ensures
        r == (match last_index_of(ids@.map_values(|s: String| s@), key@) {
            Some(i) => Some(i as usize),
            None => None::<usize>,
        }),
{
    let ghost view = ids@.map_values(|s: String| s@);
    let mut i = ids.len();
    assert(view.subrange(0, i as int) =~= view);
    while i > 0
        invariant
            i <= ids@.len(),
            view == ids@.map_values(|s: String| s@),
            last_index_of(view, key@) == last_index_of(view.subrange(0, i as int), key@),
        decreases i,
    {
        let j = i - 1;
        assert(view.subrange(0, i as int).last() == ids@[j as int]@);
        if ids[j] == *key {
            return Some(j);
        }
        assert(view.subrange(0, i as int).drop_last() =~= view.subrange(0, j as int));
        i = j;
    }
    None
}

} // verus!
