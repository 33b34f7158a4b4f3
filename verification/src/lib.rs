//! Editorial diagrams from a compact JSON spec: the verified core.
//!
//! A diagram body goes through three steps. [`check_body`] applies the hard
//! limits that must hold before any JSON decoding: the body-size gate and a
//! clean `UnknownType` error for an unsupported `"type"`. The caller then
//! decodes the JSON into a [`Diagram`]. [`finish_parse`] applies the node
//! cap and the per-type invariants and returns the density warnings.
//! Streaming prefixes are recovered through [`streaming::LossyCursor`].

pub mod errors;
pub mod primitive;
pub mod streaming;
pub mod text;
pub mod theme;
pub mod types;

pub use errors::{ParseError, Warning};
pub use primitive::{LineStyle, TextAlign, TextWeight};
pub use theme::{Color, Palette};
pub use types::Diagram;

use crate::text::{
    chars_eq, chars_of, find_char, find_char_from, string_from_chars,
    trim_start, trim_start_from,
};
use crate::streaming::{find_top_level_key, find_top_level_key_from};
use crate::types::tree::node_count;
use crate::types::{
    architecture, check_of, counts_fit, element_count_of, er, flowchart, layers, nested, pyramid,
    quadrant, sequence, state, swimlane, timeline, tree, venn, warnings_of,
};
use vstd::prelude::*;

verus! {

/// Hard and soft limits enforced during parsing.
///
/// Hard limits fail with a [`ParseError`]; soft caps surface a
/// [`Warning::DensityHigh`] on a successful parse.
pub struct DiagramLimits;

impl DiagramLimits {
    /// Hard ceiling on the raw JSON body, in bytes; checked before decoding.
    pub const MAX_BODY_BYTES: usize = 204800;

    /// Hard ceiling on the element count per diagram.
    pub const MAX_NODES: usize = 30;

    /// Soft cap for pyramid levels.
    pub const SOFT_CAP_PYRAMID: usize = pyramid::SOFT_CAP;

    /// Soft cap for tree total nodes.
    pub const SOFT_CAP_TREE: usize = tree::SOFT_CAP;

    /// Soft cap for flowchart nodes.
    pub const SOFT_CAP_FLOWCHART: usize = flowchart::SOFT_CAP;

    /// Soft cap for quadrant points.
    pub const SOFT_CAP_QUADRANT: usize = quadrant::SOFT_CAP;

    /// Soft cap for layer rows.
    pub const SOFT_CAP_LAYERS: usize = layers::SOFT_CAP;
}

/// Is `t` the tag of a shipped diagram type?
pub open spec fn is_known_tag(t: Seq<char>) -> bool {
    ||| t == pyramid::TYPE_TAG@
    ||| t == quadrant::TYPE_TAG@
    ||| t == tree::TYPE_TAG@
    ||| t == layers::TYPE_TAG@
    ||| t == flowchart::TYPE_TAG@
    ||| t == architecture::TYPE_TAG@
    ||| t == sequence::TYPE_TAG@
    ||| t == state::TYPE_TAG@
    ||| t == er::TYPE_TAG@
    ||| t == timeline::TYPE_TAG@
    ||| t == swimlane::TYPE_TAG@
    ||| t == nested::TYPE_TAG@
    ||| t == venn::TYPE_TAG@
}

/// The tag that the top-level `"type"` key of a body declares, as a cheap
/// scan finds it: after the first `"type"` that is a key of the outermost
/// object (outside string literals and followed by optional whitespace and
/// `:`; a `"type"` key of a nested object or a `"type"` string value does
/// not count), the `:`, optional whitespace, then a `"`-delimited tag
/// (escapes are not interpreted). `None` when that shape is not there.
pub open spec fn declared_tag(s: Seq<char>) -> Option<Seq<char>> {
    let marker = "\"type\""@;
    match find_top_level_key_from(s, marker, 0) {
        None => None,
        Some(idx) => match find_char_from(s, ':', idx + marker.len()) {
            None => None,
            Some(colon) => {
                let tail = trim_start(s.subrange(colon + 1, s.len() as int));
                if tail.len() == 0 || tail[0] != '"' {
                    None
                } else {
                    match find_char_from(tail, '"', 1) {
                        None => None,
                        Some(end) => Some(tail.subrange(1, end)),
                    }
                }
            },
        },
    }
}

/// The declared tag, when it names no shipped type.
pub open spec fn unknown_tag(s: Seq<char>) -> Option<Seq<char>> {
    match declared_tag(s) {
        Some(t) if !is_known_tag(t) => Some(t),
        _ => None,
    }
}

/// Does `tag` name a shipped type?
fn is_known(tag: &[char]) -> (b: bool)
    ensures
        b == is_known_tag(tag@),
{
    chars_eq(tag, &chars_of(pyramid::TYPE_TAG)) || chars_eq(tag, &chars_of(quadrant::TYPE_TAG))
        || chars_eq(tag, &chars_of(tree::TYPE_TAG)) || chars_eq(tag, &chars_of(layers::TYPE_TAG))
        || chars_eq(tag, &chars_of(flowchart::TYPE_TAG)) || chars_eq(
        tag,
        &chars_of(architecture::TYPE_TAG),
    ) || chars_eq(tag, &chars_of(sequence::TYPE_TAG)) || chars_eq(tag, &chars_of(state::TYPE_TAG))
        || chars_eq(tag, &chars_of(er::TYPE_TAG)) || chars_eq(tag, &chars_of(timeline::TYPE_TAG))
        || chars_eq(tag, &chars_of(swimlane::TYPE_TAG)) || chars_eq(tag, &chars_of(nested::TYPE_TAG))
        || chars_eq(tag, &chars_of(venn::TYPE_TAG))
}

/// Cheap pre-scan for an unsupported top-level `"type"`: returns the
/// declared tag when it is present and names no shipped type, `None` otherwise (including
/// when no tag can be found, which is left to the JSON decoder to report).
pub fn pre_scan_unknown_type(body: &str) -> (r: Option<String>)
    ensures
        r is None <==> unknown_tag(body@) is None,
        r matches Some(t) ==> unknown_tag(body@) == Some(t@),
{
    let s = chars_of(body);
    let marker = chars_of("\"type\"");
    let idx = match find_top_level_key(&s, &marker) {
        Some(i) => i,
        None => return None,
    };
    let n = s.len();
    assert(n == s@.len());
    assert(marker@ == "\"type\""@);
    assert(find_top_level_key_from(s@, marker@, 0) == Some(idx as int));
    let colon = match find_char(&s, ':', idx + marker.len()) {
        Some(c) => c,
        None => {
            assert(declared_tag(body@) is None);
            return None;
        },
    };
    let start = trim_start_from(&s, colon + 1);
    let ghost tail = s@.subrange(start as int, s@.len() as int);
    assert(tail == trim_start(s@.subrange(colon + 1, s@.len() as int)));
    assert(declared_tag(body@) == (if tail.len() == 0 || tail[0] != '"' {
        None
    } else {
        match find_char_from(tail, '"', 1) {
            None => None,
            Some(end) => Some(tail.subrange(1, end)),
        }
    }));
    if start >= s.len() || s[start] != '"' {
        assert(tail.len() == 0 || tail[0] == s@[start as int]);
        return None;
    }
    let end = match find_char(&s, '"', start + 1) {
        Some(e) => e,
        None => {
            proof {
                lemma_find_char_shift(s@, start as int, 1);
            }
            return None;
        },
    };
    proof {
        lemma_find_char_shift(s@, start as int, 1);
    }
    let mut tag: Vec<char> = Vec::new();
    let mut i = start + 1;
    while i < end
        invariant
            start + 1 <= i <= end <= s@.len(),
            tag@ == s@.subrange(start + 1, i as int),
        decreases end - i,
    {
        tag.push(s[i]);
        i = i + 1;
        assert(tag@ =~= s@.subrange(start + 1, i as int));
    }
    assert(tag@ =~= tail.subrange(1, end - start));
    if is_known(&tag) {
        None
    } else {
        Some(string_from_chars(&tag))
    }
}

/// Searching a suffix of `s` is searching `s` from further on.
proof fn lemma_find_char_shift(s: Seq<char>, start: int, from: int)
    requires
        0 <= start <= s.len(),
        0 <= from,
    ensures
        find_char_from(s.subrange(start, s.len() as int), '"', from) == (match find_char_from(
            s,
            '"',
            start + from,
        ) {
            Some(e) => Some(e - start),
            None => None::<int>,
        }),
    decreases s.len() - start - from,
{
    let t = s.subrange(start, s.len() as int);
    if from < t.len() {
        assert(t[from] == s[start + from]);
        lemma_find_char_shift(s, start, from + 1);
    }
}

/// The hard limits that hold before any JSON decoding: a body over
/// [`DiagramLimits::MAX_BODY_BYTES`] bytes fails with `BodyTooLarge`; a body
/// whose declared `"type"` names no shipped type fails with `UnknownType`.
pub fn check_body(body: &str) -> (r: Result<(), ParseError>)
    ensures
        body.len() > DiagramLimits::MAX_BODY_BYTES ==> r == Err::<(), ParseError>(
            ParseError::BodyTooLarge(body.len()),
        ),
        body.len() <= DiagramLimits::MAX_BODY_BYTES ==> (match unknown_tag(body@) {
            Some(t) => r matches Err(ParseError::UnknownType(u)) && u@ == t,
            None => r == Ok::<(), ParseError>(()),
        }),
{
    if body.len() > DiagramLimits::MAX_BODY_BYTES {
        return Err(ParseError::BodyTooLarge(body.len()));
    }
    match pre_scan_unknown_type(body) {
        Some(t) => Err(ParseError::UnknownType(t)),
        None => Ok(()),
    }
}

/// What [`finish_parse`] decides for a decoded diagram: the node cap, then
/// the per-type invariants; on success the diagram comes back with its
/// density warnings.
pub open spec fn finish_check(d: Diagram) -> Result<Seq<Warning>, ParseError> {
    if element_count_of(d) > DiagramLimits::MAX_NODES {
        Err(
            ParseError::TooManyNodes {
                actual: element_count_of(d) as usize,
                limit: DiagramLimits::MAX_NODES,
            },
        )
    } else {
        match check_of(d) {
            Err(e) => Err(e),
            Ok(_) => Ok(warnings_of(d)),
        }
    }
}

/// The node cap: a diagram is refused with `TooManyNodes` (reporting its
/// element count against the cap of 30) exactly when its element count
/// exceeds 30, where the element count is the primary axis of each type plus
/// the connections that it keeps as a separate list: sequence actors plus
/// messages, states plus transitions, ER entities plus relationships,
/// swimlane lanes plus steps, venn sets plus intersections. Under the cap
/// the per-type invariants decide, and a diagram that meets them comes back
/// with its density warnings.
pub proof fn lemma_node_cap(d: Diagram)
    ensures
        ({
            let count: int = match d {
                Diagram::Pyramid(s) => s.levels@.len() as int,
                Diagram::Quadrant(s) => s.points@.len() as int,
                Diagram::Tree(s) => node_count(s.root) as int,
                Diagram::Layers(s) => s.layers@.len() as int,
                Diagram::Flowchart(s) => s.nodes@.len() as int,
                Diagram::Architecture(s) => s.nodes@.len() as int,
                Diagram::Sequence(s) => (s.actors@.len() + s.messages@.len()) as int,
                Diagram::State(s) => (s.states@.len() + s.transitions@.len()) as int,
                Diagram::Er(s) => (s.entities@.len() + s.relationships@.len()) as int,
                Diagram::Timeline(s) => s.events@.len() as int,
                Diagram::Swimlane(s) => (s.lanes@.len() + s.steps@.len()) as int,
                Diagram::Nested(s) => s.levels@.len() as int,
                Diagram::Venn(s) => (s.sets@.len() + s.intersections@.len()) as int,
            };
            &&& count > 30 ==> finish_check(d) == Err::<Seq<Warning>, ParseError>(
                ParseError::TooManyNodes { actual: count as usize, limit: 30 },
            )
            &&& count <= 30 ==> finish_check(d) == match check_of(d) {
                Err(e) => Err(e),
                Ok(_) => Ok(warnings_of(d)),
            }
        }),
{
}

/// Apply the post-decoding limits to a diagram: the hard node cap
/// ([`DiagramLimits::MAX_NODES`]) and the per-type invariants (accent
/// range). Returns the diagram with its advisory warnings.
pub fn finish_parse(diagram: Diagram) -> (r: Result<(Diagram, Vec<Warning>), ParseError>)
    requires
        counts_fit(diagram),
    ensures
        match (r, finish_check(diagram)) {
            (Ok((d, w)), Ok(ws)) => d == diagram && w@ == ws,
            (Err(e), Err(f)) => e == f,
            _ => false,
        },
{
    let count = diagram.element_count();
    if count > DiagramLimits::MAX_NODES {
        return Err(ParseError::TooManyNodes { actual: count, limit: DiagramLimits::MAX_NODES });
    }
    match diagram.validate() {
        Err(e) => Err(e),
        Ok(()) => {
            let w = diagram.warnings();
            Ok((diagram, w))
        },
    }
}

} // verus!
