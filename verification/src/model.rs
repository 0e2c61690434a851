//! The mathematical model of the structure block: what one decoding step
//! yields, when it stays in bounds, the token sequence of a whole stream,
//! and the hierarchy-scoped restriction of that sequence.

use vstd::prelude::*;
use crate::utils::{be_u32_at, c_str_at, lemma_c_str_some};

verus! {

/// One decoded structure-block entry, as mathematics: names and values are
/// byte sequences, the resume offset of a begin-node is an integer.
pub enum SpecToken {
    /// An unrecognized token id; never produced by decoding.
    Invalid(int),
    /// Opens a node: the offset just past its name (where its body starts)
    /// and the name without its terminator.
    BeginNode { resume: int, name: Seq<u8> },
    /// Closes the most recently opened node.
    EndNode,
    /// A named property with its exact, unpadded value.
    Property { name: Seq<u8>, value: Seq<u8> },
    /// Filler with no meaning.
    NoOperation,
    /// Terminal marker for the whole structure block.
    End,
}

/// Cursor advance past a node name of length `n`: at least one padding word
/// beyond the terminator, even when `n + 1` is already a multiple of 4.
pub open spec fn name_advance(n: int) -> int {
    (n / 4 + 1) * 4
}

/// Cursor advance past a property value of length `n`: rounded up to the
/// next 4-byte boundary.
pub open spec fn value_advance(n: int) -> int {
    ((n + 3) / 4) * 4
}

/// All accesses of one flat decoding step at `off` stay in bounds and the
/// strings it unwraps exist: reading the id, and for a begin-node the
/// terminated name, for a property its length, name offset, resolved name
/// and exact-length value.
pub open spec fn can_step(structs: Seq<u8>, strings: Seq<u8>, off: int) -> bool {
    &&& 0 <= off
    &&& off + 4 <= structs.len()
    &&& (be_u32_at(structs, off) == 1 ==> c_str_at(structs, off + 4) is Some)
    &&& (be_u32_at(structs, off) == 3 ==> {
        &&& off + 12 <= structs.len()
        &&& c_str_at(strings, be_u32_at(structs, off + 8)) is Some
        &&& off + 12 + be_u32_at(structs, off + 4) <= structs.len()
    })
}

/// One flat decoding step at `off`: the token produced and the next cursor
/// offset, or `None` when the id ends the stream (end-of-structure, or any
/// unrecognized id).
pub open spec fn spec_step(structs: Seq<u8>, strings: Seq<u8>, off: int) -> Option<
    (SpecToken, int),
> {
    let id = be_u32_at(structs, off);
    if id == 1 {
        let name = c_str_at(structs, off + 4)->Some_0;
        let resume = off + 4 + name_advance(name.len() as int);
        Some((SpecToken::BeginNode { resume, name }, resume))
    } else if id == 2 {
        Some((SpecToken::EndNode, off + 4))
    } else if id == 3 {
        let len = be_u32_at(structs, off + 4);
        let noff = be_u32_at(structs, off + 8);
        let name = c_str_at(strings, noff)->Some_0;
        let value = structs.subrange(off + 12, off + 12 + len);
        Some((SpecToken::Property { name, value }, off + 12 + value_advance(len)))
    } else if id == 4 {
        Some((SpecToken::NoOperation, off + 4))
    } else {
        None
    }
}

/// A step that stays in bounds advances the cursor, and not past the
/// structure block by more than the final padding.
pub proof fn lemma_step_bounds(structs: Seq<u8>, strings: Seq<u8>, off: int)
    requires
        can_step(structs, strings, off),
    ensures
        spec_step(structs, strings, off) matches Some((t, off2)) ==> off + 4 <= off2 <= structs.len()
            + 3,
{
    let id = be_u32_at(structs, off);
    if id == 1 {
        lemma_c_str_some(structs, off + 4);
        let n = c_str_at(structs, off + 4)->Some_0.len() as int;
        assert(off + 4 + n < structs.len());
        assert((n / 4) * 4 <= n) by (nonlinear_arith)
            requires n >= 0;
        assert(n / 4 >= 0);
    } else if id == 3 {
        let len = be_u32_at(structs, off + 4);
        assert(((len + 3) / 4) * 4 <= len + 3) by (nonlinear_arith)
            requires len >= 0;
        assert((len + 3) / 4 >= 0);
        assert(((len + 3) / 4) * 4 >= 0) by (nonlinear_arith)
            requires (len + 3) / 4 >= 0;
    }
}

/// Every step from `off` until the stream's stopping point stays in bounds:
/// the flat decoder never faults when started here.
pub open spec fn stream_ok(structs: Seq<u8>, strings: Seq<u8>, off: int) -> bool
    decreases structs.len() + 4 - off via stream_ok_decreases
{
    can_step(structs, strings, off) && match spec_step(structs, strings, off) {
        None => true,
        Some((t, off2)) => stream_ok(structs, strings, off2),
    }
}

#[via_fn]
proof fn stream_ok_decreases(structs: Seq<u8>, strings: Seq<u8>, off: int) {
    if can_step(structs, strings, off) {
        lemma_step_bounds(structs, strings, off);
    }
}

/// The sequence of tokens the flat decoder yields from `off` until it stops;
/// cut short where a step would fall out of bounds.
pub open spec fn tokens_from(structs: Seq<u8>, strings: Seq<u8>, off: int) -> Seq<SpecToken>
    decreases structs.len() + 4 - off via tokens_from_decreases
{
    if !can_step(structs, strings, off) {
        Seq::empty()
    } else {
        match spec_step(structs, strings, off) {
            None => Seq::empty(),
            Some((t, off2)) => seq![t] + tokens_from(structs, strings, off2),
        }
    }
}

#[via_fn]
proof fn tokens_from_decreases(structs: Seq<u8>, strings: Seq<u8>, off: int) {
    if can_step(structs, strings, off) {
        lemma_step_bounds(structs, strings, off);
    }
}

/// Four bytes of structure block per token, at least: the stream from `off`
/// is no longer than a quarter of what remains of the block.
pub proof fn lemma_tokens_from_len(structs: Seq<u8>, strings: Seq<u8>, off: int)
    ensures
        tokens_from(structs, strings, off).len() == 0 || 4 * tokens_from(
            structs,
            strings,
            off,
        ).len() <= structs.len() + 4 - off,
    decreases structs.len() + 4 - off,
{
    if can_step(structs, strings, off) {
        lemma_step_bounds(structs, strings, off);
        match spec_step(structs, strings, off) {
            None => {},
            Some((t, off2)) => {
                lemma_tokens_from_len(structs, strings, off2);
            },
        }
    }
}

/// The hierarchy-scoped restriction of a flat token sequence, entered at
/// nesting depth `d`: a begin-node is yielded only when it opens a direct
/// child (depth after the increment at most 1), an end-node only when it
/// brings the depth back to exactly 0, anything else only at depth 0; a
/// depth below 0 stops the sequence at once.
pub open spec fn scope_filter(toks: Seq<SpecToken>, d: int) -> Seq<SpecToken>
    decreases toks.len(),
{
    if toks.len() == 0 {
        Seq::empty()
    } else {
        match toks[0] {
            SpecToken::BeginNode { .. } => if d + 1 <= 1 {
                seq![toks[0]] + scope_filter(toks.skip(1), d + 1)
            } else {
                scope_filter(toks.skip(1), d + 1)
            },
            SpecToken::EndNode => if d - 1 == 0 {
                seq![toks[0]] + scope_filter(toks.skip(1), 0)
            } else if d - 1 < 0 {
                Seq::empty()
            } else {
                scope_filter(toks.skip(1), d - 1)
            },
            _ => if d == 0 {
                seq![toks[0]] + scope_filter(toks.skip(1), d)
            } else {
                scope_filter(toks.skip(1), d)
            },
        }
    }
}

/// Scoping never yields more tokens than the flat stream holds.
pub proof fn lemma_scope_filter_len(toks: Seq<SpecToken>, d: int)
    ensures
        scope_filter(toks, d).len() <= toks.len(),
    decreases toks.len(),
{
    if toks.len() > 0 {
        match toks[0] {
            SpecToken::BeginNode { .. } => lemma_scope_filter_len(toks.skip(1), d + 1),
            SpecToken::EndNode => if d - 1 >= 0 {
                lemma_scope_filter_len(toks.skip(1), if d - 1 == 0 { 0 } else { d - 1 });
            },
            _ => lemma_scope_filter_len(toks.skip(1), d),
        }
    }
}

/// Whether a token counts toward a node's length: begin-nodes and
/// properties do, filler and end markers do not.
pub open spec fn is_child_item(t: SpecToken) -> bool {
    t is BeginNode || t is Property
}

/// How many direct child items (begin-nodes and properties) a token
/// sequence holds.
pub open spec fn count_items(toks: Seq<SpecToken>) -> int
    decreases toks.len(),
{
    if toks.len() == 0 {
        0
    } else {
        (if is_child_item(toks[0]) {
            1int
        } else {
            0int
        }) + count_items(toks.skip(1))
    }
}

/// The item count lies between zero and the sequence's length.
pub proof fn lemma_count_items_bounds(toks: Seq<SpecToken>)
    ensures
        0 <= count_items(toks) <= toks.len(),
    decreases toks.len(),
{
    if toks.len() > 0 {
        lemma_count_items_bounds(toks.skip(1));
    }
}

/// Whether `t` is a begin-node carrying exactly this name.
pub open spec fn node_named(t: SpecToken, name: Seq<u8>) -> bool {
    t matches SpecToken::BeginNode { name: n, .. } && n == name
}

/// Whether `t` is a property carrying exactly this name.
pub open spec fn prop_named(t: SpecToken, name: Seq<u8>) -> bool {
    t matches SpecToken::Property { name: n, .. } && n == name
}

/// The first begin-node in `toks` whose name is exactly `name`, if any.
pub open spec fn find_node_in(toks: Seq<SpecToken>, name: Seq<u8>) -> Option<SpecToken>
    decreases toks.len(),
{
    if toks.len() == 0 {
        None
    } else if node_named(toks[0], name) {
        Some(toks[0])
    } else {
        find_node_in(toks.skip(1), name)
    }
}

/// The first property in `toks` whose name is exactly `name`, if any.
pub open spec fn find_prop_in(toks: Seq<SpecToken>, name: Seq<u8>) -> Option<SpecToken>
    decreases toks.len(),
{
    if toks.len() == 0 {
        None
    } else if prop_named(toks[0], name) {
        Some(toks[0])
    } else {
        find_prop_in(toks.skip(1), name)
    }
}

/// Cross-reference resolution over a flat token sequence: track the most
/// recently opened node, and on the first property whose leading cell
/// equals `ph`, answer with the node tracked at that moment (`last` on
/// entry stands for whatever was tracked before the sequence began).
pub open spec fn phandle_search(toks: Seq<SpecToken>, last: SpecToken, ph: int) -> Option<SpecToken>
    decreases toks.len(),
{
    if toks.len() == 0 {
        None
    } else {
        match toks[0] {
            SpecToken::BeginNode { .. } => phandle_search(toks.skip(1), toks[0], ph),
            SpecToken::Property { value, .. } => if value.len() >= 4 && be_u32_at(value, 0) == ph {
                Some(last)
            } else {
                phandle_search(toks.skip(1), last, ph)
            },
            _ => phandle_search(toks.skip(1), last, ph),
        }
    }
}

} // verus!
