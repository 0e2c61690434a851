//! Laws of the navigation operations, stated over the mathematical model
//! that their contracts speak of.

use vstd::prelude::*;
use crate::model::{
    SpecToken, count_items, find_node_in, find_prop_in, is_child_item, node_named,
    phandle_search, prop_named, scope_filter,
};

verus! {

/// What `Token::len()` counts, read declaratively: the item count of a
/// token sequence is the length of the sequence filtered to begin-nodes
/// and properties, so filler and end markers never contribute.
pub proof fn lemma_count_items_is_filter(toks: Seq<SpecToken>)
    ensures
        count_items(toks) == toks.filter(|t: SpecToken| is_child_item(t)).len(),
    decreases toks.len(),
{
    reveal(Seq::filter);
    let pred = |t: SpecToken| is_child_item(t);
    if toks.len() == 0 {
        assert(toks.filter(pred).len() == 0);
    } else {
        lemma_count_items_is_filter(toks.drop_last());
        lemma_count_items_push(toks.drop_last(), toks.last());
        assert(toks.drop_last().push(toks.last()) =~= toks);
        assert(toks.filter(pred) == (if pred(toks.last()) {
            toks.drop_last().filter(pred).push(toks.last())
        } else {
            toks.drop_last().filter(pred)
        }));
        assert(count_items(toks.drop_last().push(toks.last())) == count_items(toks));
    }
}

/// Appending one token raises the item count by one exactly when the token
/// is a begin-node or a property.
proof fn lemma_count_items_push(toks: Seq<SpecToken>, t: SpecToken)
    ensures
        count_items(toks.push(t)) == count_items(toks) + (if is_child_item(t) {
            1int
        } else {
            0int
        }),
    decreases toks.len(),
{
    if toks.len() == 0 {
        assert(toks.push(t).skip(1) =~= Seq::<SpecToken>::empty());
        assert(count_items(Seq::<SpecToken>::empty()) == 0);
        assert(count_items(toks.push(t)) == (if is_child_item(toks.push(t)[0]) {
            1int
        } else {
            0int
        }) + count_items(toks.push(t).skip(1)));
        assert(toks.push(t)[0] == t);
    } else {
        assert(toks.push(t).skip(1) =~= toks.skip(1).push(t));
        lemma_count_items_push(toks.skip(1), t);
        assert(toks.push(t)[0] == toks[0]);
        assert(count_items(toks.push(t)) == (if is_child_item(toks.push(t)[0]) {
            1int
        } else {
            0int
        }) + count_items(toks.push(t).skip(1)));
        assert(count_items(toks) == (if is_child_item(toks[0]) {
            1int
        } else {
            0int
        }) + count_items(toks.skip(1)));
    }
}

/// Repeating a phandle resolution yields an identical result: the contract
/// of `DeviceTree::get_phandle` pins its result as a function of the tree's
/// flat token sequence and the phandle alone.
pub proof fn lemma_get_phandle_idempotent(
    toks: Seq<SpecToken>,
    last: SpecToken,
    ph: int,
    r1: Option<SpecToken>,
    r2: Option<SpecToken>,
)
    requires
        r1 == phandle_search(toks, last, ph),
        r2 == phandle_search(toks, last, ph),
    ensures
        r1 == r2,
{
}

/// Repeating a node lookup yields an identical result: the contract of
/// `Token::get_node` pins its result as a function of the node's scoped
/// token sequence and the name alone, so any two results that satisfy it
/// on the same state agree.
pub proof fn lemma_get_node_idempotent(
    toks: Seq<SpecToken>,
    name: Seq<u8>,
    r1: Option<SpecToken>,
    r2: Option<SpecToken>,
)
    requires
        r1 == find_node_in(toks, name),
        r2 == find_node_in(toks, name),
    ensures
        r1 == r2,
{
}

/// Repeating a property lookup yields an identical result, for the same
/// reason as `lemma_get_node_idempotent`.
pub proof fn lemma_get_prop_idempotent(
    toks: Seq<SpecToken>,
    name: Seq<u8>,
    r1: Option<SpecToken>,
    r2: Option<SpecToken>,
)
    requires
        r1 == find_prop_in(toks, name),
        r2 == find_prop_in(toks, name),
    ensures
        r1 == r2,
{
}

/// Round trip between iteration and node lookup: a node lookup succeeds
/// exactly for the node names that scoped iteration yields, and what it
/// finds is one of the yielded begin-nodes, bearing that name.
pub proof fn lemma_get_node_round_trip(toks: Seq<SpecToken>, name: Seq<u8>)
    ensures
        (find_node_in(toks, name) is Some) <==> (exists|i: int|
            0 <= i < toks.len() && node_named(#[trigger] toks[i], name)),
        find_node_in(toks, name) matches Some(t) ==> node_named(t, name) && (exists|i: int|
            0 <= i < toks.len() && #[trigger] toks[i] == t),
    decreases toks.len(),
{
    if toks.len() == 0 {
    } else {
        lemma_get_node_round_trip(toks.skip(1), name);
        if node_named(toks[0], name) {
            assert(node_named(toks[0], name));
            assert(toks[0] == toks[0]);
        } else {
            if find_node_in(toks.skip(1), name) is Some {
                let i = choose|i: int|
                    0 <= i < toks.skip(1).len() && node_named(#[trigger] toks.skip(1)[i], name);
                assert(toks[i + 1] == toks.skip(1)[i]);
                let t = find_node_in(toks.skip(1), name)->Some_0;
                let j = choose|j: int| 0 <= j < toks.skip(1).len() && toks.skip(1)[j] == t;
                assert(toks[j + 1] == t);
            } else {
                assert forall|i: int|
                    0 <= i < toks.len() implies !node_named(#[trigger] toks[i], name) by {
                    if i >= 1 {
                        assert(toks.skip(1)[i - 1] == toks[i]);
                    }
                }
            }
        }
    }
}

/// Round trip between iteration and property lookup, as in
/// `lemma_get_node_round_trip`.
pub proof fn lemma_get_prop_round_trip(toks: Seq<SpecToken>, name: Seq<u8>)
    ensures
        (find_prop_in(toks, name) is Some) <==> (exists|i: int|
            0 <= i < toks.len() && prop_named(#[trigger] toks[i], name)),
        find_prop_in(toks, name) matches Some(t) ==> prop_named(t, name) && (exists|i: int|
            0 <= i < toks.len() && #[trigger] toks[i] == t),
    decreases toks.len(),
{
    if toks.len() == 0 {
    } else {
        lemma_get_prop_round_trip(toks.skip(1), name);
        if prop_named(toks[0], name) {
            assert(prop_named(toks[0], name));
            assert(toks[0] == toks[0]);
        } else {
            if find_prop_in(toks.skip(1), name) is Some {
                let i = choose|i: int|
                    0 <= i < toks.skip(1).len() && prop_named(#[trigger] toks.skip(1)[i], name);
                assert(toks[i + 1] == toks.skip(1)[i]);
                let t = find_prop_in(toks.skip(1), name)->Some_0;
                let j = choose|j: int| 0 <= j < toks.skip(1).len() && toks.skip(1)[j] == t;
                assert(toks[j + 1] == t);
            } else {
                assert forall|i: int|
                    0 <= i < toks.len() implies !prop_named(#[trigger] toks[i], name) by {
                    if i >= 1 {
                        assert(toks.skip(1)[i - 1] == toks[i]);
                    }
                }
            }
        }
    }
}

/// Every begin-node in `s` is at once closed by the next element, so a
/// child contributes its begin/end pair and nothing between.
pub open spec fn child_pairs_only(s: Seq<SpecToken>) -> bool {
    forall|i: int| 0 <= i < s.len() - 1 && (#[trigger] s[i]) is BeginNode ==> s[i + 1] is EndNode
}

/// Scoped iteration never descends into a child: in the scoped view of a
/// node's body, each yielded begin-node is immediately followed by the
/// end-node that closes it, so no grandchild token ever surfaces. Entered
/// below the surface (depth at least 1), the view stays silent until the
/// end-node that returns to the surface.
pub proof fn lemma_scope_no_grandchildren(toks: Seq<SpecToken>, d: int)
    requires
        0 <= d,
    ensures
        child_pairs_only(scope_filter(toks, d)),
        d >= 1 && scope_filter(toks, d).len() > 0 ==> scope_filter(toks, d)[0] is EndNode,
    decreases toks.len(),
{
    if toks.len() == 0 {
    } else {
        let rest = toks.skip(1);
        let s = scope_filter(toks, d);
        match toks[0] {
            SpecToken::BeginNode { .. } => {
                lemma_scope_no_grandchildren(rest, d + 1);
                let tail = scope_filter(rest, d + 1);
                if d + 1 <= 1 {
                    assert(s == seq![toks[0]] + tail);
                    assert forall|i: int|
                        0 <= i < s.len() - 1 && (#[trigger] s[i]) is BeginNode implies s[i + 1]
                        is EndNode by {
                        if i == 0 {
                            assert(d + 1 >= 1);
                            assert(s[1] == tail[0]);
                        } else {
                            assert(s[i] == tail[i - 1]);
                            assert(s[i + 1] == tail[i]);
                        }
                    }
                }
            },
            SpecToken::EndNode => {
                if d - 1 == 0 {
                    lemma_scope_no_grandchildren(rest, 0);
                    let tail = scope_filter(rest, 0);
                    assert(s == seq![toks[0]] + tail);
                    assert forall|i: int|
                        0 <= i < s.len() - 1 && (#[trigger] s[i]) is BeginNode implies s[i + 1]
                        is EndNode by {
                        if i > 0 {
                            assert(s[i] == tail[i - 1]);
                            assert(s[i + 1] == tail[i]);
                        }
                    }
                } else if d - 1 < 0 {
                } else {
                    lemma_scope_no_grandchildren(rest, d - 1);
                }
            },
            _ => {
                lemma_scope_no_grandchildren(rest, d);
                let tail = scope_filter(rest, d);
                if d == 0 {
                    assert(s == seq![toks[0]] + tail);
                    assert forall|i: int|
                        0 <= i < s.len() - 1 && (#[trigger] s[i]) is BeginNode implies s[i + 1]
                        is EndNode by {
                        if i > 0 {
                            assert(s[i] == tail[i - 1]);
                            assert(s[i + 1] == tail[i]);
                        }
                    }
                }
            },
        }
    }
}

/// Scoped iteration invents nothing: every token it yields stands in the
/// underlying flat token sequence.
pub proof fn lemma_scope_subset(toks: Seq<SpecToken>, d: int)
    ensures
        forall|i: int|
            0 <= i < scope_filter(toks, d).len() ==> (exists|j: int|
                0 <= j < toks.len() && #[trigger] scope_filter(toks, d)[i] == toks[j]),
    decreases toks.len(),
{
    if toks.len() == 0 {
    } else {
        let rest = toks.skip(1);
        let s = scope_filter(toks, d);
        assert forall|i: int| 0 <= i < s.len() implies (exists|j: int|
            0 <= j < toks.len() && #[trigger] s[i] == toks[j]) by {
            match toks[0] {
                SpecToken::BeginNode { .. } => {
                    lemma_scope_subset(rest, d + 1);
                    if d + 1 <= 1 {
                        if i == 0 {
                            assert(s[0] == toks[0]);
                        } else {
                            let j = choose|j: int|
                                0 <= j < rest.len() && scope_filter(rest, d + 1)[i - 1] == rest[j];
                            assert(s[i] == toks[j + 1]);
                        }
                    } else {
                        let j = choose|j: int|
                            0 <= j < rest.len() && scope_filter(rest, d + 1)[i] == rest[j];
                        assert(s[i] == toks[j + 1]);
                    }
                },
                SpecToken::EndNode => {
                    if d - 1 == 0 {
                        lemma_scope_subset(rest, 0);
                        if i == 0 {
                            assert(s[0] == toks[0]);
                        } else {
                            let j = choose|j: int|
                                0 <= j < rest.len() && scope_filter(rest, 0)[i - 1] == rest[j];
                            assert(s[i] == toks[j + 1]);
                        }
                    } else if d - 1 < 0 {
                    } else {
                        lemma_scope_subset(rest, d - 1);
                        let j = choose|j: int|
                            0 <= j < rest.len() && scope_filter(rest, d - 1)[i] == rest[j];
                        assert(s[i] == toks[j + 1]);
                    }
                },
                _ => {
                    lemma_scope_subset(rest, d);
                    if d == 0 {
                        if i == 0 {
                            assert(s[0] == toks[0]);
                        } else {
                            let j = choose|j: int|
                                0 <= j < rest.len() && scope_filter(rest, d)[i - 1] == rest[j];
                            assert(s[i] == toks[j + 1]);
                        }
                    } else {
                        let j = choose|j: int|
                            0 <= j < rest.len() && scope_filter(rest, d)[i] == rest[j];
                        assert(s[i] == toks[j + 1]);
                    }
                },
            }
        }
    }
}

} // verus!
