//! A library to parse a static devicetree blob in an embedded environment
//! without alloc: read-only, zero-copy views over a caller-owned buffer.

use vstd::prelude::*;

pub mod laws;
pub mod model;
pub mod utils;

use crate::model::{
    SpecToken, can_step, spec_step, stream_ok, tokens_from, scope_filter, count_items,
    is_child_item, find_node_in, find_prop_in, phandle_search, lemma_step_bounds,
    lemma_tokens_from_len, lemma_scope_filter_len, lemma_count_items_bounds,
};
use crate::utils::{
    be_u32_at, c_str_at, read_fdt_u32, get_fdt_string, lemma_c_str_some,
};
use vstd::slice::slice_subrange;
use vstd::string::StringSliceAdditionalSpecFns;

verus! {

broadcast use vstd::slice::group_slice_axioms;

/// Errors which can be returned by `DeviceTree::back()`.
#[derive(Debug)]
pub enum Error {
    /// Magic does not match the format's fixed value.
    InvalidMagic,
    /// Last compatible version is not 16; carries the value that was read.
    UnsupportedVersion(u32),
}

/// FDT tokens that make up the structure of a devicetree.
#[derive(Debug, Copy, Clone)]
pub enum Token<'a> {
    /// A token with an unknown or otherwise invalid id.
    /// Not produced by decoding.
    Invalid(u32),
    /// Marks the beginning of a node: the owning tree, the structure-block
    /// offset just past the node's name (where its body resumes), and the
    /// name without its terminator. Always has a matching `EndNode`.
    BeginNode(DeviceTree<'a>, usize, &'a [u8]),
    /// Marks the end of a node.
    EndNode,
    /// Marks a property: the owning tree, the name resolved from the
    /// strings block, and the exact-length value.
    Property(DeviceTree<'a>, &'a [u8], &'a [u8]),
    /// This token means nothing.
    NoOperation,
    /// Marks the end of the token stream.
    End,
}

impl<'a> Token<'a> {
    /// The mathematical form of this token.
    pub open spec fn model(self) -> SpecToken {
        match self {
            Token::Invalid(x) => SpecToken::Invalid(x as int),
            Token::BeginNode(_, offs, name) => SpecToken::BeginNode {
                resume: offs as int,
                name: name@,
            },
            Token::EndNode => SpecToken::EndNode,
            Token::Property(_, name, val) => SpecToken::Property { name: name@, value: val@ },
            Token::NoOperation => SpecToken::NoOperation,
            Token::End => SpecToken::End,
        }
    }

    /// The tree a begin-node or property belongs to.
    pub open spec fn dt_spec(self) -> Option<DeviceTree<'a>> {
        match self {
            Token::BeginNode(dt, _, _) => Some(dt),
            Token::Property(dt, _, _) => Some(dt),
            _ => None,
        }
    }

    /// What decoding guarantees of a token it hands out: its tree decodes
    /// without faulting, and a begin-node's body can be resumed at its
    /// stored offset.
    pub open spec fn inv(self) -> bool {
        match self {
            Token::BeginNode(dt, offs, _) => dt.tree_ok() && stream_ok(
                dt.structs@,
                dt.strings@,
                offs as int,
            ),
            Token::Property(dt, _, _) => dt.tree_ok(),
            _ => true,
        }
    }

    /// The hierarchy-scoped token sequence of a begin-node's body; empty
    /// for every other kind of token.
    pub open spec fn spec_scope(self) -> Seq<SpecToken> {
        match self {
            Token::BeginNode(dt, offs, _) => scope_filter(
                tokens_from(dt.structs@, dt.strings@, offs as int),
                0,
            ),
            _ => Seq::empty(),
        }
    }

    /// What `len()` returns: a property's exact byte length, a node's count
    /// of direct child items, zero for anything else.
    pub open spec fn spec_len(self) -> int {
        match self {
            Token::Property(_, _, val) => val@.len() as int,
            Token::BeginNode(_, _, _) => count_items(self.spec_scope()),
            _ => 0,
        }
    }

    /// Returns the given name of this token, or a fixed label for the
    /// kinds that carry none.
    pub fn name(&self) -> (r: &'a [u8])
        ensures
            match *self {
                Token::BeginNode(_, _, name) => r@ == name@,
                Token::Property(_, name, _) => r@ == name@,
                Token::EndNode => r@ == "end-node".spec_bytes(),
                Token::NoOperation => r@ == "nop".spec_bytes(),
                Token::End => r@ == "end".spec_bytes(),
                Token::Invalid(_) => r@ == "-".spec_bytes(),
            },
    {
        match *self {
            Token::BeginNode(_, _, name) => name,
            Token::Property(_, name, _) => name,
            Token::EndNode => "end-node".as_bytes(),
            Token::NoOperation => "nop".as_bytes(),
            Token::End => "end".as_bytes(),
            _ => "-".as_bytes(),
        }
    }

    /// Read one byte from a property's value at position `n`.
    /// Returns `None` if not a property or out of range.
    pub fn prop_u8(&self, n: usize) -> (r: Option<u8>)
        ensures
            match *self {
                Token::Property(_, _, val) => r == (if n < val@.len() {
                    Some(val@[n as int])
                } else {
                    None::<u8>
                }),
                _ => r is None,
            },
    {
        match *self {
            Token::Property(_, _, val) => {
                if n >= val.len() {
                    return None;
                }
                Some(*vstd::slice::slice_index_get(val, n))
            },
            _ => None,
        }
    }

    /// Read one big-endian cell from a property's value at position `n`.
    /// Returns `None` if not a property, or when `n*4 + 4` exceeds the
    /// value's byte length, for all `n`.
    pub fn prop_u32(&self, n: usize) -> (r: Option<u32>)
        ensures
            match *self {
                Token::Property(_, _, val) => {
                    &&& (r is Some <==> 4 * n + 4 <= val@.len())
                    &&& (r matches Some(x) ==> x as int == be_u32_at(val@, 4 * n))
                },
                _ => r is None,
            },
    {
        match *self {
            Token::Property(_, _, val) => {
                if val.len() < 4 || n > (val.len() - 4) / 4 {
                    proof {
                        if val@.len() >= 4 {
                            assert(n as int > (val@.len() - 4) / 4);
                            assert(4 * ((val@.len() - 4) / 4) <= val@.len() - 4);
                        }
                    }
                    return None;
                }
                proof {
                    assert(4 * (n as int) <= 4 * ((val@.len() - 4) / 4));
                    assert(4 * ((val@.len() - 4) / 4) <= val@.len() - 4);
                }
                Some(read_fdt_u32(val, n * 4))
            },
            _ => None,
        }
    }

    /// Read the leading null-terminated string of a property's value.
    /// Returns `None` if not a property, or if no terminator is found.
    pub fn prop_str(&self) -> (r: Option<&'a [u8]>)
        ensures
            match *self {
                Token::Property(_, _, val) => match r {
                    Some(s) => c_str_at(val@, 0) == Some(s@),
                    None => c_str_at(val@, 0) is None,
                },
                _ => r is None,
            },
    {
        match *self {
            Token::Property(_, _, val) => get_fdt_string(val, 0),
            _ => None,
        }
    }
}

impl<'a> Token<'a> {
    /// What resolving this token's leading cell as a cross-reference finds:
    /// nothing unless this is a property with at least one cell whose value
    /// is not the reserved 0; else the whole-tree search of `phandle_search`.
    pub open spec fn spec_phandle_target(self) -> Option<SpecToken> {
        match self {
            Token::Property(dt, _, val) => if val@.len() >= 4 && be_u32_at(val@, 0) != 0 {
                phandle_search(dt.spec_tokens(), SpecToken::Invalid(0), be_u32_at(val@, 0))
            } else {
                None
            },
            _ => None,
        }
    }

    /// Returns a hierarchy-scoped iterator over this node's body.
    /// Returns an empty iterator if this token is not a begin-node.
    pub fn into_iter(self) -> (r: HierarchyTokenIterator<'a>)
        requires
            self.inv(),
        ensures
            r.wf(),
            r.remaining() == self.spec_scope(),
            r.tree_of() == (if self is BeginNode {
                self.dt_spec()
            } else {
                None
            }),
    {
        match self {
            Token::BeginNode(dt, offs, _) => HierarchyTokenIterator::new_offs(&dt, offs),
            _ => HierarchyTokenIterator::none(),
        }
    }

    /// Return the length of the token: a property's length in bytes; for a
    /// begin-node the number of direct child nodes and properties (a single
    /// level, filler and end markers not counted); zero for anything else.
    pub fn len(&self) -> (r: usize)
        requires
            self.inv(),
        ensures
            r as int == self.spec_len(),
    {
        match *self {
            Token::Property(_, _, val) => val.len(),
            Token::BeginNode(dt, offs, _) => {
                proof {
                    lemma_tokens_from_len(dt.structs@, dt.strings@, offs as int);
                    lemma_scope_filter_len(tokens_from(dt.structs@, dt.strings@, offs as int), 0);
                    lemma_count_items_bounds(self.spec_scope());
                    assert(self.spec_len() <= dt.structs@.len() + 4);
                }
                let mut it = (*self).into_iter();
                let mut count: usize = 0;
                loop
                    invariant
                        it.wf(),
                        count as int + count_items(it.remaining()) == self.spec_len(),
                        count as int <= self.spec_len(),
                        self.spec_len() + 4 <= usize::MAX,
                    decreases it.remaining().len(),
                {
                    let ghost rem0 = it.remaining();
                    match it.next() {
                        Some(tok) => {
                            proof {
                                lemma_count_items_bounds(it.remaining());
                                assert(count_items(rem0) == (if is_child_item(rem0[0]) {
                                    1int
                                } else {
                                    0int
                                }) + count_items(rem0.skip(1)));
                            }
                            match tok {
                                Token::BeginNode(_, _, _) => {
                                    count = count + 1;
                                },
                                Token::Property(_, _, _) => {
                                    count = count + 1;
                                },
                                _ => {},
                            }
                        },
                        None => {
                            return count;
                        },
                    }
                }
            },
            _ => 0,
        }
    }

    /// Returns true if `len()` equals 0. See `len()` for exact behaviour.
    pub fn empty(&self) -> (r: bool)
        requires
            self.inv(),
        ensures
            r <==> self.spec_len() == 0,
    {
        self.len() == 0
    }

    /// Find a node with `name` among this node's direct children (not
    /// recursive). Returns `None` if there is no matching node, or if this
    /// token is not a begin-node.
    pub fn get_node(&self, name: &'a [u8]) -> (r: Option<Token<'a>>)
        requires
            self.inv(),
        ensures
            match find_node_in(self.spec_scope(), name@) {
                Some(t) => r matches Some(tok) && tok.model() == t && tok.inv() && tok.dt_spec()
                    == self.dt_spec(),
                None => r is None,
            },
    {
        let mut it = (*self).into_iter();
        loop
            invariant
                it.wf(),
                find_node_in(it.remaining(), name@) == find_node_in(self.spec_scope(), name@),
                (it.tree_of() is Some ==> it.tree_of() == self.dt_spec()),
            decreases it.remaining().len(),
        {
            match it.next() {
                Some(tok) => {
                    match tok {
                        Token::BeginNode(_, _, s) => {
                            if bytes_eq(name, s) {
                                return Some(tok);
                            }
                        },
                        _ => {},
                    }
                },
                None => {
                    return None;
                },
            }
        }
    }

    /// Find a property with `name` among this node's direct children (not
    /// recursive). Returns `None` if there is no matching property, or if
    /// this token is not a begin-node.
    pub fn get_prop(&self, name: &'a [u8]) -> (r: Option<Token<'a>>)
        requires
            self.inv(),
        ensures
            match find_prop_in(self.spec_scope(), name@) {
                Some(t) => r matches Some(tok) && tok.model() == t && tok.inv() && tok.dt_spec()
                    == self.dt_spec(),
                None => r is None,
            },
    {
        let mut it = (*self).into_iter();
        loop
            invariant
                it.wf(),
                find_prop_in(it.remaining(), name@) == find_prop_in(self.spec_scope(), name@),
                (it.tree_of() is Some ==> it.tree_of() == self.dt_spec()),
            decreases it.remaining().len(),
        {
            match it.next() {
                Some(tok) => {
                    match tok {
                        Token::Property(_, s, _) => {
                            if bytes_eq(name, s) {
                                return Some(tok);
                            }
                        },
                        _ => {},
                    }
                },
                None => {
                    return None;
                },
            }
        }
    }

    /// Read this property's leading cell as a cross-reference and resolve
    /// it to the node it names. Returns `None` if this token is not a
    /// property, the value holds no full cell, the cell is the reserved
    /// value 0, or no node matches.
    pub fn prop_phandle(&self) -> (r: Option<Token<'a>>)
        requires
            self.inv(),
        ensures
            match self.spec_phandle_target() {
                Some(t) => r matches Some(tok) && tok.model() == t && tok.inv() && (tok.dt_spec()
                    is Some ==> tok.dt_spec() == self.dt_spec()),
                None => r is None,
            },
    {
        match *self {
            Token::Property(dt, _, _) => match self.prop_u32(0) {
                Some(phandle) => dt.get_phandle(phandle),
                None => None,
            },
            _ => None,
        }
    }
}

/// Byte-for-byte equality of two slices.
fn bytes_eq(a: &[u8], b: &[u8]) -> (r: bool)
    ensures
        r <==> a@ == b@,
{
    if a.len() != b.len() {
        proof {
            assert(a@.len() != b@.len());
        }
        return false;
    }
    let mut i: usize = 0;
    while i < a.len()
        invariant
            i <= a@.len(),
            a@.len() == b@.len(),
            forall|j: int| 0 <= j < i ==> a@[j] == b@[j],
        decreases a@.len() - i,
    {
        if *vstd::slice::slice_index_get(a, i) != *vstd::slice::slice_index_get(b, i) {
            proof {
                assert(a@[i as int] != b@[i as int]);
            }
            return false;
        }
        i += 1;
    }
    proof {
        assert(a@ =~= b@);
    }
    true
}

/// Iterates over FDT tokens (see `Token`) in a device tree, one flat
/// decoding step per call, with no regard for nesting depth.
pub struct TokenIterator<'a> {
    dt: Option<DeviceTree<'a>>,
    offs: usize,
}

impl<'a> TokenIterator<'a> {
    /// The tree this iterator reads, while it has not stopped.
    pub closed spec fn tree_of(self) -> Option<DeviceTree<'a>> {
        self.dt
    }

    /// The current cursor offset into the structure block.
    pub closed spec fn cursor(self) -> int {
        self.offs as int
    }

    /// A live iterator reads a tree whose stream decodes without faulting
    /// from the current cursor offset.
    pub closed spec fn wf(self) -> bool {
        match self.dt {
            None => true,
            Some(dt) => dt.tree_ok() && stream_ok(dt.structs@, dt.strings@, self.offs as int),
        }
    }

    /// The tokens still to be yielded.
    pub closed spec fn remaining(self) -> Seq<SpecToken> {
        match self.dt {
            None => Seq::empty(),
            Some(dt) => tokens_from(dt.structs@, dt.strings@, self.offs as int),
        }
    }

    /// Create a new iterator over the whole tree.
    fn new(dt: &DeviceTree<'a>) -> (r: Self)
        ensures
            r.tree_of() == Some(*dt),
            dt.tree_ok() ==> r.wf(),
            r.remaining() == dt.spec_tokens(),
    {
        TokenIterator { dt: Some(*dt), offs: 0 }
    }

    /// Create a new iterator starting from `offs`, which must be aligned to
    /// a token: 0, or an offset previously handed out as a begin-node's
    /// resume point.
    fn new_offs(dt: &DeviceTree<'a>, offs: usize) -> (r: Self)
        ensures
            r.tree_of() == Some(*dt),
            dt.tree_ok() && stream_ok(dt.structs@, dt.strings@, offs as int) ==> r.wf(),
            r.remaining() == tokens_from(dt.structs@, dt.strings@, offs as int),
    {
        TokenIterator { dt: Some(*dt), offs }
    }

    /// Create an empty iterator; it immediately yields `None`.
    fn none() -> (r: Self)
        ensures
            r.tree_of() is None,
            r.wf(),
            r.remaining() == Seq::<SpecToken>::empty(),
    {
        TokenIterator { dt: None, offs: 0 }
    }

    /// Decode the token at the cursor and advance past it. `None` ends the
    /// stream for good: the end-of-structure marker, any unrecognized id,
    /// or an iterator that was empty from the start.
    pub fn next(&mut self) -> (r: Option<Token<'a>>)
        requires
            old(self).wf(),
        ensures
            final(self).wf(),
            match r {
                Some(tok) => {
                    &&& old(self).remaining().len() > 0
                    &&& tok.model() == old(self).remaining()[0]
                    &&& final(self).remaining() == old(self).remaining().skip(1)
                    &&& tok.inv()
                    &&& (tok.dt_spec() is Some ==> tok.dt_spec() == old(self).tree_of())
                    &&& final(self).tree_of() == old(self).tree_of()
                    &&& final(self).cursor() >= old(self).cursor() + 4
                },
                None => {
                    &&& old(self).remaining().len() == 0
                    &&& final(self).remaining().len() == 0
                    &&& final(self).tree_of() is None
                },
            },
    {
        let dt = match self.dt {
            Some(dt) => dt,
            None => {
                return None;
            },
        };
        let ghost structs = dt.structs@;
        let ghost strings = dt.strings@;
        let ghost off0 = self.offs as int;
        proof {
            assert(stream_ok(structs, strings, off0));
            assert(can_step(structs, strings, off0));
            lemma_step_bounds(structs, strings, off0);
            assert(dt.structs.len() == structs.len());
            assert(dt.strings.len() == strings.len());
        }
        let token_id = read_fdt_u32(dt.structs, self.offs);
        self.offs = self.offs + 4;

        if token_id == 1 {
            proof {
                lemma_c_str_some(structs, off0 + 4);
            }
            let s = get_fdt_string(dt.structs, self.offs).unwrap();
            proof {
                let n = s@.len() as int;
                assert((n / 4) * 4 <= n) by (nonlinear_arith)
                    requires
                        n >= 0,
                ;
            }
            self.offs = self.offs + (s.len() / 4 + 1) * 4;
            let tok = Token::BeginNode(dt, self.offs, s);
            proof {
                let stepped = spec_step(structs, strings, off0);
                assert(stepped == Some((tok.model(), self.offs as int)));
                assert(tokens_from(structs, strings, off0) == seq![tok.model()] + tokens_from(
                    structs,
                    strings,
                    self.offs as int,
                ));
                assert((seq![tok.model()] + tokens_from(structs, strings, self.offs as int)).skip(1)
                    =~= tokens_from(structs, strings, self.offs as int));
            }
            Some(tok)
        } else if token_id == 2 {
            proof {
                let t = SpecToken::EndNode;
                assert(spec_step(structs, strings, off0) == Some((t, self.offs as int)));
                assert(tokens_from(structs, strings, off0) == seq![t] + tokens_from(
                    structs,
                    strings,
                    self.offs as int,
                ));
                assert((seq![t] + tokens_from(structs, strings, self.offs as int)).skip(1)
                    =~= tokens_from(structs, strings, self.offs as int));
            }
            Some(Token::EndNode)
        } else if token_id == 3 {
            let len = read_fdt_u32(dt.structs, self.offs) as usize;
            self.offs = self.offs + 4;
            let nameoff = read_fdt_u32(dt.structs, self.offs) as usize;
            self.offs = self.offs + 4;
            proof {
                assert(c_str_at(strings, nameoff as int) is Some);
                assert(0 <= (nameoff as int) && (nameoff as int) < strings.len());
            }
            let name = get_fdt_string(dt.strings, nameoff).unwrap();
            let tmp = self.offs;
            proof {
                let l = len as int;
                assert(((l + 3) / 4) * 4 <= l + 3) by (nonlinear_arith)
                    requires
                        l >= 0,
                ;
                assert((l + 3) / 4 >= 0);
                assert(((l + 3) / 4) * 4 >= 0) by (nonlinear_arith)
                    requires
                        (l + 3) / 4 >= 0,
                ;
            }
            self.offs = self.offs + ((len + 3) / 4) * 4;
            let tok = Token::Property(dt, name, slice_subrange(dt.structs, tmp, tmp + len));
            proof {
                assert(spec_step(structs, strings, off0) == Some((tok.model(), self.offs as int)));
                assert(tokens_from(structs, strings, off0) == seq![tok.model()] + tokens_from(
                    structs,
                    strings,
                    self.offs as int,
                ));
                assert((seq![tok.model()] + tokens_from(structs, strings, self.offs as int)).skip(1)
                    =~= tokens_from(structs, strings, self.offs as int));
            }
            Some(tok)
        } else if token_id == 4 {
            proof {
                let t = SpecToken::NoOperation;
                assert(spec_step(structs, strings, off0) == Some((t, self.offs as int)));
                assert(tokens_from(structs, strings, off0) == seq![t] + tokens_from(
                    structs,
                    strings,
                    self.offs as int,
                ));
                assert((seq![t] + tokens_from(structs, strings, self.offs as int)).skip(1)
                    =~= tokens_from(structs, strings, self.offs as int));
            }
            Some(Token::NoOperation)
        } else {
            proof {
                assert(spec_step(structs, strings, off0) is None);
                assert(tokens_from(structs, strings, off0) =~= Seq::<SpecToken>::empty());
            }
            self.dt = None;
            None
        }
    }
}

/// Iterates over FDT tokens but skips tokens not in the current node's
/// scope (i.e. tokens nested between a begin-node and end-node pair).
pub struct HierarchyTokenIterator<'a> {
    tokeniter: TokenIterator<'a>,
    level: i64,
}

impl<'a> HierarchyTokenIterator<'a> {
    /// The tree this iterator reads, while it has not stopped.
    pub closed spec fn tree_of(self) -> Option<DeviceTree<'a>> {
        self.tokeniter.tree_of()
    }

    /// The inner flat iterator is well-formed and the depth counter is
    /// bounded by the block's cursor: a nesting level costs at least four
    /// bytes of structure block.
    pub closed spec fn wf(self) -> bool {
        &&& self.tokeniter.wf()
        &&& (self.tokeniter.tree_of() is Some ==> 0 <= self.level && 4 * self.level
            <= self.tokeniter.cursor() + 4)
    }

    /// The tokens of the current scope still to be yielded.
    pub closed spec fn remaining(self) -> Seq<SpecToken> {
        scope_filter(self.tokeniter.remaining(), self.level as int)
    }

    /// See `TokenIterator::new()`.
    fn new(dt: &DeviceTree<'a>) -> (r: Self)
        ensures
            r.tree_of() == Some(*dt),
            dt.tree_ok() ==> r.wf(),
            r.remaining() == scope_filter(dt.spec_tokens(), 0),
    {
        HierarchyTokenIterator { tokeniter: TokenIterator::new(dt), level: 0 }
    }

    /// See `TokenIterator::new_offs()`.
    fn new_offs(dt: &DeviceTree<'a>, offs: usize) -> (r: Self)
        ensures
            r.tree_of() == Some(*dt),
            dt.tree_ok() && stream_ok(dt.structs@, dt.strings@, offs as int) ==> r.wf(),
            r.remaining() == scope_filter(tokens_from(dt.structs@, dt.strings@, offs as int), 0),
    {
        HierarchyTokenIterator { tokeniter: TokenIterator::new_offs(dt, offs), level: 0 }
    }

    /// See `TokenIterator::none()`.
    fn none() -> (r: Self)
        ensures
            r.tree_of() is None,
            r.wf(),
            r.remaining() == Seq::<SpecToken>::empty(),
    {
        HierarchyTokenIterator { tokeniter: TokenIterator::none(), level: 0 }
    }

    /// Yield the next token of the scope: a begin-node only when it opens a
    /// direct child, an end-node only when it closes a direct child, other
    /// tokens only at the scope's own depth. A depth underflow (the scope's
    /// own end-node) or the end of the flat stream stops the iterator for
    /// good.
    pub fn next(&mut self) -> (r: Option<Token<'a>>)
        requires
            old(self).wf(),
        ensures
            final(self).wf(),
            match r {
                Some(tok) => {
                    &&& old(self).remaining().len() > 0
                    &&& tok.model() == old(self).remaining()[0]
                    &&& final(self).remaining() == old(self).remaining().skip(1)
                    &&& tok.inv()
                    &&& (tok.dt_spec() is Some ==> tok.dt_spec() == old(self).tree_of())
                    &&& final(self).tree_of() == old(self).tree_of()
                },
                None => {
                    &&& old(self).remaining().len() == 0
                    &&& final(self).remaining().len() == 0
                },
            },
    {
        loop
            invariant
                self.wf(),
                self.remaining() == old(self).remaining(),
                self.tree_of() == old(self).tree_of(),
            decreases self.tokeniter.remaining().len(),
        {
            let ghost flat0 = self.tokeniter.remaining();
            let ghost level0 = self.level as int;
            match self.tokeniter.next() {
                Some(tok) => {
                    proof {
                        assert(flat0.len() > 0);
                        assert(tok.model() == flat0[0]);
                        assert(self.tokeniter.remaining() == flat0.skip(1));
                    }
                    match tok {
                        Token::BeginNode(_, _, _) => {
                            self.level = self.level + 1;
                            if self.level <= 1 {
                                proof {
                                    assert(scope_filter(flat0, level0) == seq![flat0[0]]
                                        + scope_filter(flat0.skip(1), level0 + 1));
                                    assert((seq![flat0[0]] + scope_filter(
                                        flat0.skip(1),
                                        level0 + 1,
                                    )).skip(1) =~= scope_filter(flat0.skip(1), level0 + 1));
                                }
                                return Some(tok);
                            }
                            proof {
                                assert(scope_filter(flat0, level0) == scope_filter(
                                    flat0.skip(1),
                                    level0 + 1,
                                ));
                            }
                        },
                        Token::EndNode => {
                            self.level = self.level - 1;
                            if self.level == 0 {
                                proof {
                                    assert(scope_filter(flat0, level0) == seq![flat0[0]]
                                        + scope_filter(flat0.skip(1), 0));
                                    assert((seq![flat0[0]] + scope_filter(flat0.skip(1), 0)).skip(1)
                                        =~= scope_filter(flat0.skip(1), 0));
                                }
                                return Some(tok);
                            }
                            if self.level < 0 {
                                proof {
                                    assert(scope_filter(flat0, level0) =~= Seq::<
                                        SpecToken,
                                    >::empty());
                                }
                                self.tokeniter = TokenIterator::none();
                                return None;
                            }
                            proof {
                                assert(scope_filter(flat0, level0) == scope_filter(
                                    flat0.skip(1),
                                    level0 - 1,
                                ));
                            }
                        },
                        _ => {
                            if self.level == 0 {
                                proof {
                                    assert(scope_filter(flat0, level0) == seq![flat0[0]]
                                        + scope_filter(flat0.skip(1), level0));
                                    assert((seq![flat0[0]] + scope_filter(
                                        flat0.skip(1),
                                        level0,
                                    )).skip(1) =~= scope_filter(flat0.skip(1), level0));
                                }
                                return Some(tok);
                            }
                            proof {
                                assert(scope_filter(flat0, level0) == scope_filter(
                                    flat0.skip(1),
                                    level0,
                                ));
                            }
                        },
                    }
                },
                None => {
                    proof {
                        assert(flat0.len() == 0);
                        assert(scope_filter(flat0, level0) =~= Seq::<SpecToken>::empty());
                    }
                    return None;
                },
            }
        }
    }
}

/// The device tree: three read-only views of one backing buffer, derived
/// from the header's offset and size fields.
#[derive(Debug, Clone, Copy)]
pub struct DeviceTree<'a> {
    pub fdt: &'a [u8],
    pub structs: &'a [u8],
    pub strings: &'a [u8],
}

impl<'a> DeviceTree<'a> {
    /// The flat decoder never faults when started at offset 0 of the
    /// structure block, and cursor arithmetic stays within `usize`.
    pub open spec fn tree_ok(self) -> bool {
        &&& stream_ok(self.structs@, self.strings@, 0)
        &&& self.structs@.len() + 4 <= usize::MAX
    }

    /// The whole-tree flat token sequence.
    pub open spec fn spec_tokens(self) -> Seq<SpecToken> {
        tokens_from(self.structs@, self.strings@, 0)
    }

    /// The blob opens as a tree: its first token is a begin-node (the root).
    pub open spec fn spec_has_root(self) -> bool {
        self.spec_tokens().len() > 0 && self.spec_tokens()[0] is BeginNode
    }

    /// Create a new `DeviceTree` with `fdt` as backing buffer.
    /// Returns `Ok` exactly when the magic and the last compatible version
    /// are correct; the respective `Err` otherwise.
    pub fn back(fdt: &'a [u8]) -> (r: Result<DeviceTree<'a>, Error>)
        requires
            fdt@.len() >= 40,
            be_u32_at(fdt@, 8) + be_u32_at(fdt@, 36) <= fdt@.len(),
            be_u32_at(fdt@, 12) + be_u32_at(fdt@, 32) <= fdt@.len(),
        ensures
            match r {
                Ok(dt) => {
                    &&& be_u32_at(fdt@, 0) == 0xD00DFEED
                    &&& be_u32_at(fdt@, 24) == 16
                    &&& dt.fdt@ == fdt@
                    &&& dt.structs@ == fdt@.subrange(
                        be_u32_at(fdt@, 8),
                        be_u32_at(fdt@, 8) + be_u32_at(fdt@, 36),
                    )
                    &&& dt.strings@ == fdt@.subrange(
                        be_u32_at(fdt@, 12),
                        be_u32_at(fdt@, 12) + be_u32_at(fdt@, 32),
                    )
                },
                Err(Error::InvalidMagic) => be_u32_at(fdt@, 0) != 0xD00DFEED,
                Err(Error::UnsupportedVersion(v)) => {
                    &&& be_u32_at(fdt@, 0) == 0xD00DFEED
                    &&& be_u32_at(fdt@, 24) != 16
                    &&& v as int == be_u32_at(fdt@, 24)
                },
            },
    {
        proof {
            assert(fdt.len() == fdt@.len());
        }
        let struct_offs = read_fdt_u32(fdt, 8) as usize;
        let strings_offs = read_fdt_u32(fdt, 12) as usize;
        let struct_size = read_fdt_u32(fdt, 36) as usize;
        let string_size = read_fdt_u32(fdt, 32) as usize;

        let dt = DeviceTree {
            fdt,
            structs: slice_subrange(fdt, struct_offs, struct_offs + struct_size),
            strings: slice_subrange(fdt, strings_offs, strings_offs + string_size),
        };

        if dt.magic() != 0xD00DFEED_u32 {
            return Err(Error::InvalidMagic);
        }
        if dt.last_comp_version() != 16 {
            return Err(Error::UnsupportedVersion(dt.last_comp_version()));
        }
        Ok(dt)
    }

    /// Returns the root node: the first token the hierarchy-scoped decoder
    /// yields over the whole tree. A blob without a root node is not a
    /// valid tree; this operation is only for blobs that have one.
    pub fn root(&self) -> (r: Token<'a>)
        requires
            self.tree_ok(),
            self.spec_has_root(),
        ensures
            r.model() == self.spec_tokens()[0],
            r is BeginNode,
            r.inv(),
            r.dt_spec() == Some(*self),
    {
        proof {
            let toks = self.spec_tokens();
            assert(scope_filter(toks, 0) == seq![toks[0]] + scope_filter(toks.skip(1), 1));
        }
        let mut it = HierarchyTokenIterator::new(self);
        it.next().unwrap()
    }

    /// Returns an iterator over all tokens in the tree, in flat document
    /// order.
    pub fn tokens(&self) -> (r: TokenIterator<'a>)
        ensures
            r.tree_of() == Some(*self),
            self.tree_ok() ==> r.wf(),
            r.remaining() == self.spec_tokens(),
    {
        TokenIterator::new(self)
    }

    /// Resolve a phandle by a whole-tree linear scan: track the most
    /// recently seen begin-node, and answer with it at the first property
    /// whose leading cell equals `phandle`. Zero is reserved and never
    /// resolves.
    pub fn get_phandle(&self, phandle: u32) -> (r: Option<Token<'a>>)
        requires
            self.tree_ok(),
        ensures
            ({
                let found = if phandle == 0 {
                    None
                } else {
                    phandle_search(self.spec_tokens(), SpecToken::Invalid(0), phandle as int)
                };
                match found {
                    Some(t) => r matches Some(tok) && tok.model() == t && tok.inv() && (tok.dt_spec()
                        is Some ==> tok.dt_spec() == Some(*self)),
                    None => r is None,
                }
            }),
    {
        if phandle == 0 {
            return None;
        }
        let mut last_node = Token::Invalid(0);
        let mut it = self.tokens();
        loop
            invariant
                it.wf(),
                it.tree_of() == Some(*self),
                phandle != 0,
                last_node.inv(),
                (last_node.dt_spec() is Some ==> last_node.dt_spec() == Some(*self)),
                phandle_search(it.remaining(), last_node.model(), phandle as int)
                    == phandle_search(self.spec_tokens(), SpecToken::Invalid(0), phandle as int),
            decreases it.remaining().len(),
        {
            match it.next() {
                Some(token) => {
                    match token {
                        Token::BeginNode(_, _, _) => {
                            last_node = token;
                        },
                        Token::Property(_, _, _) => {
                            match token.prop_u32(0) {
                                Some(x) => if x == phandle {
                                    return Some(last_node);
                                },
                                None => {},
                            }
                        },
                        _ => {},
                    }
                },
                None => {
                    return None;
                },
            }
        }
    }

    /// This field shall contain the fixed big-endian magic value.
    pub fn magic(&self) -> (r: u32)
        requires
            self.fdt@.len() >= 4,
        ensures
            r as int == be_u32_at(self.fdt@, 0),
    {
        read_fdt_u32(self.fdt, 0)
    }

    /// The total size in bytes of the devicetree data structure, all blocks
    /// and gaps included.
    pub fn totalsize(&self) -> (r: usize)
        requires
            self.fdt@.len() >= 8,
        ensures
            r as int == be_u32_at(self.fdt@, 4),
    {
        read_fdt_u32(self.fdt, 4) as usize
    }

    /// The version of the devicetree data structure.
    pub fn version(&self) -> (r: u32)
        requires
            self.fdt@.len() >= 24,
        ensures
            r as int == be_u32_at(self.fdt@, 20),
    {
        read_fdt_u32(self.fdt, 20)
    }

    /// The lowest version of the devicetree data structure with which the
    /// version used is backwards compatible.
    pub fn last_comp_version(&self) -> (r: u32)
        requires
            self.fdt@.len() >= 28,
        ensures
            r as int == be_u32_at(self.fdt@, 24),
    {
        read_fdt_u32(self.fdt, 24)
    }

    /// The physical ID of the system's boot CPU.
    pub fn boot_cpuid_phys(&self) -> (r: u32)
        requires
            self.fdt@.len() >= 32,
        ensures
            r as int == be_u32_at(self.fdt@, 28),
    {
        read_fdt_u32(self.fdt, 28)
    }
}

} // verus!
