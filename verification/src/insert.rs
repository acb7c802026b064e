//! Pattern insertion: the scanner grammar, the insertion relation, and the
//! tree-building code.
//!
//! A pattern (with leading slashes stripped) is scanned left to right. A `:`
//! opens a parameter whose name is the following run of name bytes; the byte
//! after the name is matched literally. A `*` opens a catch-all that takes
//! the entire rest of the pattern as its name. Everything else is literal
//! text, merged into `Static` children by edge splitting, which keeps the
//! tree maximally compressed.

use vstd::prelude::*;

use crate::node::{child_ok, inv, kind_label, lcp_len, position_of, Node, NodeKind};
use crate::node::{has_colon_or_star, lemma_lcp_len, lemma_position_of, loc, position};
use vstd::slice::{slice_subrange, slice_to_vec};

verus! {

broadcast use vstd::std_specs::vec::group_vec_axioms;

/// Whether `b` may stand in a parameter name: ASCII letters, digits and `_`.
/// Any other byte ends the name and is matched literally.
pub open spec fn is_name_byte(b: u8) -> bool {
    (97u8 <= b <= 122u8) || (65u8 <= b <= 90u8) || (48u8 <= b <= 57u8) || b == 95u8
}

/// Length of the run of name bytes starting at `i`.
pub open spec fn name_len(p: Seq<u8>, i: int) -> nat
    decreases p.len() - i,
{
    if 0 <= i < p.len() && is_name_byte(p[i]) {
        1 + name_len(p, i + 1)
    } else {
        0
    }
}

/// Distance from `i` to the first `:` or `*` at or after it, or to the end.
pub open spec fn marker_dist(p: Seq<u8>, i: int) -> nat
    decreases p.len() - i,
{
    if 0 <= i < p.len() && p[i] != 58u8 && p[i] != 42u8 {
        1 + marker_dist(p, i + 1)
    } else {
        0
    }
}

/// What `marker_dist` measures: every byte of the run is literal, and the
/// run ends at a marker or at the end of `p`.
pub proof fn lemma_marker_dist(p: Seq<u8>, i: int)
    requires
        0 <= i <= p.len(),
    ensures
        i + marker_dist(p, i) <= p.len(),
        forall|k: int| i <= k < i + marker_dist(p, i) ==> p[k] != 58u8 && p[k] != 42u8,
        i + marker_dist(p, i) < p.len() ==> p[i + marker_dist(p, i)] == 58u8 || p[i
            + marker_dist(p, i)] == 42u8,
    decreases p.len() - i,
{
    if i < p.len() && p[i] != 58u8 && p[i] != 42u8 {
        lemma_marker_dist(p, i + 1);
    }
}

/// What `name_len` measures: every byte of the run is a name byte, and the
/// run ends at a non-name byte or at the end of `p`.
pub proof fn lemma_name_len(p: Seq<u8>, i: int)
    requires
        0 <= i <= p.len(),
    ensures
        i + name_len(p, i) <= p.len(),
        forall|k: int| i <= k < i + name_len(p, i) ==> is_name_byte(p[k]),
        i + name_len(p, i) < p.len() ==> !is_name_byte(p[i + name_len(p, i)]),
    decreases p.len() - i,
{
    if i < p.len() && is_name_byte(p[i]) {
        lemma_name_len(p, i + 1);
    }
}

/// Number of `/` bytes with which `p` goes on at `i`.
pub open spec fn slashes_from(p: Seq<u8>, i: int) -> nat
    decreases p.len() - i,
{
    if 0 <= i < p.len() && p[i] == 47u8 {
        1 + slashes_from(p, i + 1)
    } else {
        0
    }
}

/// Number of leading `/` bytes of `p`.
pub open spec fn leading_slashes(p: Seq<u8>) -> nat {
    slashes_from(p, 0)
}

/// The supported pattern grammar, checked from position `i` on: after each
/// parameter marker `:` and its name, the next byte must not be another `:`.
/// Two parameter markers with no literal boundary between them (as in
/// `:a:b`) make the capture ambiguous and are rejected. Everything after a
/// `*` is the catch-all's name, so nothing is checked there.
pub open spec fn pattern_ok_from(p: Seq<u8>, i: int) -> bool
    decreases (if i <= p.len() { p.len() - i } else { 0int }),
{
    let m = i + marker_dist(p, i);
    if !(0 <= i) || m >= p.len() {
        true
    } else if p[m] == 42u8 {
        true
    } else {
        let j = m + 1 + name_len(p, m + 1);
        if j < p.len() && p[j] == 58u8 {
            false
        } else {
            pattern_ok_from(p, j)
        }
    }
}

/// The supported pattern grammar, for a pattern with its leading slashes
/// already stripped.
pub open spec fn pattern_ok(p: Seq<u8>) -> bool {
    pattern_ok_from(p, 0)
}

/// `len - i`, floored at zero: how much of the pattern is left.
pub open spec fn rest_len(len: nat, i: int) -> int {
    if i <= len {
        len - i
    } else {
        0int
    }
}

/// The subtree built from nothing for the pattern rest `pat[i..]`: a chain
/// with one node per token, whose last node stores the payload and the
/// accumulated parameter names. The cursor node `c` itself was created by
/// the caller (who fixes its kind); this describes how it is filled.
pub open spec fn built_rel<T>(
    c: Node<T>,
    pat: Seq<u8>,
    i: int,
    names: Seq<Seq<u8>>,
    data: T,
) -> bool
    decreases rest_len(pat.len(), i),
{
    if !(0 <= i) {
        true
    } else if i >= pat.len() {
        &&& c.data == Some(data)
        &&& c.params.deep_view() == names
        &&& c.nodes@.len() == 0
        &&& c.indices@.len() == 0
    } else if pat[i] == 58u8 {
        let j = i + 1 + name_len(pat, i + 1);
        let name = pat.subrange(i + 1, j);
        &&& c.data is None
        &&& c.params@.len() == 0
        &&& c.indices@ == seq![58u8]
        &&& c.nodes@.len() == 1
        &&& c.nodes@[0].kind is Parameter
        &&& built_rel(c.nodes@[0], pat, j, names.push(name), data)
    } else if pat[i] == 42u8 {
        let name = pat.subrange(i + 1, pat.len() as int);
        &&& c.data is None
        &&& c.params@.len() == 0
        &&& c.indices@ == seq![42u8]
        &&& c.nodes@.len() == 1
        &&& c.nodes@[0].kind is CatchAll
        &&& built_rel(c.nodes@[0], pat, pat.len() as int, names.push(name), data)
    } else {
        let m = i + marker_dist(pat, i);
        &&& c.data is None
        &&& c.params@.len() == 0
        &&& c.indices@ == seq![pat[i]]
        &&& c.nodes@.len() == 1
        &&& c.nodes@[0].kind is Static
        &&& kind_label(c.nodes@[0].kind) == pat.subrange(i, m)
        &&& built_rel(c.nodes@[0], pat, m, names, data)
    }
}

/// `n` is `o` with everything unchanged but the child at `ci`.
pub open spec fn unchanged_except<T>(o: Node<T>, n: Node<T>, ci: int) -> bool {
    &&& n.kind == o.kind
    &&& n.data == o.data
    &&& n.params == o.params
    &&& n.indices == o.indices
    &&& n.nodes@.len() == o.nodes@.len()
    &&& forall|k: int| 0 <= k < o.nodes@.len() && k != ci ==> n.nodes@[k] == o.nodes@[k]
}

/// `n` is `o` with one child appended under the dispatch key `key`.
pub open spec fn appended_child<T>(o: Node<T>, n: Node<T>, key: u8) -> bool {
    &&& n.kind == o.kind
    &&& n.data == o.data
    &&& n.params == o.params
    &&& n.indices@ == o.indices@.push(key)
    &&& n.nodes@.len() == o.nodes@.len() + 1
    &&& forall|k: int| 0 <= k < o.nodes@.len() ==> n.nodes@[k] == o.nodes@[k]
}

/// `inter` is the intermediate node that splitting `oc`'s edge at `l`
/// produces: it carries the first `l` label bytes, and its sole child is
/// `oc` relabelled to the remaining bytes, with payload, names and children
/// carried over unchanged — every route below `oc` stays reachable.
pub open spec fn split_of<T>(oc: Node<T>, inter: Node<T>, l: int) -> bool {
    let s = kind_label(oc.kind);
    &&& inter.kind is Static
    &&& kind_label(inter.kind) == s.take(l)
    &&& inter.data is None
    &&& inter.params@.len() == 0
    &&& inter.indices@ == seq![s[l]]
    &&& inter.nodes@.len() == 1
    &&& inter.nodes@[0].kind is Static
    &&& kind_label(inter.nodes@[0].kind) == s.skip(l)
    &&& inter.nodes@[0].data == oc.data
    &&& inter.nodes@[0].params == oc.params
    &&& inter.nodes@[0].indices == oc.indices
    &&& inter.nodes@[0].nodes == oc.nodes
}

/// How inserting the pattern rest `pat[i..]` turns the subtree `o` into `n`,
/// with `names` the parameter names collected so far and `data` the payload
/// to store at the pattern's end.
///
/// At the end of the pattern the cursor node takes the payload and the
/// names (re-insertion of an identical pattern overwrites both). A `:` or
/// `*` token descends into the node's one dynamic child of that marker,
/// creating it when absent. Literal text descends into the `Static` child
/// keyed by its first byte, splitting that child's edge when the text and
/// the label diverge.
pub open spec fn insert_rel<T>(
    o: Node<T>,
    n: Node<T>,
    pat: Seq<u8>,
    i: int,
    names: Seq<Seq<u8>>,
    data: T,
) -> bool
    decreases rest_len(pat.len(), i), 1int,
{
    if !(0 <= i) {
        true
    } else if i >= pat.len() {
        &&& n.kind == o.kind
        &&& n.nodes == o.nodes
        &&& n.indices == o.indices
        &&& n.data == Some(data)
        &&& n.params.deep_view() == names
    } else if pat[i] == 58u8 {
        let j = i + 1 + name_len(pat, i + 1);
        let name = pat.subrange(i + 1, j);
        dyn_child_rel(o, n, 58u8, pat, j, names.push(name), data)
    } else if pat[i] == 42u8 {
        let name = pat.subrange(i + 1, pat.len() as int);
        dyn_child_rel(o, n, 42u8, pat, pat.len() as int, names.push(name), data)
    } else {
        let m = i + marker_dist(pat, i);
        match position_of(o.indices@, pat[i]) {
            None => {
                &&& appended_child(o, n, pat[i])
                &&& n.nodes@[n.nodes@.len() - 1].kind is Static
                &&& kind_label(n.nodes@[n.nodes@.len() - 1].kind) == pat.subrange(i, m)
                &&& built_rel(n.nodes@[n.nodes@.len() - 1], pat, m, names, data)
            },
            Some(ci) => {
                &&& 0 <= ci < o.nodes@.len()
                &&& unchanged_except(o, n, ci)
                &&& n.nodes@.len() == o.nodes@.len()
                &&& split_descend_rel(o.nodes@[ci], n.nodes@[ci], pat, i, m, names, data)
            },
        }
    }
}

/// Descend into the dynamic child of `o` under `key`, creating it when
/// absent, and go on inserting at `j`.
pub open spec fn dyn_child_rel<T>(
    o: Node<T>,
    n: Node<T>,
    key: u8,
    pat: Seq<u8>,
    j: int,
    names: Seq<Seq<u8>>,
    data: T,
) -> bool
    decreases rest_len(pat.len(), j), 2int,
{
    match position_of(o.indices@, key) {
        Some(ci) => {
            &&& 0 <= ci < o.nodes@.len()
            &&& unchanged_except(o, n, ci)
            &&& insert_rel(o.nodes@[ci], n.nodes@[ci], pat, j, names, data)
        },
        None => {
            &&& appended_child(o, n, key)
            &&& (key == 58u8 ==> n.nodes@[n.nodes@.len() - 1].kind is Parameter)
            &&& (key == 42u8 ==> n.nodes@[n.nodes@.len() - 1].kind is CatchAll)
            &&& built_rel(n.nodes@[n.nodes@.len() - 1], pat, j, names, data)
        },
    }
}

/// Merge the literal run `pat[i..m]` into the existing `Static` child `oc`
/// (which shares its first byte): split `oc`'s edge where the run and the
/// label diverge, then go on inserting past the shared prefix.
pub open spec fn split_descend_rel<T>(
    oc: Node<T>,
    nc: Node<T>,
    pat: Seq<u8>,
    i: int,
    m: int,
    names: Seq<Seq<u8>>,
    data: T,
) -> bool
    decreases rest_len(pat.len(), i), 0int,
{
    let s = kind_label(oc.kind);
    let run = pat.subrange(i, m);
    let l = lcp_len(s, run) as int;
    &&& oc.kind is Static
    &&& l >= 1
    &&& 0 <= i < pat.len()
    &&& (if l < s.len() {
        exists|inter: Node<T>|
            #[trigger] split_of(oc, inter, l) && insert_rel(inter, nc, pat, i + l, names, data)
    } else {
        insert_rel(oc, nc, pat, i + l, names, data)
    })
}

/// Inserting below a node never changes that node's kind, so a `Static`
/// label, once fixed, is only ever shortened by an explicit split above it.
pub proof fn lemma_insert_rel_kind<T>(
    o: Node<T>,
    n: Node<T>,
    pat: Seq<u8>,
    i: int,
    names: Seq<Seq<u8>>,
    data: T,
)
    requires
        0 <= i,
        insert_rel(o, n, pat, i, names, data),
    ensures
        n.kind == o.kind,
{
}

/// Whether `b` may stand in a parameter name.
pub fn name_byte(b: u8) -> (r: bool)
    ensures
        r == is_name_byte(b),
{
    (97u8 <= b && b <= 122u8) || (65u8 <= b && b <= 90u8) || (48u8 <= b && b <= 57u8) || b == 95u8
}

/// End of the run of name bytes starting at `i`.
pub fn name_end(p: &[u8], i: usize) -> (j: usize)
    requires
        i <= p@.len(),
    ensures
        i <= j <= p@.len(),
        j == i + name_len(p@, i as int),
{
    let mut k: usize = i;
    while k < p.len() && name_byte(p[k])
        invariant
            i <= k <= p@.len(),
            i + name_len(p@, i as int) == k + name_len(p@, k as int),
        decreases p@.len() - k,
    {
        k = k + 1;
    }
    k
}

/// Position of the first `:` or `*` at or after `i`, or the end.
pub fn marker_end(p: &[u8], i: usize) -> (m: usize)
    requires
        i <= p@.len(),
    ensures
        i <= m <= p@.len(),
        m == i + marker_dist(p@, i as int),
{
    let mut k: usize = i;
    while k < p.len() && !has_colon_or_star(&p[k])
        invariant
            i <= k <= p@.len(),
            i + marker_dist(p@, i as int) == k + marker_dist(p@, k as int),
        decreases p@.len() - k,
    {
        k = k + 1;
    }
    k
}

/// Check the pattern grammar from `start` on.
pub fn check_pattern(p: &[u8], start: usize) -> (ok: bool)
    requires
        start <= p@.len(),
    ensures
        ok == pattern_ok_from(p@, start as int),
{
    let mut cur: usize = start;
    loop
        invariant
            cur <= p@.len(),
            pattern_ok_from(p@, start as int) == pattern_ok_from(p@, cur as int),
        decreases p@.len() - cur,
    {
        let m = marker_end(p, cur);
        if m == p.len() {
            return true;
        }
        if p[m] == 42u8 {
            return true;
        }
        let j = name_end(p, m + 1);
        if j < p.len() && p[j] == 58u8 {
            return false;
        }
        proof {
            assert(j > cur);
        }
        cur = j;
    }
}

/// Build the chain of fresh nodes for the pattern rest `pat[i..]` under a
/// node of the given kind, storing `data` and the final name list at its
/// end.
fn build_rest<T>(kind: NodeKind, pat: &[u8], i: usize, names: Vec<Vec<u8>>, data: T) -> (c: Node<
    T,
>)
    requires
        i <= pat@.len(),
        kind is CatchAll ==> i == pat@.len(),
    ensures
        c.kind == kind,
        built_rel(c, pat@, i as int, names.deep_view(), data),
        inv(c),
    decreases pat@.len() - i,
{
    let mut c = Node::new(kind);
    if i == pat.len() {
        c.data = Some(data);
        c.params = names;
    } else if pat[i] == 58u8 {
        let j = name_end(pat, i + 1);
        let name = slice_to_vec(slice_subrange(pat, i + 1, j));
        let mut names2 = names;
        names2.push(name);
        proof {
            assert(names2.deep_view() =~~= names.deep_view().push(
                pat@.subrange(i + 1, j as int),
            ));
        }
        let ch = build_rest(NodeKind::Parameter, pat, j, names2, data);
        c.indices.push(58u8);
        c.nodes.push(ch);
        proof {
            assert(c.indices@ =~= seq![58u8]);
        }
    } else if pat[i] == 42u8 {
        let name = slice_to_vec(slice_subrange(pat, i + 1, pat.len()));
        let mut names2 = names;
        names2.push(name);
        proof {
            assert(names2.deep_view() =~~= names.deep_view().push(
                pat@.subrange(i + 1, pat@.len() as int),
            ));
        }
        let ch = build_rest(NodeKind::CatchAll, pat, pat.len(), names2, data);
        c.indices.push(42u8);
        c.nodes.push(ch);
        proof {
            assert(c.indices@ =~= seq![42u8]);
        }
    } else {
        let m = marker_end(pat, i);
        proof {
            lemma_marker_dist(pat@, i as int);
            assert(m > i);
        }
        let label = slice_to_vec(slice_subrange(pat, i, m));
        let ch = build_rest(NodeKind::Static(label), pat, m, names, data);
        c.indices.push(pat[i]);
        c.nodes.push(ch);
        proof {
            assert(c.indices@ =~= seq![pat@[i as int]]);
            assert(kind_label(ch.kind) == label@);
            assert(child_ok(pat@[i as int], ch));
        }
    }
    c
}

impl<T> Node<T> {
    /// Descend into the dynamic child under `key` (`:` or `*`), creating it
    /// when absent, and insert the pattern rest `pat[j..]` below it.
    fn insert_dyn(&mut self, key: u8, pat: &[u8], j: usize, names: Vec<Vec<u8>>, data: T)
        requires
            inv(*old(self)),
            !(old(self).kind is CatchAll),
            j <= pat@.len(),
            key == 58u8 || key == 42u8,
            key == 42u8 ==> j == pat@.len(),
        ensures
            inv(*final(self)),
            dyn_child_rel(*old(self), *final(self), key, pat@, j as int, names.deep_view(), data),
        decreases pat@.len() - j, 2int,
    {
        proof {
            lemma_position_of(self.indices@, key);
        }
        match position(self.indices.as_slice(), key) {
            Some(ci) => {
                proof {
                    assert(inv(old(self).nodes@[ci as int]));
                    assert(child_ok(old(self).indices@[ci as int], old(self).nodes@[ci as int]));
                }
                let mut ch = self.nodes.remove(ci);
                let ghost ch0 = ch;
                ch.insert(pat, j, names, data);
                proof {
                    lemma_insert_rel_kind(ch0, ch, pat@, j as int, names.deep_view(), data);
                }
                self.nodes.insert(ci, ch);
                proof {
                    assert forall|k: int|
                        0 <= k < old(self).nodes@.len() && k != ci implies self.nodes@[k] == old(
                        self,
                    ).nodes@[k] by {}
                    assert(self.nodes@[ci as int] == ch);
                    assert(unchanged_except(*old(self), *self, ci as int));
                    assert(key == 42u8 ==> ch.nodes@.len() == 0);
                    assert(child_ok(key, ch));
                    assert forall|k: int| 0 <= k < self.nodes@.len() implies child_ok(
                        self.indices@[k],
                        #[trigger] self.nodes@[k],
                    ) && inv(self.nodes@[k]) by {
                        if k != ci {
                            assert(child_ok(old(self).indices@[k], old(self).nodes@[k]));
                            assert(inv(old(self).nodes@[k]));
                        }
                    }
                    assert(inv(*self));
                }
            },
            None => {
                let kind = if key == 58u8 {
                    NodeKind::Parameter
                } else {
                    NodeKind::CatchAll
                };
                let ch = build_rest(kind, pat, j, names, data);
                self.indices.push(key);
                self.nodes.push(ch);
                proof {
                    assert(appended_child(*old(self), *self, key));
                    let last = self.nodes@.len() - 1;
                    assert(self.nodes@[last] == ch);
                    assert(child_ok(key, ch));
                    assert forall|k: int| 0 <= k < self.nodes@.len() implies child_ok(
                        self.indices@[k],
                        #[trigger] self.nodes@[k],
                    ) && inv(self.nodes@[k]) by {
                        if k < last {
                            assert(child_ok(old(self).indices@[k], old(self).nodes@[k]));
                            assert(inv(old(self).nodes@[k]));
                            assert(self.indices@[k] == old(self).indices@[k]);
                        }
                    }
                    assert forall|a: int, b: int|
                        0 <= a < b < self.indices@.len() implies self.indices@[a]
                        != self.indices@[b] by {
                        if b == last {
                            assert(old(self).indices@[a] != key);
                        }
                    }
                    assert(inv(*self));
                }
            },
        }
    }

    /// Insert the pattern rest `pat[i..]` into this subtree, storing `data`
    /// and the collected parameter `names` at the pattern's terminal node.
    ///
    /// The relation [`insert_rel`] pins the new subtree down exactly; the
    /// structural invariant is preserved.
    pub fn insert(&mut self, pat: &[u8], i: usize, names: Vec<Vec<u8>>, data: T)
        requires
            inv(*old(self)),
            i <= pat@.len(),
            old(self).kind is CatchAll ==> i == pat@.len(),
        ensures
            inv(*final(self)),
            insert_rel(*old(self), *final(self), pat@, i as int, names.deep_view(), data),
        decreases pat@.len() - i, 1int,
    {
        if i == pat.len() {
            self.data = Some(data);
            self.params = names;
        } else {
            let c = pat[i];
            if c == 58u8 {
                let j = name_end(pat, i + 1);
                let name = slice_to_vec(slice_subrange(pat, i + 1, j));
                let mut names2 = names;
                names2.push(name);
                proof {
                    assert(names2.deep_view() =~~= names.deep_view().push(
                        pat@.subrange(i as int + 1, j as int),
                    ));
                }
                self.insert_dyn(58u8, pat, j, names2, data);
            } else if c == 42u8 {
                let name = slice_to_vec(slice_subrange(pat, i + 1, pat.len()));
                let mut names2 = names;
                names2.push(name);
                proof {
                    assert(names2.deep_view() =~~= names.deep_view().push(
                        pat@.subrange(i as int + 1, pat@.len() as int),
                    ));
                }
                self.insert_dyn(42u8, pat, pat.len(), names2, data);
            } else {
                let m = marker_end(pat, i);
                proof {
                    lemma_marker_dist(pat@, i as int);
                    lemma_position_of(self.indices@, c);
                }
                match position(self.indices.as_slice(), c) {
                    None => {
                        let label = slice_to_vec(slice_subrange(pat, i, m));
                        let ch = build_rest(NodeKind::Static(label), pat, m, names, data);
                        self.indices.push(c);
                        self.nodes.push(ch);
                        proof {
                            assert(appended_child(*old(self), *self, c));
                            let last = self.nodes@.len() - 1;
                            assert(self.nodes@[last] == ch);
                            assert(child_ok(c, ch));
                            assert forall|k: int| 0 <= k < self.nodes@.len() implies child_ok(
                                self.indices@[k],
                                #[trigger] self.nodes@[k],
                            ) && inv(self.nodes@[k]) by {
                                if k < last {
                                    assert(child_ok(old(self).indices@[k], old(self).nodes@[k]));
                                    assert(inv(old(self).nodes@[k]));
                                    assert(self.indices@[k] == old(self).indices@[k]);
                                }
                            }
                            assert forall|a: int, b: int|
                                0 <= a < b < self.indices@.len() implies self.indices@[a]
                                != self.indices@[b] by {
                                if b == last {
                                    assert(old(self).indices@[a] != c);
                                }
                            }
                            assert(inv(*self));
                        }
                    },
                    Some(ci) => {
                        proof {
                            assert(inv(old(self).nodes@[ci as int]));
                            assert(child_ok(old(self).indices@[ci as int],
                                old(self).nodes@[ci as int]));
                        }
                        let mut ch = self.nodes.remove(ci);
                        let ghost ch0 = ch;
                        let s_full: Vec<u8> = match &ch.kind {
                            NodeKind::Static(s) => slice_to_vec(s.as_slice()),
                            NodeKind::Parameter => Vec::new(),
                            NodeKind::CatchAll => Vec::new(),
                        };
                        proof {
                            assert(ch0.kind is Static);
                            assert(s_full@ == kind_label(ch0.kind));
                        }
                        let run = slice_subrange(pat, i, m);
                        let l = loc(s_full.as_slice(), run);
                        proof {
                            lemma_lcp_len(s_full@, run@);
                            assert(s_full@[0] == c && run@[0] == c);
                            assert(l >= 1);
                        }
                        let mut cur: Node<T>;
                        if l < s_full.len() {
                            let prefix = slice_to_vec(slice_subrange(s_full.as_slice(), 0, l));
                            let tail = slice_to_vec(
                                slice_subrange(s_full.as_slice(), l, s_full.len()),
                            );
                            let key2 = tail[0];
                            ch.kind = NodeKind::Static(tail);
                            proof {
                                assert(inv(ch));
                            }
                            cur = Node::new(NodeKind::Static(prefix));
                            cur.indices.push(key2);
                            cur.nodes.push(ch);
                            proof {
                                assert(cur.indices@ =~= seq![kind_label(ch0.kind)[l as int]]);
                                assert(kind_label(cur.kind) =~= kind_label(ch0.kind).take(
                                    l as int,
                                ));
                                assert(kind_label(cur.nodes@[0].kind) =~= kind_label(
                                    ch0.kind,
                                ).skip(l as int));
                                assert(split_of(ch0, cur, l as int));
                                assert(child_ok(key2, cur.nodes@[0]));
                                assert(inv(cur));
                            }
                        } else {
                            cur = ch;
                        }
                        let ghost inter0 = cur;
                        cur.insert(pat, i + l, names, data);
                        proof {
                            lemma_insert_rel_kind(
                                inter0,
                                cur,
                                pat@,
                                i as int + l as int,
                                names.deep_view(),
                                data,
                            );
                        }
                        self.nodes.insert(ci, cur);
                        proof {
                            assert(self.nodes@[ci as int] == cur);
                            assert(unchanged_except(*old(self), *self, ci as int));
                            assert(child_ok(c, cur));
                            if l < s_full@.len() {
                                assert(split_of(ch0, inter0, l as int));
                                assert(split_descend_rel(
                                    ch0,
                                    cur,
                                    pat@,
                                    i as int,
                                    m as int,
                                    names.deep_view(),
                                    data,
                                ));
                            }
                            assert forall|k: int| 0 <= k < self.nodes@.len() implies child_ok(
                                self.indices@[k],
                                #[trigger] self.nodes@[k],
                            ) && inv(self.nodes@[k]) by {
                                if k != ci {
                                    assert(child_ok(old(self).indices@[k], old(self).nodes@[k]));
                                    assert(inv(old(self).nodes@[k]));
                                }
                            }
                            assert(inv(*self));
                        }
                    },
                }
            }
        }
    }
}

} // verus!
