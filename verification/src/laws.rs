//! Laws of the matcher, proved once and for all trees.

use vstd::prelude::*;

use crate::find::{children_m, find_m, slash_limit, splits_m, try_child_m};
use crate::insert::{appended_child, built_rel, insert_rel, is_name_byte, marker_dist, name_len};
use crate::insert::{dyn_child_rel, lemma_marker_dist, lemma_name_len, rest_len, split_descend_rel};
use crate::insert::split_of;
use crate::node::{child_ok, dyn_step, inv, kind_label, lcp_len, lemma_lcp_len, lemma_position_of};
use crate::node::{names_ok, position_of, Node, NodeKind};
use crate::tree::{resolve_m, zip_min};

verus! {

broadcast use vstd::std_specs::vec::group_vec_axioms;

/// Priority order among sibling children: when the rest of the path is
/// non-empty, the `Static` child keyed by its first byte wins if its subtree
/// fully matches; only on that child's end-to-end failure is the `Parameter`
/// child attempted, and only on the failure of both the `CatchAll` child.
pub proof fn lemma_priority_order<T>(n: Node<T>, p: Seq<u8>)
    requires
        p.len() > 0,
    ensures
        try_child_m(n, p[0], p) is Some ==> children_m(n, p) == try_child_m(n, p[0], p),
        try_child_m(n, p[0], p) is None && try_child_m(n, 58u8, p) is Some ==> children_m(n, p)
            == try_child_m(n, 58u8, p),
        try_child_m(n, p[0], p) is None && try_child_m(n, 58u8, p) is None ==> children_m(n, p)
            == try_child_m(n, 42u8, p),
{
}

/// A successful match always ends at a node that carries a payload: the
/// terminal of some registered pattern.
pub proof fn lemma_match_has_payload<T>(n: Node<T>, p: Seq<u8>)
    ensures
        find_m(n, p) matches Some((t, vs)) ==> t.data is Some,
    decreases n, 3int, 0int,
{
    match n.kind {
        NodeKind::Static(s) => {
            let l = lcp_len(s@, p);
            if l >= s@.len() && p.len() != s@.len() {
                lemma_children_has_payload(n, p.skip(s@.len() as int));
            }
        },
        NodeKind::Parameter => {
            lemma_splits_has_payload(n, p, slash_limit(p), 0);
        },
        NodeKind::CatchAll => {},
    }
}

/// As `lemma_match_has_payload`, for one child attempt.
proof fn lemma_try_child_has_payload<T>(n: Node<T>, key: u8, p: Seq<u8>)
    ensures
        try_child_m(n, key, p) matches Some((t, vs)) ==> t.data is Some,
    decreases n, 1int, 0int,
{
    match position_of(n.indices@, key) {
        Some(j) => {
            if 0 <= j < n.nodes@.len() {
                lemma_match_has_payload(n.nodes@[j], p);
            }
        },
        None => {},
    }
}

/// As `lemma_match_has_payload`, for the descent into the children.
proof fn lemma_children_has_payload<T>(n: Node<T>, p: Seq<u8>)
    ensures
        children_m(n, p) matches Some((t, vs)) ==> t.data is Some,
    decreases n, 1int, 1int,
{
    if p.len() > 0 {
        lemma_try_child_has_payload(n, p[0], p);
    }
    lemma_try_child_has_payload(n, 58u8, p);
    lemma_try_child_has_payload(n, 42u8, p);
}

/// As `lemma_match_has_payload`, for the boundary search at a `Parameter`
/// node.
proof fn lemma_splits_has_payload<T>(n: Node<T>, p: Seq<u8>, limit: int, i: int)
    ensures
        splits_m(n, p, limit, i) matches Some((t, vs)) ==> t.data is Some,
    decreases n, 2int, (if i <= limit {
        limit + 1 - i
    } else {
        0int
    }),
{
    if i < limit && 0 <= i < p.len() {
        match position_of(n.indices@, p[i]) {
            Some(j) => {
                if 0 <= j < n.nodes@.len() && n.nodes@[j].kind is Static {
                    lemma_match_has_payload(n.nodes@[j], p.skip(i));
                }
            },
            None => {},
        }
        lemma_splits_has_payload(n, p, limit, i + 1);
    } else {
        if limit < p.len() {
            lemma_children_has_payload(n, p.skip(limit));
        }
    }
}

/// No spurious prefix match: when a path matches, a strict byte-prefix of it
/// can match only by itself ending at a registered pattern's terminal (a
/// payload-carrying node) — never at a bare interior node of the tree.
pub proof fn lemma_no_spurious_prefix_match<T>(root: Node<T>, p: Seq<u8>, q: Seq<u8>)
    requires
        find_m(root, p) is Some,
        q.len() < p.len(),
        q == p.take(q.len() as int),
        find_m(root, q) is Some,
    ensures
        find_m(root, q) matches Some((t, vs)) && t.data is Some,
{
    lemma_match_has_payload(root, q);
}

/// With sound name bookkeeping, every match binds exactly one value per
/// dynamic node it passed: the terminal's name list is `d` names of the
/// ancestors above `n` plus one per captured value.
pub proof fn lemma_find_aligned<T>(n: Node<T>, p: Seq<u8>, d: int)
    requires
        inv(n),
        names_ok(n, d),
    ensures
        find_m(n, p) matches Some((t, vs)) ==> t.params.deep_view().len() == d + vs.len(),
    decreases n, 3int, 0int,
{
    match n.kind {
        NodeKind::Static(s) => {
            let l = lcp_len(s@, p);
            if l >= s@.len() {
                if p.len() == s@.len() {
                    if n.data is None && s@.len() > 0 && s@[s@.len() - 1] == 47u8 {
                        lemma_position_of(n.indices@, 42u8);
                        if let Some(j) = position_of(n.indices@, 42u8) {
                            assert(child_ok(n.indices@[j], n.nodes@[j]));
                            assert(names_ok(n.nodes@[j], d + dyn_step(n)));
                        }
                    }
                } else {
                    lemma_children_aligned(n, p.skip(s@.len() as int), d);
                }
            }
        },
        NodeKind::Parameter => {
            lemma_splits_aligned(n, p, slash_limit(p), 0, d);
        },
        NodeKind::CatchAll => {},
    }
}

/// As `lemma_find_aligned`, for one child attempt.
proof fn lemma_try_child_aligned<T>(n: Node<T>, key: u8, p: Seq<u8>, d: int)
    requires
        inv(n),
        names_ok(n, d),
    ensures
        try_child_m(n, key, p) matches Some((t, vs)) ==> t.params.deep_view().len() == d
            + dyn_step(n) + vs.len(),
    decreases n, 1int, 0int,
{
    match position_of(n.indices@, key) {
        Some(j) => {
            if 0 <= j < n.nodes@.len() {
                assert(inv(n.nodes@[j]));
                assert(names_ok(n.nodes@[j], d + dyn_step(n)));
                lemma_find_aligned(n.nodes@[j], p, d + dyn_step(n));
            }
        },
        None => {},
    }
}

/// As `lemma_find_aligned`, for the descent into the children.
proof fn lemma_children_aligned<T>(n: Node<T>, p: Seq<u8>, d: int)
    requires
        inv(n),
        names_ok(n, d),
    ensures
        children_m(n, p) matches Some((t, vs)) ==> t.params.deep_view().len() == d + dyn_step(n)
            + vs.len(),
    decreases n, 1int, 1int,
{
    if p.len() > 0 {
        lemma_try_child_aligned(n, p[0], p, d);
    }
    lemma_try_child_aligned(n, 58u8, p, d);
    lemma_try_child_aligned(n, 42u8, p, d);
}

/// As `lemma_find_aligned`, for the boundary search at a `Parameter` node.
proof fn lemma_splits_aligned<T>(n: Node<T>, p: Seq<u8>, limit: int, i: int, d: int)
    requires
        inv(n),
        names_ok(n, d),
        dyn_step(n) == 1,
    ensures
        splits_m(n, p, limit, i) matches Some((t, vs)) ==> t.params.deep_view().len() == d
            + vs.len(),
    decreases n, 2int, (if i <= limit {
        limit + 1 - i
    } else {
        0int
    }),
{
    if i < limit && 0 <= i < p.len() {
        match position_of(n.indices@, p[i]) {
            Some(j) => {
                if 0 <= j < n.nodes@.len() && n.nodes@[j].kind is Static {
                    assert(inv(n.nodes@[j]));
                    assert(names_ok(n.nodes@[j], d + dyn_step(n)));
                    lemma_find_aligned(n.nodes@[j], p.skip(i), d + 1);
                }
            },
            None => {},
        }
        lemma_splits_aligned(n, p, limit, i + 1, d);
    } else {
        if limit < p.len() {
            lemma_children_aligned(n, p.skip(limit), d);
        }
    }
}

/// Bindings are complete: against a tree with sound bookkeeping, a match
/// returns exactly one captured value per parameter name of the matched
/// pattern, so resolving pairs every name with its value and drops nothing.
pub proof fn lemma_bindings_complete<T>(root: Node<T>, p: Seq<u8>)
    requires
        inv(root),
        names_ok(root, 0),
    ensures
        find_m(root, p) matches Some((t, vs)) ==> t.params.deep_view().len() == vs.len(),
        resolve_m(root, p) matches Some((data, pairs)) ==> (find_m(root, p) matches Some(
            (t, vs),
        ) && pairs.len() == vs.len() && pairs.len() == t.params.deep_view().len()),
{
    lemma_find_aligned(root, p, 0);
}

/// A freshly built chain has sound bookkeeping, provided the names handed to
/// it account for the cursor node's own binding.
proof fn lemma_built_names_ok<T>(
    c: Node<T>,
    pat: Seq<u8>,
    i: int,
    names: Seq<Seq<u8>>,
    data: T,
    d: int,
)
    requires
        0 <= i,
        built_rel(c, pat, i, names, data),
        names.len() == d + dyn_step(c),
    ensures
        names_ok(c, d),
    decreases rest_len(pat.len(), i),
{
    if i >= pat.len() {
    } else if pat[i] == 58u8 {
        let j = i + 1 + name_len(pat, i + 1);
        lemma_built_names_ok(
            c.nodes@[0],
            pat,
            j,
            names.push(pat.subrange(i + 1, j)),
            data,
            d + dyn_step(c),
        );
    } else if pat[i] == 42u8 {
        lemma_built_names_ok(
            c.nodes@[0],
            pat,
            pat.len() as int,
            names.push(pat.subrange(i + 1, pat.len() as int)),
            data,
            d + dyn_step(c),
        );
    } else {
        let m = i + marker_dist(pat, i);
        lemma_built_names_ok(c.nodes@[0], pat, m, names, data, d + dyn_step(c));
    }
}

/// Insertion preserves the name bookkeeping: the names collected on the way
/// down always count one entry per dynamic node at or above the cursor.
pub proof fn lemma_insert_names_ok<T>(
    o: Node<T>,
    n: Node<T>,
    pat: Seq<u8>,
    i: int,
    names: Seq<Seq<u8>>,
    data: T,
    d: int,
)
    requires
        0 <= i,
        insert_rel(o, n, pat, i, names, data),
        inv(o),
        names_ok(o, d),
        names.len() == d + dyn_step(o),
    ensures
        names_ok(n, d),
    decreases rest_len(pat.len(), i), 1int,
{
    if i >= pat.len() {
        assert forall|q: int| 0 <= q < n.nodes@.len() implies names_ok(
            #[trigger] n.nodes@[q],
            d + dyn_step(n),
        ) by {
            assert(names_ok(o.nodes@[q], d + dyn_step(o)));
        }
    } else if pat[i] == 58u8 {
        let j = i + 1 + name_len(pat, i + 1);
        lemma_dyn_names_ok(o, n, 58u8, pat, j, names.push(pat.subrange(i + 1, j)), data, d);
    } else if pat[i] == 42u8 {
        lemma_dyn_names_ok(
            o,
            n,
            42u8,
            pat,
            pat.len() as int,
            names.push(pat.subrange(i + 1, pat.len() as int)),
            data,
            d,
        );
    } else {
        let m = i + marker_dist(pat, i);
        match position_of(o.indices@, pat[i]) {
            None => {
                let last = n.nodes@.len() - 1;
                lemma_built_names_ok(n.nodes@[last], pat, m, names, data, d + dyn_step(o));
                assert forall|q: int| 0 <= q < n.nodes@.len() implies names_ok(
                    #[trigger] n.nodes@[q],
                    d + dyn_step(n),
                ) by {
                    if q < last {
                        assert(names_ok(o.nodes@[q], d + dyn_step(o)));
                    }
                }
            },
            Some(ci) => {
                lemma_position_of(o.indices@, pat[i]);
                assert(child_ok(o.indices@[ci], o.nodes@[ci]));
                assert(inv(o.nodes@[ci]));
                assert(names_ok(o.nodes@[ci], d + dyn_step(o)));
                lemma_split_names_ok(
                    o.nodes@[ci],
                    n.nodes@[ci],
                    pat,
                    i,
                    m,
                    names,
                    data,
                    d + dyn_step(o),
                );
                assert forall|q: int| 0 <= q < n.nodes@.len() implies names_ok(
                    #[trigger] n.nodes@[q],
                    d + dyn_step(n),
                ) by {
                    if q != ci {
                        assert(n.nodes@[q] == o.nodes@[q]);
                        assert(names_ok(o.nodes@[q], d + dyn_step(o)));
                    }
                }
            },
        }
    }
}

/// As `lemma_insert_names_ok`, for the descent into a dynamic child.
proof fn lemma_dyn_names_ok<T>(
    o: Node<T>,
    n: Node<T>,
    key: u8,
    pat: Seq<u8>,
    j: int,
    names2: Seq<Seq<u8>>,
    data: T,
    d: int,
)
    requires
        0 <= j,
        dyn_child_rel(o, n, key, pat, j, names2, data),
        inv(o),
        names_ok(o, d),
        key == 58u8 || key == 42u8,
        names2.len() == d + dyn_step(o) + 1,
    ensures
        names_ok(n, d),
    decreases rest_len(pat.len(), j), 2int,
{
    match position_of(o.indices@, key) {
        Some(ci) => {
            lemma_position_of(o.indices@, key);
            assert(child_ok(o.indices@[ci], o.nodes@[ci]));
            assert(dyn_step(o.nodes@[ci]) == 1);
            assert(inv(o.nodes@[ci]));
            assert(names_ok(o.nodes@[ci], d + dyn_step(o)));
            lemma_insert_names_ok(
                o.nodes@[ci],
                n.nodes@[ci],
                pat,
                j,
                names2,
                data,
                d + dyn_step(o),
            );
            assert forall|q: int| 0 <= q < n.nodes@.len() implies names_ok(
                #[trigger] n.nodes@[q],
                d + dyn_step(n),
            ) by {
                if q != ci {
                    assert(n.nodes@[q] == o.nodes@[q]);
                    assert(names_ok(o.nodes@[q], d + dyn_step(o)));
                }
            }
        },
        None => {
            let last = n.nodes@.len() - 1;
            lemma_built_names_ok(n.nodes@[last], pat, j, names2, data, d + dyn_step(o));
            assert forall|q: int| 0 <= q < n.nodes@.len() implies names_ok(
                #[trigger] n.nodes@[q],
                d + dyn_step(n),
            ) by {
                if q < last {
                    assert(names_ok(o.nodes@[q], d + dyn_step(o)));
                }
            }
        },
    }
}

/// As `lemma_insert_names_ok`, for the edge split at a `Static` child: the
/// intermediate node is `Static` too, so no binding depth changes.
proof fn lemma_split_names_ok<T>(
    oc: Node<T>,
    nc: Node<T>,
    pat: Seq<u8>,
    i: int,
    m: int,
    names: Seq<Seq<u8>>,
    data: T,
    d: int,
)
    requires
        split_descend_rel(oc, nc, pat, i, m, names, data),
        inv(oc),
        forall|k: int|
            0 <= k < kind_label(oc.kind).len() ==> kind_label(oc.kind)[k] != 58u8 && kind_label(
                oc.kind,
            )[k] != 42u8,
        kind_label(oc.kind).len() > 0,
        names_ok(oc, d),
        names.len() == d,
    ensures
        names_ok(nc, d),
    decreases rest_len(pat.len(), i), 0int,
{
    let s = kind_label(oc.kind);
    let run = pat.subrange(i, m);
    let l = lcp_len(s, run) as int;
    lemma_lcp_len(s, run);
    if l < s.len() {
        let inter = choose|inter: Node<T>|
            #[trigger] split_of(oc, inter, l) && insert_rel(inter, nc, pat, i + l, names, data);
        assert(split_of(oc, inter, l) && insert_rel(inter, nc, pat, i + l, names, data));
        let relabeled = inter.nodes@[0];
        assert(child_ok(s[l], relabeled)) by {
            assert(kind_label(relabeled.kind) == s.skip(l));
            assert(s.skip(l).len() > 0);
            assert(s.skip(l)[0] == s[l]);
            assert(forall|k: int|
                0 <= k < s.skip(l).len() ==> s.skip(l)[k] == s[k + l] && s[k + l] != 58u8 && s[k
                    + l] != 42u8);
        }
        assert(inv(relabeled)) by {
            assert(forall|q: int|
                0 <= q < relabeled.nodes@.len() ==> child_ok(
                    relabeled.indices@[q],
                    #[trigger] relabeled.nodes@[q],
                ));
            assert(forall|q: int|
                0 <= q < relabeled.nodes@.len() ==> inv(#[trigger] relabeled.nodes@[q]));
        }
        assert(inv(inter));
        assert(names_ok(relabeled, d)) by {
            assert(forall|q: int|
                0 <= q < relabeled.nodes@.len() ==> names_ok(
                    #[trigger] relabeled.nodes@[q],
                    d + dyn_step(relabeled),
                ));
        }
        assert(names_ok(inter, d)) by {
            assert(forall|q: int|
                0 <= q < inter.nodes@.len() ==> names_ok(
                    #[trigger] inter.nodes@[q],
                    d + dyn_step(inter),
                ));
        }
        lemma_insert_names_ok(inter, nc, pat, i + l, names, data, d);
    } else {
        lemma_insert_names_ok(oc, nc, pat, i + l, names, data, d);
    }
}

/// A fresh root's bookkeeping is sound.
pub proof fn lemma_fresh_names_ok<T>(root: Node<T>)
    requires
        fresh_root(root),
    ensures
        names_ok(root, 0),
{
}

/// A lookup on an empty path, or on one that does not begin with `/`, never
/// matches: the root's label `/` cannot be accounted for.
pub proof fn lemma_unrooted_path_never_matches<T>(root: Node<T>, p: Seq<u8>)
    requires
        root.kind is Static,
        kind_label(root.kind) == seq![47u8],
        p.len() == 0 || p[0] != 47u8,
    ensures
        find_m(root, p) is None,
{
    assert(lcp_len(kind_label(root.kind), p) == 0);
}

/// A fresh root as `PathTree::new` makes it: labelled `/`, no payload, no
/// children.
pub open spec fn fresh_root<T>(n: Node<T>) -> bool {
    &&& n.kind is Static
    &&& kind_label(n.kind) == seq![47u8]
    &&& n.data is None
    &&& n.nodes@.len() == 0
    &&& n.indices@.len() == 0
}

/// The longest common prefix of a sequence with itself is the whole of it.
proof fn lemma_lcp_self(a: Seq<u8>)
    ensures
        lcp_len(a, a) == a.len(),
{
    lemma_lcp_len(a, a);
    if lcp_len(a, a) < a.len() {
        assert(a[lcp_len(a, a) as int] == a[lcp_len(a, a) as int]);
    }
}

/// At a `Parameter` node without children, the boundary search degenerates:
/// the whole rest is the captured value, and the node's own payload decides.
proof fn lemma_splits_no_children<T>(n: Node<T>, p: Seq<u8>, limit: int, i: int)
    requires
        n.indices@.len() == 0,
        0 <= i,
        limit == p.len(),
    ensures
        splits_m(n, p, limit, i) == (if n.data is Some {
            Some((n, seq![p]))
        } else {
            None::<(Node<T>, Seq<Seq<u8>>)>
        }),
    decreases (if i <= limit {
        limit + 1 - i
    } else {
        0int
    }),
{
    if i < limit && i < p.len() {
        assert(position_of(n.indices@, p[i]) is None);
        lemma_splits_no_children(n, p, limit, i + 1);
    }
}

/// Round trip for a literal pattern: after registering the all-literal
/// pattern rest `pat[t..]` in a fresh tree, resolving the concrete path
/// `/` + `pat[t..]` returns exactly the stored payload, with no bindings.
pub proof fn lemma_round_trip_literal<T>(
    root0: Node<T>,
    root1: Node<T>,
    pat: Seq<u8>,
    t: int,
    data: T,
)
    requires
        fresh_root(root0),
        0 <= t < pat.len(),
        forall|k: int| t <= k < pat.len() ==> pat[k] != 58u8 && pat[k] != 42u8,
        insert_rel(root0, root1, pat, t, Seq::empty(), data),
    ensures
        resolve_m(root1, seq![47u8] + pat.skip(t)) == Some(
            (data, Seq::<(Seq<u8>, Seq<u8>)>::empty()),
        ),
{
    let lit = pat.skip(t);
    lemma_marker_dist(pat, t);
    assert(pat[t] != 58u8 && pat[t] != 42u8);
    assert(t + marker_dist(pat, t) == pat.len()) by {
        if t + marker_dist(pat, t) < pat.len() {
            assert(pat[t + marker_dist(pat, t)] != 58u8);
        }
    }
    assert(position_of(root0.indices@, pat[t]) is None);
    assert(appended_child(root0, root1, pat[t]));
    let child = root1.nodes@[0];
    assert(child.kind is Static);
    assert(kind_label(child.kind) == pat.subrange(t, pat.len() as int));
    assert(built_rel(child, pat, pat.len() as int, Seq::empty(), data));
    assert(child.data == Some(data));
    assert(child.params@.len() == 0);

    let full = seq![47u8] + lit;
    let s = kind_label(root1.kind);
    assert(s == seq![47u8]);
    assert(full[0] == 47u8 && s[0] == 47u8);
    assert(s.skip(1).len() == 0);
    assert(lcp_len(s.skip(1), full.skip(1)) == 0);
    assert(lcp_len(s, full) == 1);
    assert(lit.len() >= 1);
    assert(full.len() > s.len());
    assert(full.skip(1) =~= lit);
    assert(root1.indices@ =~= seq![pat[t]]);
    assert(lit[0] == pat[t]);
    assert(position_of(root1.indices@, lit[0]) == Some(0int));
    assert(kind_label(child.kind) =~= lit);
    lemma_lcp_self(lit);
    assert(find_m(child, lit) == Some((child, Seq::<Seq<u8>>::empty())));
    assert(try_child_m(root1, lit[0], lit) == Some((child, Seq::<Seq<u8>>::empty())));
    assert(children_m(root1, lit) == Some((child, Seq::<Seq<u8>>::empty())));
    assert(find_m(root1, full) == Some((child, Seq::<Seq<u8>>::empty())));
    assert(zip_min(child.params.deep_view(), Seq::empty()) =~= Seq::<(Seq<u8>, Seq<u8>)>::empty());
}

/// Round trip for a one-parameter pattern: after registering `:name` (a rest
/// that is a single parameter token) in a fresh tree, resolving `/` + any
/// non-empty slash-free value returns the stored payload with exactly the
/// binding `(name, value)`.
pub proof fn lemma_round_trip_parameter<T>(
    root0: Node<T>,
    root1: Node<T>,
    pat: Seq<u8>,
    t: int,
    data: T,
    value: Seq<u8>,
)
    requires
        fresh_root(root0),
        0 <= t < pat.len(),
        pat[t] == 58u8,
        forall|k: int| t + 1 <= k < pat.len() ==> is_name_byte(pat[k]),
        value.len() > 0,
        forall|k: int| 0 <= k < value.len() ==> value[k] != 47u8,
        insert_rel(root0, root1, pat, t, Seq::empty(), data),
    ensures
        resolve_m(root1, seq![47u8] + value) == Some(
            (data, seq![(pat.skip(t + 1), value)]),
        ),
{
    let name = pat.subrange(t + 1, pat.len() as int);
    lemma_name_len(pat, t + 1);
    assert(t + 1 + name_len(pat, t + 1) == pat.len()) by {
        if t + 1 + name_len(pat, t + 1) < pat.len() {
            assert(is_name_byte(pat[t + 1 + name_len(pat, t + 1)]));
        }
    }
    assert(position_of(root0.indices@, 58u8) is None);
    assert(appended_child(root0, root1, 58u8));
    let child = root1.nodes@[0];
    assert(child.kind is Parameter);
    assert(built_rel(child, pat, pat.len() as int, Seq::empty().push(name), data));
    assert(child.data == Some(data));
    assert(child.params.deep_view() == Seq::<Seq<u8>>::empty().push(name));
    assert(child.indices@.len() == 0);

    let full = seq![47u8] + value;
    let s = kind_label(root1.kind);
    assert(s == seq![47u8]);
    assert(s.skip(1).len() == 0);
    assert(full[0] == 47u8 && s[0] == 47u8);
    assert(lcp_len(s.skip(1), full.skip(1)) == 0);
    assert(lcp_len(s, full) == 1);
    assert(full.len() > s.len());
    assert(full.skip(1) =~= value);
    assert(root1.indices@ =~= seq![58u8]);

    // The parameter child captures the whole slash-free rest.
    lemma_position_of(value, 47u8);
    assert(position_of(value, 47u8) is None) by {
        if let Some(q) = position_of(value, 47u8) {
            assert(value[q] != 47u8);
        }
    }
    assert(slash_limit(value) == value.len());
    lemma_splits_no_children(child, value, value.len() as int, 0);
    assert(find_m(child, value) == Some((child, seq![value])));

    // Whatever the first byte, the dispatch lands on the parameter child.
    assert(position_of(root1.indices@, 58u8) == Some(0int));
    if value[0] == 58u8 {
        assert(try_child_m(root1, value[0], value) == Some((child, seq![value])));
        assert(children_m(root1, value) == Some((child, seq![value])));
    } else {
        assert(root1.indices@.skip(1).len() == 0);
        assert(position_of(root1.indices@.skip(1), value[0]) is None);
        assert(position_of(root1.indices@, value[0]) is None);
        assert(try_child_m(root1, value[0], value) is None);
        assert(try_child_m(root1, 58u8, value) == Some((child, seq![value])));
        assert(children_m(root1, value) == Some((child, seq![value])));
    }
    assert(find_m(root1, full) == Some((child, seq![value])));
    assert(zip_min(child.params.deep_view(), seq![value]) =~= seq![(name, value)]);
    assert(name =~= pat.skip(t + 1));
}

} // verus!

