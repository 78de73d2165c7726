//! Laws of the resolution engine, stated and proved against the
//! engine's own models.

use vstd::prelude::*;

use crate::error::ErrorV;
use crate::finalize::{
    fin_arr_v, fin_hash_v, fin_node_v, finalize_v,
};
use crate::hocon::HoconV;
use crate::node::{find_key_v, KeyType, NodeV};
use crate::value::{to_path_v, ValueV};

verus! {

/// Whether a finalized value can be laid back out as a tree and
/// walked again: its arrays are short enough to re-index.
pub open spec fn wf_hocon(h: HoconV) -> bool
    decreases h,
{
    match h {
        HoconV::Array(items) => items.len() <= i64::MAX as int && wf_hocons(items),
        HoconV::Hash(entries) => wf_entries(entries),
        _ => true,
    }
}

/// Well-formedness of an array's elements.
pub open spec fn wf_hocons(items: Seq<HoconV>) -> bool
    decreases items,
{
    if items.len() == 0 {
        true
    } else {
        wf_hocons(items.drop_last()) && wf_hocon(items.last())
    }
}

/// Well-formedness of an object's entries.
pub open spec fn wf_entries(entries: Seq<(Seq<char>, HoconV)>) -> bool
    decreases entries,
{
    if entries.len() == 0 {
        true
    } else {
        wf_entries(entries.drop_last()) && wf_hocon(entries.last().1)
    }
}

/// A finalized value laid back out as a tree: scalars become leaves,
/// arrays branches with counted keys, objects branches with string
/// keys.
pub open spec fn embed_hocon(h: HoconV) -> NodeV
    decreases h,
{
    match h {
        HoconV::Real(s) => NodeV::Leaf(ValueV::Real(s)),
        HoconV::Integer(i) => NodeV::Leaf(ValueV::Integer(i)),
        HoconV::Str(s) => NodeV::Leaf(ValueV::Str(s)),
        HoconV::Boolean(b) => NodeV::Leaf(ValueV::Boolean(b)),
        HoconV::Null => NodeV::Leaf(ValueV::Null(seq!['0'])),
        HoconV::BadValue(e) => NodeV::Leaf(ValueV::BadValue(e)),
        HoconV::Array(items) => NodeV::Branch {
            children: embed_array(items),
            key_hint: Some(KeyType::Int),
        },
        HoconV::Hash(entries) => NodeV::Branch {
            children: embed_hash(entries),
            key_hint: Some(KeyType::String),
        },
    }
}

/// An array's elements as children keyed by their index.
pub open spec fn embed_array(items: Seq<HoconV>) -> Seq<(ValueV, NodeV)>
    decreases items,
{
    if items.len() == 0 {
        Seq::empty()
    } else {
        embed_array(items.drop_last()).push(
            (ValueV::Integer((items.len() - 1) as i64), embed_hocon(items.last())),
        )
    }
}

/// An object's entries as children keyed by their key.
pub open spec fn embed_hash(entries: Seq<(Seq<char>, HoconV)>) -> Seq<(ValueV, NodeV)>
    decreases entries,
{
    if entries.len() == 0 {
        Seq::empty()
    } else {
        embed_hash(entries.drop_last()).push(
            (ValueV::Str(entries.last().0), embed_hocon(entries.last().1)),
        )
    }
}

proof fn lemma_embed_array_index(items: Seq<HoconV>)
    ensures
        embed_array(items).len() == items.len(),
        forall|i: int| 0 <= i < items.len() ==> embed_array(items)[i] == (
            ValueV::Integer((i + 1 - 1) as i64),
            embed_hocon(items[i]),
        ),
    decreases items,
{
    if items.len() > 0 {
        lemma_embed_array_index(items.drop_last());
    }
}

proof fn lemma_embed_hash_index(entries: Seq<(Seq<char>, HoconV)>)
    ensures
        embed_hash(entries).len() == entries.len(),
        forall|i: int| 0 <= i < entries.len() ==> embed_hash(entries)[i] == (
            ValueV::Str(entries[i].0),
            embed_hocon(entries[i].1),
        ),
    decreases entries,
{
    if entries.len() > 0 {
        lemma_embed_hash_index(entries.drop_last());
    }
}

/// Finalizing a laid-out finalized value gives the value back,
/// whatever tree it is resolved against: the layout holds no pending
/// markers, so the second pass has nothing to do.
proof fn lemma_fin_embed(
    h: HoconV,
    root: NodeV,
    system: bool,
    env: Seq<(Seq<char>, Seq<char>)>,
    included: Option<Seq<ValueV>>,
    substituting: Option<Seq<ValueV>>,
    fuel: nat,
)
    requires
        wf_hocon(h),
    ensures
        fin_node_v(embed_hocon(h), root, false, system, env, included, substituting, fuel)
            == Ok::<HoconV, ErrorV>(h),
    decreases h,
{
    match h {
        HoconV::Array(items) => {
            lemma_embed_array_index(items);
            if items.len() == 0 {
                assert(items =~= Seq::<HoconV>::empty());
            } else {
                lemma_fin_embed_array(items, root, system, env, included, substituting, fuel);
                assert(embed_array(items)[0].0 == ValueV::Integer(0 as i64));
            }
        },
        HoconV::Hash(entries) => {
            lemma_embed_hash_index(entries);
            if entries.len() == 0 {
                assert(entries =~= Seq::<(Seq<char>, HoconV)>::empty());
            } else {
                lemma_fin_embed_hash(entries, root, system, env, included, substituting, fuel);
            }
        },
        _ => {},
    }
}

proof fn lemma_fin_embed_array(
    items: Seq<HoconV>,
    root: NodeV,
    system: bool,
    env: Seq<(Seq<char>, Seq<char>)>,
    included: Option<Seq<ValueV>>,
    substituting: Option<Seq<ValueV>>,
    fuel: nat,
)
    requires
        wf_hocons(items),
    ensures
        fin_arr_v(embed_array(items), root, false, system, env, included, substituting, fuel)
            == Ok::<Seq<HoconV>, ErrorV>(items),
    decreases items,
{
    if items.len() == 0 {
        assert(fin_arr_v(
            embed_array(items),
            root,
            false,
            system,
            env,
            included,
            substituting,
            fuel,
        ) == Ok::<Seq<HoconV>, ErrorV>(Seq::<HoconV>::empty()));
        assert(Seq::<HoconV>::empty() =~= items);
    } else {
        lemma_fin_embed_array(items.drop_last(), root, system, env, included, substituting, fuel);
        lemma_fin_embed(items.last(), root, system, env, included, substituting, fuel);
        assert(embed_array(items).drop_last() =~= embed_array(items.drop_last()));
        assert(items.drop_last().push(items.last()) =~= items);
    }
}

proof fn lemma_fin_embed_hash(
    entries: Seq<(Seq<char>, HoconV)>,
    root: NodeV,
    system: bool,
    env: Seq<(Seq<char>, Seq<char>)>,
    included: Option<Seq<ValueV>>,
    substituting: Option<Seq<ValueV>>,
    fuel: nat,
)
    requires
        wf_entries(entries),
    ensures
        fin_hash_v(embed_hash(entries), root, false, system, env, included, substituting, fuel)
            == Ok::<Seq<(Seq<char>, HoconV)>, ErrorV>(entries),
    decreases entries,
{
    if entries.len() == 0 {
        assert(fin_hash_v(
            embed_hash(entries),
            root,
            false,
            system,
            env,
            included,
            substituting,
            fuel,
        ) == Ok::<Seq<(Seq<char>, HoconV)>, ErrorV>(Seq::<(Seq<char>, HoconV)>::empty()));
        assert(Seq::<(Seq<char>, HoconV)>::empty() =~= entries);
    } else {
        lemma_fin_embed_hash(
            entries.drop_last(),
            root,
            system,
            env,
            included,
            substituting,
            fuel,
        );
        lemma_fin_embed(entries.last().1, root, system, env, included, substituting, fuel);
        assert(embed_hash(entries).drop_last() =~= embed_hash(entries.drop_last()));
        assert(entries.drop_last().push(entries.last()) =~= entries);
    }
}

/// Re-finalizing an already-finalized tree is a no-op: lay a
/// finalized document value back out as a tree, finalize it again
/// leniently, and the same value comes back, whatever environment is
/// in effect.
pub proof fn lemma_refinalize_no_op(h: HoconV, system: bool, env: Seq<(Seq<char>, Seq<char>)>)
    requires
        wf_hocon(h),
    ensures
        finalize_v(embed_hocon(h), false, system, env) == Ok::<HoconV, ErrorV>(h),
{
    lemma_fin_embed(
        h,
        embed_hocon(h),
        system,
        env,
        None,
        None,
        crate::finalize::fuel_n(embed_hocon(h)),
    );
}

/// A proper key segment: a quoted string or an integer index, the
/// segments dotted-path expansion leaves untouched.
pub open spec fn is_plain_key(v: ValueV) -> bool {
    v matches ValueV::Str(_) || v matches ValueV::Integer(_)
}

/// A path of proper key segments.
pub open spec fn plain_path(p: Seq<ValueV>) -> bool {
    p.len() > 0 && forall|i: int| 0 <= i < p.len() ==> is_plain_key(#[trigger] p[i])
}

/// A plain scalar assignment value: no substitution, concatenation,
/// include or construction marker, so resolving it stores it as it
/// is.
pub open spec fn is_plain_scalar(v: ValueV) -> bool {
    match v {
        ValueV::Integer(_) | ValueV::Boolean(_) | ValueV::Str(_) | ValueV::UnquotedStr(_)
            | ValueV::Real(_) | ValueV::Null(_) => true,
        _ => false,
    }
}

/// Expansion leaves a path of proper key segments as it is.
proof fn lemma_expand_plain(p: Seq<ValueV>)
    requires
        forall|i: int| 0 <= i < p.len() ==> is_plain_key(#[trigger] p[i]),
    ensures
        crate::merge::expand_path_v(p) == p,
    decreases p,
{
    if p.len() > 0 {
        lemma_expand_plain(p.drop_last());
        assert(crate::merge::expand_item_v(p.last()) =~= seq![p.last()]);
        assert(p.drop_last() + seq![p.last()] =~= p);
    }
}

/// Key equality is reflexive on proper key segments.
proof fn lemma_key_eq_refl(v: ValueV)
    requires
        is_plain_key(v),
    ensures
        crate::value::key_eq_v(v, v),
{
}

/// The first child matching `k` sits at `j` when no earlier child
/// matches and the child at `j` does.
proof fn lemma_find_child_at(children: Seq<(ValueV, NodeV)>, k: ValueV, j: int)
    requires
        0 <= j < children.len(),
        forall|x: int| 0 <= x < j ==> !crate::value::key_eq_v(#[trigger] children[x].0, k),
        crate::value::key_eq_v(children[j].0, k),
    ensures
        crate::node::find_child_v(children, k) == Some(children[j].1),
    decreases j,
{
    if j > 0 {
        assert(forall|x: int| 0 <= x < j - 1 ==> children.drop_first()[x] == children[x + 1]);
        lemma_find_child_at(children.drop_first(), k, j - 1);
    }
}

/// Looking up the very path a walk just stored into gives back the
/// stored leaf: the walk always descends into the first child of
/// each key, which is also the child the lookup takes.
proof fn lemma_find_insert(
    t: NodeV,
    p: Seq<ValueV>,
    i: int,
    last: Seq<ValueV>,
    leaf: NodeV,
    strict: bool,
)
    requires
        0 <= i <= p.len(),
        forall|x: int| 0 <= x < p.len() ==> is_plain_key(#[trigger] p[x]),
    ensures
        find_key_v(
            crate::merge::insert_v(t, p, i, last, leaf),
            strict,
            p.skip(i),
        ) == Ok::<NodeV, ErrorV>(leaf),
    decreases p.len() - i,
{
    let t2 = crate::merge::insert_v(t, p, i, last, leaf);
    let rest = p.skip(i);
    if i >= p.len() {
        assert(rest.len() == 0);
    } else {
        lemma_key_eq_refl(p[i]);
        assert(rest[0] == p[i]);
        assert(rest.drop_first() =~= p.skip(i + 1));
        let deeper_temp = crate::merge::insert_v(
            NodeV::Leaf(ValueV::Temp),
            p,
            i + 1,
            last,
            leaf,
        );
        let deeper_null = crate::merge::insert_v(
            NodeV::Leaf(ValueV::Null(seq!['0'])),
            p,
            i + 1,
            last,
            leaf,
        );
        match t {
            NodeV::Leaf(_) => {
                lemma_find_child_at(seq![(p[i], deeper_temp)], p[i], 0);
                lemma_find_insert(NodeV::Leaf(ValueV::Temp), p, i + 1, last, leaf, strict);
            },
            NodeV::Branch { children, .. } => {
                if crate::merge::reset_cond_v(children, p, i, last) {
                    lemma_find_child_at(seq![(p[i], deeper_temp)], p[i], 0);
                    lemma_find_insert(NodeV::Leaf(ValueV::Temp), p, i + 1, last, leaf, strict);
                } else {
                    let j = crate::merge::child_index_v(children, p[i]);
                    crate::merge::lemma_child_index_v(children, p[i]);
                    if j < children.len() {
                        let sub = crate::merge::insert_v(children[j].1, p, i + 1, last, leaf);
                        let updated = children.update(j, (children[j].0, sub));
                        assert(forall|x: int| 0 <= x < j ==> updated[x] == children[x]);
                        lemma_find_child_at(updated, p[i], j);
                        lemma_find_insert(children[j].1, p, i + 1, last, leaf, strict);
                    } else {
                        let ks = crate::merge::kind_switch_v(children, p[i]);
                        let pushed = ks.push((p[i], deeper_null));
                        assert(forall|x: int| 0 <= x < ks.len() ==> ks[x] == children[x]
                            || ks.len() == 0);
                        assert forall|x: int| 0 <= x < ks.len() implies !crate::value::key_eq_v(
                            #[trigger] pushed[x].0,
                            p[i],
                        ) by {
                            assert(ks[x] == children[x]);
                        }
                        lemma_find_child_at(pushed, p[i], ks.len() as int);
                        lemma_find_insert(
                            NodeV::Leaf(ValueV::Null(seq!['0'])),
                            p,
                            i + 1,
                            last,
                            leaf,
                            strict,
                        );
                    }
                }
            },
        }
    }
}

/// Of two assignments to the same path, the later one wins: after
/// any earlier assignments, a document that assigns `v1` and then
/// `v2` to the same proper path resolves that path to `v2`.
pub proof fn lemma_same_path_last_wins(
    prefix: Seq<(Seq<ValueV>, ValueV)>,
    p: Seq<ValueV>,
    v1: ValueV,
    v2: ValueV,
    strict: bool,
)
    requires
        plain_path(p),
        is_plain_scalar(v1),
        is_plain_scalar(v2),
        crate::merge::merge_fold_v(prefix, strict) is Ok,
    ensures
        ({
            let s = prefix + seq![(p, v1), (p, v2)];
            &&& crate::merge::merge_v(s, strict) is Ok
            &&& find_key_v(crate::merge::merge_v(s, strict)->Ok_0, strict, p) == Ok::<
                NodeV,
                ErrorV,
            >(NodeV::Leaf(v2))
        }),
{
    let s = prefix + seq![(p, v1), (p, v2)];
    let st0 = crate::merge::merge_fold_v(prefix, strict)->Ok_0;
    lemma_expand_plain(p);
    assert(s.drop_last().drop_last() =~= prefix);
    assert(s.drop_last() =~= prefix + seq![(p, v1)]);
    assert(s.drop_last().last() == (p, v1));
    assert(s.last() == (p, v2));
    let st1 = crate::merge::merge_step_v(st0, p, v1, strict);
    assert(crate::substitute::subst_v(v1, strict, st0.tree, p) == Ok::<NodeV, ErrorV>(
        NodeV::Leaf(v1),
    ));
    assert(st1 is Ok);
    assert(crate::merge::merge_fold_v(s.drop_last(), strict) == st1);
    let st1v = st1->Ok_0;
    let st2 = crate::merge::merge_step_v(st1v, p, v2, strict);
    assert(crate::substitute::subst_v(v2, strict, st1v.tree, p) == Ok::<NodeV, ErrorV>(
        NodeV::Leaf(v2),
    ));
    assert(st2 is Ok);
    assert(crate::merge::merge_fold_v(s, strict) == st2);
    assert(st2->Ok_0.tree == crate::merge::insert_v(
        st1v.tree,
        p,
        0,
        st1v.last,
        NodeV::Leaf(v2),
    ));
    lemma_find_insert(st1v.tree, p, 0, st1v.last, NodeV::Leaf(v2), strict);
    assert(p.skip(0) =~= p);
}

/// Reordering two assignments to the same path changes which one
/// wins: each order resolves the path to its own later value.
pub proof fn lemma_same_path_order_decides(
    p: Seq<ValueV>,
    v1: ValueV,
    v2: ValueV,
    strict: bool,
)
    requires
        plain_path(p),
        is_plain_scalar(v1),
        is_plain_scalar(v2),
    ensures
        find_key_v(
            crate::merge::merge_v(seq![(p, v1), (p, v2)], strict)->Ok_0,
            strict,
            p,
        ) == Ok::<NodeV, ErrorV>(NodeV::Leaf(v2)),
        find_key_v(
            crate::merge::merge_v(seq![(p, v2), (p, v1)], strict)->Ok_0,
            strict,
            p,
        ) == Ok::<NodeV, ErrorV>(NodeV::Leaf(v1)),
{
    let empty = Seq::<(Seq<ValueV>, ValueV)>::empty();
    lemma_same_path_last_wins(empty, p, v1, v2, strict);
    lemma_same_path_last_wins(empty, p, v2, v1, strict);
    assert(empty + seq![(p, v1), (p, v2)] =~= seq![(p, v1), (p, v2)]);
    assert(empty + seq![(p, v2), (p, v1)] =~= seq![(p, v2), (p, v1)]);
}

/// Reordering assignments to unrelated keys preserves what each key
/// resolves to: under either order of two assignments to distinct
/// top-level keys, each key reads its own value. The trees differ
/// only in entry order, which follows document order.
pub proof fn lemma_reorder_unrelated_keys(
    ka: Seq<char>,
    kb: Seq<char>,
    va: ValueV,
    vb: ValueV,
    strict: bool,
)
    requires
        ka != kb,
        is_plain_scalar(va),
        is_plain_scalar(vb),
    ensures
        ({
            let s1 = seq![(seq![ValueV::Str(ka)], va), (seq![ValueV::Str(kb)], vb)];
            let s2 = seq![(seq![ValueV::Str(kb)], vb), (seq![ValueV::Str(ka)], va)];
            &&& crate::merge::merge_v(s1, strict) is Ok
            &&& crate::merge::merge_v(s2, strict) is Ok
            &&& forall|k: Seq<char>|
                (k == ka || k == kb) ==> #[trigger] find_key_v(
                    crate::merge::merge_v(s1, strict)->Ok_0,
                    strict,
                    seq![ValueV::Str(k)],
                ) == find_key_v(
                    crate::merge::merge_v(s2, strict)->Ok_0,
                    strict,
                    seq![ValueV::Str(k)],
                )
        }),
{
    lemma_two_key_tree(ka, kb, va, vb, strict);
    lemma_two_key_tree(kb, ka, vb, va, strict);
    let s1 = seq![(seq![ValueV::Str(ka)], va), (seq![ValueV::Str(kb)], vb)];
    let s2 = seq![(seq![ValueV::Str(kb)], vb), (seq![ValueV::Str(ka)], va)];
    let t1 = crate::merge::merge_v(s1, strict)->Ok_0;
    let t2 = crate::merge::merge_v(s2, strict)->Ok_0;
    assert forall|k: Seq<char>| k == ka || k == kb implies #[trigger] find_key_v(
        t1,
        strict,
        seq![ValueV::Str(k)],
    ) == find_key_v(t2, strict, seq![ValueV::Str(k)]) by {
        let path = seq![ValueV::Str(k)];
        assert(path.drop_first() =~= Seq::<ValueV>::empty());
        lemma_two_key_lookup(ka, kb, va, vb, t1, k, strict);
        lemma_two_key_lookup(kb, ka, vb, va, t2, k, strict);
    }
}

/// Merging two assignments to distinct top-level keys gives the
/// two-child object, in document order.
proof fn lemma_two_key_tree(ka: Seq<char>, kb: Seq<char>, va: ValueV, vb: ValueV, strict: bool)
    requires
        ka != kb,
        is_plain_scalar(va),
        is_plain_scalar(vb),
    ensures
        ({
            let s = seq![(seq![ValueV::Str(ka)], va), (seq![ValueV::Str(kb)], vb)];
            crate::merge::merge_v(s, strict) == Ok::<NodeV, ErrorV>(
                NodeV::Branch {
                    children: seq![
                        (ValueV::Str(ka), NodeV::Leaf(va)),
                        (ValueV::Str(kb), NodeV::Leaf(vb)),
                    ],
                    key_hint: None,
                },
            )
        }),
{
    reveal_with_fuel(crate::merge::merge_fold_v, 3);
    reveal_with_fuel(crate::merge::child_index_v, 3);
    reveal_with_fuel(crate::merge::insert_v, 3);
    let s = seq![(seq![ValueV::Str(ka)], va), (seq![ValueV::Str(kb)], vb)];
    let pa = seq![ValueV::Str(ka)];
    let pb = seq![ValueV::Str(kb)];
    lemma_expand_plain(pa);
    lemma_expand_plain(pb);
    assert(s.drop_last().drop_last() =~= Seq::<(Seq<ValueV>, ValueV)>::empty());
    assert(s.drop_last() =~= seq![(pa, va)]);
    assert(s.drop_last().last() == (pa, va));
    assert(s.last() == (pb, vb));
    assert(crate::merge::merge_fold_v(Seq::<(Seq<ValueV>, ValueV)>::empty(), strict)
        == Ok::<crate::merge::MergeStateV, ErrorV>(crate::merge::init_state_v()));
    let st0 = crate::merge::init_state_v();
    let st1 = crate::merge::merge_step_v(st0, pa, va, strict);
    assert(crate::substitute::subst_v(va, strict, st0.tree, pa) == Ok::<NodeV, ErrorV>(
        NodeV::Leaf(va),
    ));
    let t1 = NodeV::Branch {
        children: seq![(ValueV::Str(ka), NodeV::Leaf(va))],
        key_hint: None,
    };
    assert(st1 is Ok && st1->Ok_0.tree == t1) by {
        let c0 = Seq::<(ValueV, NodeV)>::empty();
        assert(crate::merge::child_index_v(c0, pa[0]) == 0);
        assert(crate::merge::kind_switch_v(c0, pa[0]) == c0);
        assert(c0.push(
            (pa[0], crate::merge::insert_v(
                NodeV::Leaf(ValueV::Null(seq!['0'])),
                pa,
                1,
                st0.last,
                NodeV::Leaf(va),
            )),
        ) =~= t1->Branch_children);
    }
    let st1v = st1->Ok_0;
    assert(st1v.last == pa);
    let st2 = crate::merge::merge_step_v(st1v, pb, vb, strict);
    assert(crate::substitute::subst_v(vb, strict, st1v.tree, pb) == Ok::<NodeV, ErrorV>(
        NodeV::Leaf(vb),
    ));
    let t2 = NodeV::Branch {
        children: seq![
            (ValueV::Str(ka), NodeV::Leaf(va)),
            (ValueV::Str(kb), NodeV::Leaf(vb)),
        ],
        key_hint: None,
    };
    assert(st2 is Ok && st2->Ok_0.tree == t2) by {
        let c1 = t1->Branch_children;
        assert(!crate::value::key_eq_v(c1[0].0, pb[0]));
        assert(!crate::merge::reset_cond_v(c1, pb, 0, st1v.last));
        assert(crate::merge::child_index_v(c1, pb[0]) == 1) by {
            assert(c1.drop_first() =~= Seq::<(ValueV, NodeV)>::empty());
        }
        assert(crate::merge::kind_switch_v(c1, pb[0]) == c1);
        assert(c1.push(
            (pb[0], crate::merge::insert_v(
                NodeV::Leaf(ValueV::Null(seq!['0'])),
                pb,
                1,
                st1v.last,
                NodeV::Leaf(vb),
            )),
        ) =~= t2->Branch_children);
    }
    assert(crate::merge::merge_fold_v(s.drop_last(), strict) == st1);
    assert(crate::merge::merge_fold_v(s, strict) == st2);
}

/// A lenient lookup never errors.
proof fn lemma_find_lenient(n: NodeV, path: Seq<ValueV>)
    ensures
        find_key_v(n, false, path) is Ok,
    decreases path.len(),
{
    if path.len() > 0 {
        match n {
            NodeV::Branch { children, .. } => {
                match crate::node::find_child_v(children, path[0]) {
                    Some(child) => {
                        lemma_find_lenient(child, path.drop_first());
                    },
                    None => {},
                }
            },
            _ => {},
        }
    }
}

/// Lenient substitution never errors.
proof fn lemma_subst_lenient(v: ValueV, tree: NodeV, at_path: Seq<ValueV>)
    ensures
        crate::substitute::subst_v(v, false, tree, at_path) is Ok,
    decreases crate::substitute::vsize(v),
{
    reveal_with_fuel(crate::substitute::vsize, 3);
    match v {
        ValueV::PathSubstitution { target, .. } => {
            lemma_find_lenient(tree, crate::value::to_path_v(*target));
        },
        ValueV::Concat(items) => {
            lemma_subst_list_lenient(items, tree, at_path);
        },
        ValueV::Included { value, original_path, include_root } => {
            match *value {
                ValueV::Concat(items) => {
                    lemma_subst_list_incl_lenient(
                        items,
                        original_path,
                        include_root,
                        tree,
                        at_path,
                    );
                },
                inner => {
                    lemma_subst_lenient(inner, tree, at_path);
                },
            }
        },
        _ => {},
    }
}

/// Lenient substitution of a list never errors.
proof fn lemma_subst_list_lenient(items: Seq<ValueV>, tree: NodeV, at_path: Seq<ValueV>)
    ensures
        crate::substitute::subst_list_v(items, false, tree, at_path) is Ok,
    decreases crate::substitute::vsizes(items),
{
    if items.len() > 0 {
        lemma_subst_list_lenient(items.drop_last(), tree, at_path);
        lemma_subst_lenient(items.last(), tree, at_path);
    }
}

/// Lenient substitution of an included list never errors.
proof fn lemma_subst_list_incl_lenient(
    items: Seq<ValueV>,
    original_path: Seq<ValueV>,
    include_root: Option<Seq<ValueV>>,
    tree: NodeV,
    at_path: Seq<ValueV>,
)
    ensures
        crate::substitute::subst_list_incl_v(
            items,
            original_path,
            include_root,
            false,
            tree,
            at_path,
        ) is Ok,
    decreases 2 * crate::substitute::vsizes(items) + 1,
{
    reveal_with_fuel(crate::substitute::vsize, 3);
    reveal_with_fuel(crate::substitute::vsizes, 3);
    if items.len() > 0 {
        lemma_subst_list_incl_lenient(
            items.drop_last(),
            original_path,
            include_root,
            tree,
            at_path,
        );
        let wrapped = ValueV::Included {
            value: Box::new(items.last()),
            original_path,
            include_root,
        };
        lemma_subst_lenient(wrapped, tree, at_path);
    }
}

/// A lenient merge never errors.
proof fn lemma_merge_lenient(stream: Seq<(Seq<ValueV>, ValueV)>)
    ensures
        crate::merge::merge_fold_v(stream, false) is Ok,
    decreases stream,
{
    if stream.len() > 0 {
        lemma_merge_lenient(stream.drop_last());
        let st = crate::merge::merge_fold_v(stream.drop_last(), false)->Ok_0;
        let raw_path = stream.last().0;
        let item = stream.last().1;
        if raw_path.len() > 0 {
            let full = crate::merge::expand_path_v(raw_path);
            match item {
                ValueV::PathSubstitutionInParent(target) => {
                    let marker = ValueV::PathSubstitution {
                        target,
                        optional: false,
                        original: None,
                    };
                    lemma_subst_lenient(marker, st.tree, full);
                },
                ValueV::ToConcatToArray { value, .. } => {
                    lemma_subst_lenient(*value, st.tree, full);
                },
                _ => {
                    lemma_subst_lenient(item, st.tree, full);
                },
            }
        }
    }
}

/// Lenient finalization of a node never errors.
proof fn lemma_fin_node_lenient(
    n: NodeV,
    root: NodeV,
    system: bool,
    env: Seq<(Seq<char>, Seq<char>)>,
    included: Option<Seq<ValueV>>,
    substituting: Option<Seq<ValueV>>,
    fuel: nat,
)
    ensures
        fin_node_v(n, root, false, system, env, included, substituting, fuel) is Ok,
    decreases fuel, crate::finalize::fsize_n(n), 1int,
{
    match n {
        NodeV::Leaf(v) => {
            lemma_fin_value_lenient(v, root, system, env, false, included, substituting, fuel);
        },
        NodeV::Branch { children, .. } => {
            if children.len() > 0 {
                lemma_fin_arr_lenient(children, root, system, env, included, substituting, fuel);
                lemma_fin_flat_lenient(children, root, system, env, included, substituting, fuel);
                lemma_fin_hash_lenient(children, root, system, env, included, substituting, fuel);
            }
        },
    }
}

/// Lenient finalization of an array branch never errors.
proof fn lemma_fin_arr_lenient(
    children: Seq<(ValueV, NodeV)>,
    root: NodeV,
    system: bool,
    env: Seq<(Seq<char>, Seq<char>)>,
    included: Option<Seq<ValueV>>,
    substituting: Option<Seq<ValueV>>,
    fuel: nat,
)
    ensures
        fin_arr_v(children, root, false, system, env, included, substituting, fuel) is Ok,
    decreases fuel, crate::finalize::fsize_cs(children), 0int,
{
    if children.len() > 0 {
        lemma_fin_arr_lenient(
            children.drop_last(),
            root,
            system,
            env,
            included,
            substituting,
            fuel,
        );
        lemma_fin_node_lenient(
            children.last().1,
            root,
            system,
            env,
            included,
            substituting,
            fuel,
        );
    }
}

/// Lenient finalization of a spliced array branch never errors.
proof fn lemma_fin_flat_lenient(
    children: Seq<(ValueV, NodeV)>,
    root: NodeV,
    system: bool,
    env: Seq<(Seq<char>, Seq<char>)>,
    included: Option<Seq<ValueV>>,
    substituting: Option<Seq<ValueV>>,
    fuel: nat,
)
    ensures
        crate::finalize::fin_flat_v(children, root, false, system, env, included, substituting, fuel)
            is Ok,
    decreases fuel, crate::finalize::fsize_cs(children), 0int,
{
    if children.len() > 0 {
        lemma_fin_flat_lenient(
            children.drop_last(),
            root,
            system,
            env,
            included,
            substituting,
            fuel,
        );
        lemma_fin_node_lenient(
            children.last().1,
            root,
            system,
            env,
            included,
            substituting,
            fuel,
        );
    }
}

/// Lenient finalization of an object branch never errors.
proof fn lemma_fin_hash_lenient(
    children: Seq<(ValueV, NodeV)>,
    root: NodeV,
    system: bool,
    env: Seq<(Seq<char>, Seq<char>)>,
    included: Option<Seq<ValueV>>,
    substituting: Option<Seq<ValueV>>,
    fuel: nat,
)
    ensures
        fin_hash_v(children, root, false, system, env, included, substituting, fuel) is Ok,
    decreases fuel, crate::finalize::fsize_cs(children), 0int,
{
    if children.len() > 0 {
        lemma_fin_hash_lenient(
            children.drop_last(),
            root,
            system,
            env,
            included,
            substituting,
            fuel,
        );
        lemma_fin_node_lenient(
            children.last().1,
            root,
            system,
            env,
            included,
            substituting,
            fuel,
        );
    }
}

/// Lenient finalization of a raw value never errors.
proof fn lemma_fin_value_lenient(
    v: ValueV,
    root: NodeV,
    system: bool,
    env: Seq<(Seq<char>, Seq<char>)>,
    in_concat: bool,
    included: Option<Seq<ValueV>>,
    substituting: Option<Seq<ValueV>>,
    fuel: nat,
)
    ensures
        crate::finalize::fin_value_v(
            v,
            root,
            false,
            system,
            env,
            in_concat,
            included,
            substituting,
            fuel,
        ) is Ok,
    decreases fuel, crate::finalize::fsize_v(v), 0int,
{
    match v {
        ValueV::PathSubstitution { target, .. } => {
            let tpath = crate::value::to_path_v(*target);
            let fixed = match included {
                Some(ip) => crate::value::to_paths_v(ip) + tpath,
                None => tpath,
            };
            if fuel > 0 {
                lemma_find_lenient(root, fixed);
                match find_key_v(root, false, fixed) {
                    Ok(found) => {
                        lemma_fin_node_lenient(
                            found,
                            root,
                            system,
                            env,
                            included,
                            Some(fixed),
                            (fuel - 1) as nat,
                        );
                    },
                    Err(_) => {},
                }
            }
        },
        ValueV::Included { value, include_root, .. } => {
            lemma_fin_value_lenient(
                *value,
                root,
                system,
                env,
                in_concat,
                include_root,
                None,
                fuel,
            );
        },
        _ => {},
    }
}

/// In lenient mode the whole load always succeeds: the merge and the
/// finalization of any assignment stream return a value, every
/// failure embedded as an error-marker leaf instead.
pub proof fn lemma_lenient_always_ok(
    stream: Seq<(Seq<ValueV>, ValueV)>,
    system: bool,
    env: Seq<(Seq<char>, Seq<char>)>,
)
    ensures
        crate::merge::merge_v(stream, false) is Ok,
        finalize_v(crate::merge::merge_v(stream, false)->Ok_0, false, system, env) is Ok,
{
    lemma_merge_lenient(stream);
    let tree = crate::merge::merge_v(stream, false)->Ok_0;
    lemma_fin_node_lenient(
        tree,
        tree,
        system,
        env,
        None,
        None,
        crate::finalize::fuel_n(tree),
    );
}

/// A single unquoted character that is neither white space nor a
/// dot expands to itself as one quoted segment.
proof fn lemma_expand_single(c: char)
    requires
        !crate::strings::is_space_char(c),
        c != '.',
    ensures
        crate::merge::expand_item_v(ValueV::UnquotedStr(seq![c])) == seq![ValueV::Str(seq![c])],
        to_path_v(ValueV::UnquotedStr(seq![c])) == seq![ValueV::Str(seq![c])],
{
    reveal_with_fuel(crate::strings::first_dot, 3);
    reveal_with_fuel(crate::strings::split_dots_v, 2);
    let s = seq![c];
    assert(crate::strings::trim_start_v(s) == s);
    assert(crate::strings::trim_end_v(s) == s);
    assert(s.drop_first() =~= Seq::<char>::empty());
    assert(crate::strings::first_dot(s) == 1);
    assert(crate::strings::split_dots_v(s) == seq![s]);
    assert(crate::strings::split_dots_v(s).map_values(|p: Seq<char>| ValueV::Str(p)) =~= seq![
        ValueV::Str(s),
    ]);
    assert(s != seq!['.']) by {
        assert(seq!['.'][0] == '.');
    }
}

/// The optional-substitution half of the failure policy, end to
/// end: a document whose only assignment is an optional reference to
/// a missing key, with nothing in the environment under that name
/// and no previous value in the slot, resolves the key to an
/// embedded `KeyNotFound` marker under a lenient load and fails the
/// whole load with that error under a strict one.
pub proof fn lemma_optional_missing_resolution(
    env: Seq<(Seq<char>, Seq<char>)>,
    system: bool,
    strict: bool,
)
    requires
        crate::finalize::env_find_v(env, seq!['b']) is None,
    ensures
        ({
            let marker = ValueV::PathSubstitution {
                target: Box::new(ValueV::UnquotedStr(seq!['b'])),
                optional: true,
                original: None,
            };
            let stream = seq![
                (
                    seq![ValueV::UnquotedStr(seq!['a']), ValueV::UnquotedStr(seq!['c'])],
                    marker,
                ),
            ];
            let knf = ErrorV::KeyNotFound { key: seq!['b'] };
            &&& crate::merge::merge_v(stream, strict) is Ok
            &&& (strict ==> finalize_v(
                crate::merge::merge_v(stream, strict)->Ok_0,
                strict,
                system,
                env,
            ) == Err::<HoconV, ErrorV>(knf))
            &&& (!strict ==> finalize_v(
                crate::merge::merge_v(stream, strict)->Ok_0,
                strict,
                system,
                env,
            ) == Ok::<HoconV, ErrorV>(
                HoconV::Hash(
                    seq![
                        (
                            seq!['a'],
                            HoconV::Hash(
                                seq![(seq!['c'], HoconV::BadValue(knf))],
                            ),
                        ),
                    ],
                ),
            ))
        }),
{
    reveal_with_fuel(crate::merge::merge_fold_v, 2);
    reveal_with_fuel(crate::merge::expand_path_v, 3);
    reveal_with_fuel(crate::node::find_child_v, 3);
    reveal_with_fuel(crate::merge::child_index_v, 2);
    reveal_with_fuel(crate::merge::insert_v, 4);
    reveal_with_fuel(find_key_v, 3);
    reveal_with_fuel(crate::finalize::fin_node_v, 4);
    reveal_with_fuel(crate::finalize::fin_hash_v, 3);
    reveal_with_fuel(crate::strings::join_dots_v, 2);
    let ka = seq!['a'];
    let kc = seq!['c'];
    let kb = seq!['b'];
    let target = ValueV::UnquotedStr(kb);
    let marker = ValueV::PathSubstitution {
        target: Box::new(target),
        optional: true,
        original: None,
    };
    let raw = seq![ValueV::UnquotedStr(ka), ValueV::UnquotedStr(kc)];
    let stream = seq![(raw, marker)];
    let knf = ErrorV::KeyNotFound { key: kb };

    // the raw path expands segment by segment
    lemma_expand_single('a');
    lemma_expand_single('c');
    lemma_expand_single('b');
    let full = seq![ValueV::Str(ka), ValueV::Str(kc)];
    assert(raw.drop_last() =~= seq![ValueV::UnquotedStr(ka)]);
    assert(seq![ValueV::UnquotedStr(ka)].drop_last() =~= Seq::<ValueV>::empty());
    assert(crate::merge::expand_path_v(raw) =~= full);

    // key inequalities the walks hinge on
    assert(ka != kb && kc != kb) by {
        assert(ka[0] == 'a' && kc[0] == 'c' && kb[0] == 'b');
    }

    // the missing target renders as its dotted name
    let tpath = seq![ValueV::Str(kb)];
    assert(crate::value::path_render_v(tpath) == kb) by {
        assert(tpath.map_values(|v: ValueV| crate::value::string_value_v(v)) =~= seq![kb]);
    }

    // first pass: the lookup misses, so the marker is kept unchanged
    let st0 = crate::merge::init_state_v();
    assert(find_key_v(st0.tree, strict, tpath) == crate::node::not_found_v(strict, tpath));
    assert(crate::substitute::subst_v(marker, strict, st0.tree, full) == Ok::<NodeV, ErrorV>(
        NodeV::Leaf(marker),
    ));

    // nothing occupied the slot, so no fallback is recorded
    assert(crate::merge::probe_old_v(st0.tree, full, 0, st0.last) is None);
    assert(crate::merge::patch_original_v(NodeV::Leaf(marker), None) == NodeV::Leaf(marker));

    // the walk builds a: { c: marker }
    let leafc = NodeV::Leaf(marker);
    let branch_a = NodeV::Branch { children: seq![(ValueV::Str(kc), leafc)], key_hint: None };
    let tree = NodeV::Branch {
        children: seq![(ValueV::Str(ka), branch_a)],
        key_hint: None,
    };
    assert(crate::merge::insert_v(st0.tree, full, 0, st0.last, leafc) == tree) by {
        let c0 = Seq::<(ValueV, NodeV)>::empty();
        assert(crate::merge::child_index_v(c0, full[0]) == 0);
        assert(crate::merge::kind_switch_v(c0, full[0]) == c0);
        let sub = crate::merge::insert_v(
            NodeV::Leaf(ValueV::Null(seq!['0'])),
            full,
            1,
            st0.last,
            leafc,
        );
        assert(sub == branch_a) by {
            assert(sub->Branch_children =~= seq![(ValueV::Str(kc), leafc)]);
        }
        assert(c0.push((full[0], sub)) =~= tree->Branch_children);
    }
    assert(stream.drop_last() =~= Seq::<(Seq<ValueV>, ValueV)>::empty());
    assert(stream.last() == (raw, marker));
    assert(crate::merge::merge_fold_v(stream, strict) matches Ok(st) && st.tree == tree);

    // second pass: the lookup misses again, the environment has
    // nothing, no fallback exists, so the policy decides
    let fuel = crate::finalize::fuel_n(tree);
    assert(fuel >= 1);
    assert(find_key_v(tree, strict, tpath) == crate::node::not_found_v(strict, tpath)) by {
        assert(!crate::value::key_eq_v(tree->Branch_children[0].0, tpath[0]));
        assert(tree->Branch_children.drop_first() =~= Seq::<(ValueV, NodeV)>::empty());
    }
    let subp: Option<Seq<ValueV>> = Some(tpath);
    let fin_marker = crate::finalize::fin_value_v(
        marker,
        tree,
        strict,
        system,
        env,
        false,
        None,
        None,
        fuel,
    );
    assert(strict ==> fin_marker == Err::<HoconV, ErrorV>(knf));
    assert(!strict ==> fin_marker == Ok::<HoconV, ErrorV>(HoconV::BadValue(knf))) by {
        if !strict {
            assert(crate::finalize::fin_node_v(
                NodeV::Leaf(ValueV::BadValue(knf)),
                tree,
                strict,
                system,
                env,
                None,
                subp,
                (fuel - 1) as nat,
            ) == Ok::<HoconV, ErrorV>(HoconV::BadValue(knf)));
        }
    }

    // the object shells around the marker
    assert(crate::finalize::fin_hash_v(
        branch_a->Branch_children,
        tree,
        strict,
        system,
        env,
        None,
        None,
        fuel,
    ) == (if strict {
        Err::<Seq<(Seq<char>, HoconV)>, ErrorV>(knf)
    } else {
        Ok::<Seq<(Seq<char>, HoconV)>, ErrorV>(seq![(kc, HoconV::BadValue(knf))])
    })) by {
        assert(branch_a->Branch_children.drop_last() =~= Seq::<(ValueV, NodeV)>::empty());
        assert(crate::value::string_value_v(ValueV::Str(kc)) == kc);
    }
    assert(crate::finalize::fin_hash_v(
        tree->Branch_children,
        tree,
        strict,
        system,
        env,
        None,
        None,
        fuel,
    ) == (if strict {
        Err::<Seq<(Seq<char>, HoconV)>, ErrorV>(knf)
    } else {
        Ok::<Seq<(Seq<char>, HoconV)>, ErrorV>(
            seq![(ka, HoconV::Hash(seq![(kc, HoconV::BadValue(knf))]))],
        )
    })) by {
        assert(tree->Branch_children.drop_last() =~= Seq::<(ValueV, NodeV)>::empty());
        assert(crate::value::string_value_v(ValueV::Str(ka)) == ka);
    }
}

/// In the two-child object, each of the two keys reads its own
/// value.
proof fn lemma_two_key_lookup(
    ka: Seq<char>,
    kb: Seq<char>,
    va: ValueV,
    vb: ValueV,
    t: NodeV,
    k: Seq<char>,
    strict: bool,
)
    requires
        ka != kb,
        k == ka || k == kb,
        t == (NodeV::Branch {
            children: seq![
                (ValueV::Str(ka), NodeV::Leaf(va)),
                (ValueV::Str(kb), NodeV::Leaf(vb)),
            ],
            key_hint: None,
        }),
    ensures
        k == ka ==> find_key_v(t, strict, seq![ValueV::Str(k)]) == Ok::<NodeV, ErrorV>(
            NodeV::Leaf(va),
        ),
        k == kb ==> find_key_v(t, strict, seq![ValueV::Str(k)]) == Ok::<NodeV, ErrorV>(
            NodeV::Leaf(vb),
        ),
{
    reveal_with_fuel(crate::node::find_child_v, 3);
    reveal_with_fuel(find_key_v, 3);
    let path = seq![ValueV::Str(k)];
    let children = t->Branch_children;
    assert(path[0] == ValueV::Str(k));
    assert(path.drop_first() =~= Seq::<ValueV>::empty());
    if k == ka {
        assert(crate::node::find_child_v(children, path[0]) == Some(NodeV::Leaf(va)));
    } else {
        assert(!crate::value::key_eq_v(children[0].0, path[0]));
        assert(children.drop_first() =~= seq![(ValueV::Str(kb), NodeV::Leaf(vb))]);
        assert(crate::node::find_child_v(children, path[0]) == Some(NodeV::Leaf(vb)));
    }
}

} // verus!
