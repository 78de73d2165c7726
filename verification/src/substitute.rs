//! The substitution and concatenation resolver: rewrites one raw
//! value against the tree built so far, during the fold (backward
//! references) and leaves forward references as markers for the
//! finalizer's second pass.

use vstd::prelude::*;

use crate::error::{Error, ErrorV};
use crate::node::{
    children_view, find_key, find_key_v, lemma_children_view, lemma_nodes_view, nodes_view,
    KeyType, Node, NodeV,
};
use crate::value::{
    clone_value, clone_values, to_path, to_path_v, to_paths_v, HoconValue, ValueV,
    values_view, lemma_values_view, lemma_values_view_concat,
};
use crate::strings::{str_is_blank, trim_v};

verus! {

/// Size measure for substitution's recursion: concatenation items
/// count one each plus their own size, and an include wrapper doubles
/// its content, so that distributing the wrapper over the items of a
/// concatenation shrinks the measure.
pub open spec fn vsize(v: ValueV) -> nat
    decreases v,
{
    match v {
        ValueV::Concat(items) => 1 + vsizes(items),
        ValueV::Included { value, .. } => 2 * vsize(*value) + 1,
        _ => 1,
    }
}

/// Size measure of a list of items.
pub open spec fn vsizes(items: Seq<ValueV>) -> nat
    decreases items,
{
    if items.len() == 0 {
        0
    } else {
        vsizes(items.drop_last()) + vsize(items.last()) + 1
    }
}

/// Any item weighs no more than its whole list.
pub proof fn lemma_vsizes_bound(items: Seq<ValueV>, i: int)
    requires
        0 <= i < items.len(),
    ensures
        vsize(items[i]) < vsizes(items) + 1,
        vsizes(items) >= items.len(),
    decreases items,
{
    if items.len() > 0 {
        if i < items.len() - 1 {
            lemma_vsizes_bound(items.drop_last(), i);
        } else if items.len() >= 2 {
            lemma_vsizes_bound(items.drop_last(), 0);
        }
    }
}

/// Whether a child is kept when a concatenation merges branches: a
/// leaf holding a white-space-only unquoted string is dropped.
pub open spec fn keep_child(n: NodeV) -> bool {
    match n {
        NodeV::Leaf(ValueV::UnquotedStr(s)) => trim_v(s).len() > 0,
        _ => true,
    }
}

/// The pseudo-children a resolved concatenation item contributes: a
/// branch its own children, a leaf a single slot.
pub open spec fn item_children_v(n: NodeV) -> Seq<(ValueV, NodeV)> {
    match n {
        NodeV::Branch { children, .. } => children,
        _ => seq![(ValueV::Integer(0), n)],
    }
}

/// All pseudo-children of the resolved items, in order.
pub open spec fn flatten_nodes_v(nodes: Seq<NodeV>) -> Seq<(ValueV, NodeV)>
    decreases nodes,
{
    if nodes.len() == 0 {
        Seq::empty()
    } else {
        flatten_nodes_v(nodes.drop_last()) + item_children_v(nodes.last())
    }
}

/// The integer key given to position `i`.
pub open spec fn pos_key(i: int) -> ValueV {
    ValueV::Integer(
        if i <= i64::MAX as int {
            i as i64
        } else {
            i64::MAX
        },
    )
}

/// Re-keys the pseudo-children by their position, dropping
/// white-space-only leaves (their positions leave gaps).
pub open spec fn renumbered_v(cs: Seq<(ValueV, NodeV)>) -> Seq<(ValueV, NodeV)>
    decreases cs,
{
    if cs.len() == 0 {
        Seq::empty()
    } else {
        renumbered_v(cs.drop_last()) + (
        if keep_child(cs.last().1) {
            seq![(pos_key(cs.len() - 1), cs.last().1)]
        } else {
            Seq::<(ValueV, NodeV)>::empty()
        })
    }
}

/// Whether any resolved item is a branch, which turns the whole
/// concatenation into a branch merge.
pub open spec fn any_branch_v(nodes: Seq<NodeV>) -> bool {
    exists|i: int| 0 <= i < nodes.len() && (#[trigger] nodes[i]) matches NodeV::Branch { .. }
}

/// The leaf values of the resolved items, in order.
pub open spec fn leaves_of_v(nodes: Seq<NodeV>) -> Seq<ValueV>
    decreases nodes,
{
    if nodes.len() == 0 {
        Seq::empty()
    } else {
        leaves_of_v(nodes.drop_last()) + (match nodes.last() {
            NodeV::Leaf(v) => seq![v],
            _ => Seq::<ValueV>::empty(),
        })
    }
}

/// Combines the resolved items of a concatenation: if any is a
/// branch, the result is a branch holding the sibling union of all
/// items' children re-keyed by position; otherwise a leaf holding the
/// concatenation of the leaf values.
pub open spec fn combine_nodes_v(nodes: Seq<NodeV>) -> NodeV {
    if any_branch_v(nodes) {
        NodeV::Branch { children: renumbered_v(flatten_nodes_v(nodes)), key_hint: None }
    } else {
        NodeV::Leaf(ValueV::Concat(leaves_of_v(nodes)))
    }
}

/// What substituting `v` at `at_path` against `tree` yields; see
/// [`substitute`].
pub open spec fn subst_v(v: ValueV, strict: bool, tree: NodeV, at_path: Seq<ValueV>) -> Result<
    NodeV,
    ErrorV,
>
    decreases vsize(v),
    via subst_v_decreases
{
    match v {
        ValueV::PathSubstitution { target, optional, original } => {
            match find_key_v(tree, strict, to_path_v(*target)) {
                Ok(NodeV::Leaf(ValueV::BadValue(_))) | Err(_) => Ok(
                    NodeV::Leaf(
                        ValueV::PathSubstitution { target, optional, original },
                    ),
                ),
                Ok(found) => Ok(found),
            }
        },
        ValueV::Concat(items) => match subst_list_v(items, strict, tree, at_path) {
            Ok(nodes) => Ok(combine_nodes_v(nodes)),
            Err(e) => Err(e),
        },
        ValueV::EmptyObject => Ok(
            NodeV::Branch { children: Seq::empty(), key_hint: Some(KeyType::String) },
        ),
        ValueV::EmptyArray => Ok(
            NodeV::Branch { children: Seq::empty(), key_hint: Some(KeyType::Int) },
        ),
        ValueV::Included { value, original_path, include_root } => {
            let rooted: Option<NodeV> = match *value {
                ValueV::PathSubstitution { target, .. } => rooted_lookup_v(
                    *target,
                    original_path,
                    strict,
                    tree,
                    at_path,
                ),
                ValueV::PathSubstitutionInParent(target) => rooted_lookup_v(
                    *target,
                    original_path,
                    strict,
                    tree,
                    at_path,
                ),
                _ => None,
            };
            match rooted {
                Some(found) => Ok(found),
                None => match *value {
                    ValueV::Concat(items) => {
                        match subst_list_incl_v(
                            items,
                            original_path,
                            include_root,
                            strict,
                            tree,
                            at_path,
                        ) {
                            Ok(nodes) => Ok(combine_nodes_v(nodes)),
                            Err(e) => Err(e),
                        }
                    },
                    inner => match subst_v(inner, strict, tree, at_path) {
                        Ok(NodeV::Leaf(found)) => Ok(
                            NodeV::Leaf(
                                ValueV::Included {
                                    value: Box::new(found),
                                    original_path,
                                    include_root,
                                },
                            ),
                        ),
                        other => other,
                    },
                },
            }
        },
        _ => Ok(NodeV::Leaf(v)),
    }
}

#[via_fn]
proof fn subst_v_decreases(v: ValueV, strict: bool, tree: NodeV, at_path: Seq<ValueV>) {
    reveal_with_fuel(vsize, 3);
}

/// An included substitution first tries its target rooted at the
/// inclusion point: the walked path minus the value's own path inside
/// the included document. `Some` when that rooted lookup found a
/// clean subtree.
pub open spec fn rooted_lookup_v(
    target: ValueV,
    original_path: Seq<ValueV>,
    strict: bool,
    tree: NodeV,
    at_path: Seq<ValueV>,
) -> Option<NodeV> {
    let cut = if original_path.len() <= at_path.len() {
        at_path.len() - original_path.len()
    } else {
        0
    };
    let fixed = to_paths_v(at_path.take(cut as int)) + to_path_v(target);
    match find_key_v(tree, strict, fixed) {
        Ok(NodeV::Leaf(ValueV::BadValue(_))) | Err(_) => None,
        Ok(found) => Some(found),
    }
}

/// Substitutes each item in turn; in strict mode the first failure
/// aborts, otherwise a failed item becomes an error-marker leaf.
pub open spec fn subst_list_v(
    items: Seq<ValueV>,
    strict: bool,
    tree: NodeV,
    at_path: Seq<ValueV>,
) -> Result<Seq<NodeV>, ErrorV>
    decreases vsizes(items),
{
    if items.len() == 0 {
        Ok(Seq::empty())
    } else {
        match subst_list_v(items.drop_last(), strict, tree, at_path) {
            Err(e) => Err(e),
            Ok(front) => match subst_v(items.last(), strict, tree, at_path) {
                Ok(n) => Ok(front.push(n)),
                Err(e) => if strict {
                    Err(e)
                } else {
                    Ok(front.push(NodeV::Leaf(ValueV::BadValue(e))))
                },
            },
        }
    }
}

/// Substitutes each item wrapped in its include marker, distributing
/// the wrapper over a concatenation that came from an included file.
pub open spec fn subst_list_incl_v(
    items: Seq<ValueV>,
    original_path: Seq<ValueV>,
    include_root: Option<Seq<ValueV>>,
    strict: bool,
    tree: NodeV,
    at_path: Seq<ValueV>,
) -> Result<Seq<NodeV>, ErrorV>
    decreases 2 * vsizes(items) + 1,
{
    if items.len() == 0 {
        Ok(Seq::empty())
    } else {
        let wrapped_last = ValueV::Included {
            value: Box::new(items.last()),
            original_path,
            include_root,
        };
        match subst_list_incl_v(
            items.drop_last(),
            original_path,
            include_root,
            strict,
            tree,
            at_path,
        ) {
            Err(e) => Err(e),
            Ok(front) => match subst_v(wrapped_last, strict, tree, at_path) {
                Ok(n) => Ok(front.push(n)),
                Err(e) => if strict {
                    Err(e)
                } else {
                    Ok(front.push(NodeV::Leaf(ValueV::BadValue(e))))
                },
            },
        }
    }
}

/// Once a prefix fails, the whole list fails the same way.
proof fn lemma_subst_list_err(
    items: Seq<ValueV>,
    k: int,
    strict: bool,
    tree: NodeV,
    at_path: Seq<ValueV>,
)
    requires
        0 <= k <= items.len(),
        subst_list_v(items.take(k), strict, tree, at_path) is Err,
    ensures
        subst_list_v(items, strict, tree, at_path) == subst_list_v(
            items.take(k),
            strict,
            tree,
            at_path,
        ),
    decreases items.len(),
{
    if k < items.len() {
        assert(items.drop_last().take(k) =~= items.take(k));
        lemma_subst_list_err(items.drop_last(), k, strict, tree, at_path);
    } else {
        assert(items.take(k) =~= items);
    }
}

/// Once a prefix fails, the whole wrapped list fails the same way.
proof fn lemma_subst_list_incl_err(
    items: Seq<ValueV>,
    k: int,
    original_path: Seq<ValueV>,
    include_root: Option<Seq<ValueV>>,
    strict: bool,
    tree: NodeV,
    at_path: Seq<ValueV>,
)
    requires
        0 <= k <= items.len(),
        subst_list_incl_v(items.take(k), original_path, include_root, strict, tree, at_path)
            is Err,
    ensures
        subst_list_incl_v(items, original_path, include_root, strict, tree, at_path)
            == subst_list_incl_v(
            items.take(k),
            original_path,
            include_root,
            strict,
            tree,
            at_path,
        ),
    decreases items.len(),
{
    if k < items.len() {
        assert(items.drop_last().take(k) =~= items.take(k));
        lemma_subst_list_incl_err(
            items.drop_last(),
            k,
            original_path,
            include_root,
            strict,
            tree,
            at_path,
        );
    } else {
        assert(items.take(k) =~= items);
    }
}

/// Combines the resolved items of a concatenation; see
/// [`combine_nodes_v`].
#[verifier::loop_isolation(false)]
fn combine_nodes(nodes: Vec<Node>) -> (r: Node)
    ensures
        r@ == combine_nodes_v(nodes_view(nodes@)),
{
    let ghost nv = nodes_view(nodes@);
    proof {
        lemma_nodes_view(nodes@);
    }
    let mut has_branch = false;
    let mut k: usize = 0;
    while k < nodes.len()
        invariant
            0 <= k <= nodes@.len(),
            has_branch == any_branch_v(nv.take(k as int)),
        decreases nodes@.len() - k,
    {
        let is_b = match &nodes[k] {
            Node::Branch { .. } => true,
            _ => false,
        };
        proof {
            if is_b {
                assert(nv.take(k as int + 1)[k as int] matches NodeV::Branch { .. });
                assert(any_branch_v(nv.take(k as int + 1)));
            } else {
                if !has_branch {
                    assert forall|i: int| 0 <= i < k + 1 implies !((#[trigger] nv.take(
                        k as int + 1,
                    )[i]) matches NodeV::Branch { .. }) by {
                        if i < k {
                            assert(nv.take(k as int)[i] == nv.take(k as int + 1)[i]);
                        }
                    }
                } else {
                    let w = choose|i: int| 0 <= i < k && (#[trigger] nv.take(k as int)[i])
                        matches NodeV::Branch { .. };
                    assert(nv.take(k as int + 1)[w] matches NodeV::Branch { .. });
                }
            }
        }
        if is_b {
            has_branch = true;
        }
        k = k + 1;
    }
    proof {
        assert(nv.take(nodes@.len() as int) =~= nv);
    }
    if has_branch {
        let mut flat: Vec<(HoconValue, Node)> = Vec::new();
        let mut k: usize = 0;
        while k < nodes.len()
            invariant
                0 <= k <= nodes@.len(),
                children_view(flat@) == flatten_nodes_v(nv.take(k as int)),
            decreases nodes@.len() - k,
        {
            let ghost oldflat = children_view(flat@);
            match &nodes[k] {
                Node::Branch { children, .. } => {
                    let mut j: usize = 0;
                    while j < children.len()
                        invariant
                            0 <= j <= children@.len(),
                            children_view(flat@) == oldflat + children_view(
                                children@,
                            ).take(j as int),
                        decreases children@.len() - j,
                    {
                        proof {
                            lemma_children_view(children@);
                        }
                        let key = children[j].0.clone();
                        let sub = children[j].1.clone();
                        let ghost pre = flat@;
                        flat.push((key, sub));
                        proof {
                            assert(flat@.drop_last() =~= pre);
                            lemma_children_view(flat@);
                            assert(children_view(flat@) =~= oldflat + children_view(
                                children@,
                            ).take(j as int + 1));
                        }
                        j = j + 1;
                    }
                    proof {
                        lemma_children_view(children@);
                        assert(children_view(children@).take(children@.len() as int)
                            =~= children_view(children@));
                        assert(nv.take(k as int + 1).drop_last() =~= nv.take(k as int));
                        assert(children_view(flat@) =~= flatten_nodes_v(
                            nv.take(k as int + 1),
                        ));
                    }
                },
                leaf => {
                    let ghost pre = flat@;
                    flat.push((HoconValue::Integer(0), leaf.clone()));
                    proof {
                        assert(flat@.drop_last() =~= pre);
                        lemma_children_view(flat@);
                        assert(nv.take(k as int + 1).drop_last() =~= nv.take(k as int));
                        assert(item_children_v(nv[k as int]) =~= seq![
                            (ValueV::Integer(0), nv[k as int]),
                        ]);
                        assert(children_view(flat@) =~= flatten_nodes_v(
                            nv.take(k as int + 1),
                        ));
                    }
                },
            }
            k = k + 1;
        }
        proof {
            assert(nv.take(nodes@.len() as int) =~= nv);
        }
        let ghost fv = children_view(flat@);
        let mut out: Vec<(HoconValue, Node)> = Vec::new();
        let mut pos: usize = 0;
        proof {
            lemma_children_view(flat@);
        }
        while pos < flat.len()
            invariant
                0 <= pos <= flat@.len(),
                children_view(out@) == renumbered_v(fv.take(pos as int)),
            decreases flat@.len() - pos,
        {
            proof {
                lemma_children_view(flat@);
            }
            let keep = match &flat[pos].1 {
                Node::Leaf(HoconValue::UnquotedString(s)) => !str_is_blank(s.as_str()),
                _ => true,
            };
            proof {
                assert(fv.take(pos as int + 1).drop_last() =~= fv.take(pos as int));
            }
            if keep {
                let key: i64 = if (pos as u64) <= (i64::MAX as u64) {
                    pos as i64
                } else {
                    i64::MAX
                };
                let sub = flat[pos].1.clone();
                let ghost pre = out@;
                out.push((HoconValue::Integer(key), sub));
                proof {
                    assert(out@.drop_last() =~= pre);
                    lemma_children_view(out@);
                    assert(children_view(out@) =~= renumbered_v(fv.take(pos as int + 1)));
                }
            } else {
                proof {
                    assert(children_view(out@) =~= renumbered_v(fv.take(pos as int + 1)));
                }
            }
            pos = pos + 1;
        }
        proof {
            assert(fv.take(flat@.len() as int) =~= fv);
        }
        Node::Branch { children: out, key_hint: None }
    } else {
        let mut leaves: Vec<HoconValue> = Vec::new();
        let mut k: usize = 0;
        while k < nodes.len()
            invariant
                0 <= k <= nodes@.len(),
                values_view(leaves@) == leaves_of_v(nv.take(k as int)),
            decreases nodes@.len() - k,
        {
            proof {
                assert(nv.take(k as int + 1).drop_last() =~= nv.take(k as int));
            }
            match &nodes[k] {
                Node::Leaf(v) => {
                    let ghost pre = leaves@;
                    leaves.push(clone_value(v));
                    proof {
                        assert(leaves@.drop_last() =~= pre);
                        lemma_values_view(leaves@);
                        assert(values_view(leaves@) =~= leaves_of_v(nv.take(k as int + 1)));
                    }
                },
                _ => {
                    proof {
                        assert(values_view(leaves@) =~= leaves_of_v(nv.take(k as int + 1)));
                    }
                },
            }
            k = k + 1;
        }
        proof {
            assert(nv.take(nodes@.len() as int) =~= nv);
        }
        Node::Leaf(HoconValue::Concat(leaves))
    }
}

/// Tries an included substitution's target rooted at the inclusion
/// point; see [`rooted_lookup_v`].
#[verifier::loop_isolation(false)]
fn rooted_lookup(
    target: &HoconValue,
    original_path: &Vec<HoconValue>,
    strict: bool,
    tree: &Node,
    at_path: &Vec<HoconValue>,
) -> (r: Option<Node>)
    ensures
        ({
            let sr = rooted_lookup_v(
                target@,
                values_view(original_path@),
                strict,
                tree@,
                values_view(at_path@),
            );
            match r {
                Some(n) => sr matches Some(m) && n@ == m,
                None => sr is None,
            }
        }),
{
    proof {
        lemma_values_view(original_path@);
        lemma_values_view(at_path@);
    }
    let cut: usize = if original_path.len() <= at_path.len() {
        at_path.len() - original_path.len()
    } else {
        0
    };
    let ghost atv = values_view(at_path@);
    let mut fixed: Vec<HoconValue> = Vec::new();
    let mut k: usize = 0;
    while k < cut
        invariant
            0 <= k <= cut <= at_path@.len(),
            values_view(fixed@) == to_paths_v(atv.take(k as int)),
        decreases cut - k,
    {
        proof {
            lemma_values_view(at_path@);
        }
        let mut piece = to_path(&at_path[k]);
        let ghost pre = fixed@;
        let ghost piecev = piece@;
        fixed.append(&mut piece);
        proof {
            assert(fixed@ =~= pre + piecev);
            lemma_values_view_concat(pre, piecev);
            assert(atv.take(k as int + 1).drop_last() =~= atv.take(k as int));
            assert(values_view(fixed@) =~= to_paths_v(atv.take(k as int + 1)));
        }
        k = k + 1;
    }
    let mut tp = to_path(target);
    let ghost pre = fixed@;
    let ghost tpv = tp@;
    fixed.append(&mut tp);
    proof {
        assert(fixed@ =~= pre + tpv);
        lemma_values_view_concat(pre, tpv);
    }
    match find_key(tree, strict, &fixed) {
        Ok(found) => {
            match found {
                Node::Leaf(HoconValue::BadValue(_)) => None,
                other => Some(other),
            }
        },
        Err(_) => None,
    }
}

/// Substitutes one raw value against the tree built so far: resolves
/// found backward references by pasting a deep copy of the referenced
/// subtree, leaves missing references as markers for the second pass,
/// resolves concatenations (merging branches when one item is a
/// branch), turns explicit empties into hinted empty branches, and
/// roots references from included files at their inclusion point.
/// Returns exactly [`subst_v`] of the value's model; in strict mode
/// an `Err` is the first embedded failure.
#[verifier::loop_isolation(false)]
pub fn substitute(v: &HoconValue, strict: bool, tree: &Node, at_path: &Vec<HoconValue>) -> (r:
    Result<Node, Error>)
    ensures
        ({
            let sr = subst_v(v@, strict, tree@, values_view(at_path@));
            match r {
                Ok(n) => sr matches Ok(m) && n@ == m,
                Err(e) => sr matches Err(f) && e@ == f,
            }
        }),
    decreases vsize(v@),
{
    let ghost atv = values_view(at_path@);
    match v {
        HoconValue::PathSubstitution { target, .. } => {
            let p = to_path(target);
            match find_key(tree, strict, &p) {
                Ok(found) => {
                    match found {
                        Node::Leaf(HoconValue::BadValue(_)) => Ok(Node::Leaf(clone_value(v))),
                        other => Ok(other),
                    }
                },
                Err(_) => Ok(Node::Leaf(clone_value(v))),
            }
        },
        HoconValue::Concat(items) => {
            let ghost itemsv = values_view(items@);
            proof {
                lemma_values_view(items@);
            }
            let mut nodes: Vec<Node> = Vec::new();
            let mut k: usize = 0;
            while k < items.len()
                invariant
                    0 <= k <= items@.len(),
                    subst_list_v(itemsv.take(k as int), strict, tree@, atv) matches Ok(ns)
                        && ns == nodes_view(nodes@),
                decreases items@.len() - k,
            {
                proof {
                    lemma_values_view(items@);
                    lemma_vsizes_bound(itemsv, k as int);
                    assert(vsize(v@) == 1 + vsizes(itemsv));
                }
                let ghost prefix_ok = subst_list_v(itemsv.take(k as int), strict, tree@, atv);
                let sub = substitute(&items[k], strict, tree, at_path);
                proof {
                    assert(itemsv.take(k as int + 1).drop_last() =~= itemsv.take(k as int));
                }
                match sub {
                    Ok(n) => {
                        let ghost pre = nodes@;
                        nodes.push(n);
                        proof {
                            assert(nodes@.drop_last() =~= pre);
                        }
                    },
                    Err(e) => {
                        if strict {
                            proof {
                                lemma_subst_list_err(
                                    itemsv,
                                    k as int + 1,
                                    strict,
                                    tree@,
                                    atv,
                                );
                                assert(itemsv.take(itemsv.len() as int) =~= itemsv);
                            }
                            return Err(e);
                        } else {
                            let ghost pre = nodes@;
                            nodes.push(Node::Leaf(HoconValue::BadValue(e)));
                            proof {
                                assert(nodes@.drop_last() =~= pre);
                            }
                        }
                    },
                }
                k = k + 1;
            }
            proof {
                assert(itemsv.take(items@.len() as int) =~= itemsv);
            }
            Ok(combine_nodes(nodes))
        },
        HoconValue::EmptyObject => Ok(
            Node::Branch { children: Vec::new(), key_hint: Some(KeyType::String) },
        ),
        HoconValue::EmptyArray => Ok(
            Node::Branch { children: Vec::new(), key_hint: Some(KeyType::Int) },
        ),
        HoconValue::Included { value, original_path, include_root } => {
            let rooted: Option<Node> = match &**value {
                HoconValue::PathSubstitution { target, .. } => rooted_lookup(
                    target,
                    original_path,
                    strict,
                    tree,
                    at_path,
                ),
                HoconValue::PathSubstitutionInParent(target) => rooted_lookup(
                    target,
                    original_path,
                    strict,
                    tree,
                    at_path,
                ),
                _ => None,
            };
            match rooted {
                Some(found) => Ok(found),
                None => {
                    match &**value {
                        HoconValue::Concat(items) => {
                            let ghost itemsv = values_view(items@);
                            let ghost opv = values_view(original_path@);
                            let ghost irv: Option<Seq<ValueV>> = match include_root {
                                Some(rr) => Some(values_view(rr@)),
                                None => None,
                            };
                            proof {
                                lemma_values_view(items@);
                                assert(vsize(v@) == 2 * vsize(ValueV::Concat(itemsv)) + 1);
                            }
                            let mut nodes: Vec<Node> = Vec::new();
                            let mut k: usize = 0;
                            while k < items.len()
                                invariant
                                    0 <= k <= items@.len(),
                                    subst_list_incl_v(
                                        itemsv.take(k as int),
                                        opv,
                                        irv,
                                        strict,
                                        tree@,
                                        atv,
                                    ) matches Ok(ns) && ns == nodes_view(nodes@),
                                decreases items@.len() - k,
                            {
                                proof {
                                    lemma_values_view(items@);
                                    lemma_vsizes_bound(itemsv, k as int);
                                }
                                let wrapped = HoconValue::Included {
                                    value: Box::new(clone_value(&items[k])),
                                    original_path: clone_values(original_path),
                                    include_root: match include_root {
                                        Some(rr) => Some(clone_values(rr)),
                                        None => None,
                                    },
                                };
                                proof {
                                    assert(wrapped@ == ValueV::Included {
                                        value: Box::new(itemsv[k as int]),
                                        original_path: opv,
                                        include_root: irv,
                                    });
                                    assert(vsize(wrapped@) == 2 * vsize(itemsv[k as int]) + 1);
                                }
                                let sub = substitute(&wrapped, strict, tree, at_path);
                                proof {
                                    assert(itemsv.take(k as int + 1).drop_last() =~= itemsv.take(
                                        k as int,
                                    ));
                                }
                                match sub {
                                    Ok(n) => {
                                        let ghost pre = nodes@;
                                        nodes.push(n);
                                        proof {
                                            assert(nodes@.drop_last() =~= pre);
                                        }
                                    },
                                    Err(e) => {
                                        if strict {
                                            proof {
                                                lemma_subst_list_incl_err(
                                                    itemsv,
                                                    k as int + 1,
                                                    opv,
                                                    irv,
                                                    strict,
                                                    tree@,
                                                    atv,
                                                );
                                                assert(itemsv.take(itemsv.len() as int)
                                                    =~= itemsv);
                                            }
                                            return Err(e);
                                        } else {
                                            let ghost pre = nodes@;
                                            nodes.push(Node::Leaf(HoconValue::BadValue(e)));
                                            proof {
                                                assert(nodes@.drop_last() =~= pre);
                                            }
                                        }
                                    },
                                }
                                k = k + 1;
                            }
                            proof {
                                assert(itemsv.take(items@.len() as int) =~= itemsv);
                            }
                            Ok(combine_nodes(nodes))
                        },
                        inner => {
                            proof {
                                assert(vsize(v@) == 2 * vsize(inner@) + 1);
                            }
                            let sub = substitute(inner, strict, tree, at_path);
                            match sub {
                                Ok(n) => {
                                    match n {
                                        Node::Leaf(found) => Ok(
                                            Node::Leaf(
                                                HoconValue::Included {
                                                    value: Box::new(found),
                                                    original_path: clone_values(original_path),
                                                    include_root: match include_root {
                                                        Some(rr) => Some(clone_values(rr)),
                                                        None => None,
                                                    },
                                                },
                                            ),
                                        ),
                                        other => Ok(other),
                                    }
                                },
                                Err(e) => Err(e),
                            }
                        },
                    }
                },
            }
        },
        other => Ok(Node::Leaf(clone_value(other))),
    }
}

} // verus!
