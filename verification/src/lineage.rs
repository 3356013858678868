//! Column lineage: the direct dependency graph over the indexed columns —
//! calculated columns depend on the columns their expressions reference,
//! relationship-bearing columns on the columns of their join condition — and
//! its check for cycles, witnessed by a topological order.

use vstd::prelude::*;
use vstd::pervasive::VecAdditionalExecFns;

use crate::ident::expression_identifiers;
use crate::text::str_eq;
use crate::manifest::RelationshipV;
use crate::ColumnReference;
use crate::ColumnReferenceV;
use crate::Dataset;
use crate::DatasetV;
use crate::QualifiedName;
use crate::QualifiedNameV;
use crate::WrenMDL;

verus! {

/// Every edge points at a node of the graph.
pub open spec fn edges_wf(deps: Seq<Vec<usize>>) -> bool {
    forall|i: int, j: int|
        0 <= i < deps.len() && 0 <= j < deps[i]@.len() ==> (#[trigger] deps[i]@[j]) < deps.len()
}

/// Node `d` is listed before position `p` of the order.
pub open spec fn listed_before(order: Seq<usize>, p: int, d: usize) -> bool {
    exists|q: int| 0 <= q < p && (#[trigger] order[q]) == d
}

/// Node at position `p` of the order comes after all its dependencies.
pub open spec fn comes_after_deps(deps: Seq<Vec<usize>>, order: Seq<usize>, p: int) -> bool {
    forall|e: int|
        0 <= e < deps[order[p] as int]@.len() ==> #[trigger] listed_before(
            order,
            p,
            deps[order[p] as int]@[e],
        )
}

/// `order` lists every node exactly once, each after all its dependencies:
/// the witness that the dependency graph is acyclic.
pub open spec fn is_topological_order(deps: Seq<Vec<usize>>, order: Seq<usize>) -> bool {
    &&& order.len() == deps.len()
    &&& forall|p: int, q: int| 0 <= p < q < order.len() ==> order[p] != order[q]
    &&& forall|p: int| 0 <= p < order.len() ==> (#[trigger] order[p]) < deps.len()
    &&& forall|p: int| 0 <= p < order.len() ==> #[trigger] comes_after_deps(deps, order, p)
}

/// Node at position `p` of `rem` depends on some node of `rem`.
pub open spec fn has_dep_in(deps: Seq<Vec<usize>>, rem: Seq<usize>, p: int) -> bool {
    exists|e: int, q: int|
        0 <= e < deps[rem[p] as int]@.len() && 0 <= q < rem.len() && (#[trigger] rem[q]) == (
        #[trigger] deps[rem[p] as int]@[e])
}

/// A non-empty set of nodes each of which depends on another of them: such a
/// set contains a dependency cycle.
pub open spec fn stuck_set(deps: Seq<Vec<usize>>, rem: Seq<usize>) -> bool {
    &&& rem.len() > 0
    &&& forall|p: int| 0 <= p < rem.len() ==> (#[trigger] rem[p]) < deps.len()
    &&& forall|p: int| 0 <= p < rem.len() ==> #[trigger] has_dep_in(deps, rem, p)
}

/// Does the order list node `k`?
pub open spec fn order_contains(order: Seq<usize>, k: int) -> bool {
    exists|p: int| 0 <= p < order.len() && #[trigger] order[p] as int == k
}

/// The running state of the elimination: `order` holds the nodes removed so
/// far, each after its dependencies, and `removed` marks exactly those.
pub open spec fn elimination_wf(deps: Seq<Vec<usize>>, order: Seq<usize>, removed: Seq<
    bool,
>) -> bool {
    &&& removed.len() == deps.len()
    &&& forall|p: int, q: int| 0 <= p < q < order.len() ==> order[p] != order[q]
    &&& forall|p: int| 0 <= p < order.len() ==> (#[trigger] order[p]) < deps.len()
    &&& forall|k: int| 0 <= k < deps.len() ==> (removed[k] <==> #[trigger] order_contains(order, k))
    &&& forall|p: int| 0 <= p < order.len() ==> #[trigger] comes_after_deps(deps, order, p)
}

/// A sequence of distinct values below `n` that covers all of `0..n` has at
/// least `n` elements.
proof fn lemma_covering_order_len(order: Seq<usize>, n: int)
    requires
        0 <= n,
        forall|p: int| 0 <= p < order.len() ==> (#[trigger] order[p]) < n,
        forall|p: int, q: int| 0 <= p < q < order.len() ==> order[p] != order[q],
        forall|k: int| 0 <= k < n ==> #[trigger] order_contains(order, k),
    ensures
        order.len() >= n,
{
    broadcast use vstd::seq_lib::seq_to_set_is_finite;
    broadcast use vstd::set::group_set_axioms;

    let ints = order.map_values(|v: usize| v as int);
    ints.lemma_cardinality_of_set();
    vstd::set_lib::lemma_int_range(0, n);
    assert forall|k: int| vstd::set_lib::set_int_range(0, n).contains(k) implies ints.to_set()
        .contains(k) by {
        assert(order_contains(order, k));
        let p = choose|p: int| 0 <= p < order.len() && order[p] as int == k;
        assert(ints[p] == k);
        assert(ints.contains(k));
    }
    assert(vstd::set_lib::set_int_range(0, n).subset_of(ints.to_set()));
    vstd::set_lib::lemma_len_subset(vstd::set_lib::set_int_range(0, n), ints.to_set());
}

/// A sequence of distinct values below `n` has at most `n` elements.
proof fn lemma_distinct_order_bound(order: Seq<usize>, n: int)
    requires
        0 <= n,
        forall|p: int| 0 <= p < order.len() ==> (#[trigger] order[p]) < n,
        forall|p: int, q: int| 0 <= p < q < order.len() ==> order[p] != order[q],
    ensures
        order.len() <= n,
{
    broadcast use vstd::seq_lib::seq_to_set_is_finite;
    broadcast use vstd::set::group_set_axioms;

    let ints = order.map_values(|v: usize| v as int);
    assert(ints.no_duplicates()) by {
        assert forall|i: int, j: int|
            0 <= i < ints.len() && 0 <= j < ints.len() && i != j implies ints[i] != ints[j] by {
            if i < j {
                assert(order[i] != order[j]);
            } else {
                assert(order[j] != order[i]);
            }
        }
    }
    ints.unique_seq_to_set();
    vstd::set_lib::lemma_int_range(0, n);
    assert forall|x: int| ints.to_set().contains(x) implies vstd::set_lib::set_int_range(
        0,
        n,
    ).contains(x) by {
        assert(ints.contains(x));
        let i = choose|i: int| 0 <= i < ints.len() && ints[i] == x;
        assert(order[i] < n);
    }
    assert(ints.to_set().subset_of(vstd::set_lib::set_int_range(0, n)));
    vstd::set_lib::lemma_len_subset(ints.to_set(), vstd::set_lib::set_int_range(0, n));
}

/// Are all of node `k`'s dependencies already removed?
#[verifier::loop_isolation(false)]
fn all_deps_removed(deps: &Vec<Vec<usize>>, removed: &Vec<bool>, k: usize) -> (r: bool)
    requires
        k < deps@.len(),
        edges_wf(deps@),
        removed@.len() == deps@.len(),
    ensures
        r == forall|e: int|
            0 <= e < deps@[k as int]@.len() ==> removed@[#[trigger] deps@[k as int]@[e] as int],
{
    let edges = &deps[k];
    let mut e: usize = 0;
    while e < edges.len()
        invariant
            e <= edges.len(),
            edges@ == deps@[k as int]@,
            forall|e2: int| 0 <= e2 < e ==> removed@[#[trigger] deps@[k as int]@[e2] as int],
        decreases edges.len() - e,
    {
        if !removed[edges[e]] {
            return false;
        }
        e += 1;
    }
    true
}

/// Orders the nodes of a dependency graph so that every node comes after all
/// its dependencies, or returns a non-empty set of nodes each depending on
/// another of the set — the witness of a dependency cycle.
#[verifier::loop_isolation(false)]
pub fn topological_order(deps: &Vec<Vec<usize>>) -> (r: Result<Vec<usize>, Vec<usize>>)
    requires
        edges_wf(deps@),
    ensures
        r matches Ok(order) ==> is_topological_order(deps@, order@),
        r matches Err(rem) ==> stuck_set(deps@, rem@),
{
    let n = deps.len();
    let mut removed: Vec<bool> = Vec::new();
    let mut z: usize = 0;
    while z < n
        invariant
            z <= n,
            removed@.len() == z,
            forall|y: int| 0 <= y < z ==> !removed@[y],
        decreases n - z,
    {
        removed.push(false);
        z += 1;
    }
    proof {
        assert forall|k2: int| 0 <= k2 < n implies (removed@[k2] <==> order_contains(
            Seq::<usize>::empty(),
            k2,
        )) by {
            assert(!removed@[k2]);
        }
    }
    let mut order: Vec<usize> = Vec::new();
    proof {
        assert(order@ =~= Seq::<usize>::empty());
    }
    loop
        invariant
            removed@.len() == n,
            order@.len() <= n,
            elimination_wf(deps@, order@, removed@),
        decreases n - order@.len(),
    {
        if order.len() == n {
            return Ok(order);
        }
        let ghost start_len = order@.len();
        let mut progress = false;
        let mut k: usize = 0;
        while k < n
            invariant
                k <= n,
                removed@.len() == n,
                order@.len() <= n,
                elimination_wf(deps@, order@, removed@),
                start_len <= order@.len(),
                progress ==> order@.len() > start_len,
                !progress ==> order@.len() == start_len,
                !progress ==> forall|k2: int|
                    0 <= k2 < k && !removed@[k2] ==> exists|e: int|
                        0 <= e < deps@[k2]@.len() && !removed@[#[trigger] deps@[k2]@[e] as int],
            decreases n - k,
        {
            if !removed[k] && all_deps_removed(deps, &removed, k) {
                let ghost old_order = order@;
                let ghost old_removed = removed@;
                removed.set(k, true);
                order.push(k);
                progress = true;
                proof {
                    assert forall|k2: int| 0 <= k2 < n implies (removed@[k2]
                        <==> order_contains(order@, k2)) by {
                        if k2 == k {
                            assert(order@[order@.len() - 1] as int == k2);
                            assert(order_contains(order@, k2));
                        } else {
                            assert(removed@[k2] == old_removed[k2]);
                            if old_removed[k2] {
                                assert(order_contains(old_order, k2));
                                let p = choose|p: int|
                                    0 <= p < old_order.len() && old_order[p] as int == k2;
                                assert(order@[p] as int == k2);
                                assert(order_contains(order@, k2));
                            } else {
                                if order_contains(order@, k2) {
                                    let p = choose|p: int|
                                        0 <= p < order@.len() && order@[p] as int == k2;
                                    if p < old_order.len() {
                                        assert(old_order[p] as int == k2);
                                        assert(order_contains(old_order, k2));
                                        assert(false);
                                    } else {
                                        assert(order@[p] == k);
                                        assert(false);
                                    }
                                }
                            }
                        }
                    }
                    assert forall|p: int, q: int|
                        0 <= p < q < order@.len() implies order@[p] != order@[q] by {
                        if q < old_order.len() {
                            assert(order@[p] == old_order[p]);
                            assert(order@[q] == old_order[q]);
                        } else {
                            assert(order@[q] == k);
                            assert(order@[p] == old_order[p]);
                            if old_order[p] as int == k as int {
                                assert(order_contains(old_order, k as int));
                                assert(false);
                            }
                        }
                    }
                    lemma_distinct_order_bound(order@, n as int);
                    assert forall|p: int| 0 <= p < order@.len() implies #[trigger] comes_after_deps(
                        deps@,
                        order@,
                        p,
                    ) by {
                        if p < old_order.len() {
                            assert(comes_after_deps(deps@, old_order, p));
                            assert(order@[p] == old_order[p]);
                            assert forall|e: int|
                                0 <= e < deps@[order@[p] as int]@.len() implies #[trigger] listed_before(
                                order@,
                                p,
                                deps@[order@[p] as int]@[e],
                            ) by {
                                assert(0 <= e < deps@[old_order[p] as int]@.len());
                                assert(listed_before(old_order, p, deps@[old_order[p] as int]@[e]));
                                let q = choose|q: int|
                                    0 <= q < p && old_order[q] == deps@[old_order[p] as int]@[e];
                                assert(order@[q] == deps@[order@[p] as int]@[e]);
                                assert(listed_before(order@, p, deps@[order@[p] as int]@[e]));
                            }
                        } else {
                            assert(order@[p] == k);
                            assert forall|e: int|
                                0 <= e < deps@[order@[p] as int]@.len() implies #[trigger] listed_before(
                                order@,
                                p,
                                deps@[order@[p] as int]@[e],
                            ) by {
                                let d = deps@[k as int]@[e];
                                assert(old_removed[d as int]);
                                assert(order_contains(old_order, d as int));
                                let q = choose|q: int|
                                    0 <= q < old_order.len() && old_order[q] as int == d as int;
                                assert(order@[q] == old_order[q]);
                                assert(order@[q] == deps@[order@[p] as int]@[e]);
                                assert(listed_before(order@, p, deps@[order@[p] as int]@[e]));
                            }
                        }
                    }
                }
            }
            k += 1;
        }
        if !progress {
            let ghost final_removed = removed@;
            let mut rem: Vec<usize> = Vec::new();
            let mut y: usize = 0;
            while y < n
                invariant
                    y <= n,
                    removed@ == final_removed,
                    removed@.len() == n,
                    forall|q: int|
                        0 <= q < rem@.len() ==> (#[trigger] rem@[q]) < n && !removed@[rem@[q] as int],
                    forall|y2: int|
                        0 <= y2 < y && !removed@[y2] ==> exists|q: int|
                            0 <= q < rem@.len() && #[trigger] rem@[q] as int == y2,
                decreases n - y,
            {
                let ghost old_rem = rem@;
                if !removed[y] {
                    rem.push(y);
                }
                proof {
                    assert forall|y2: int| 0 <= y2 < y + 1 && !removed@[y2] implies exists|q: int|
                        0 <= q < rem@.len() && #[trigger] rem@[q] as int == y2 by {
                        if y2 == y {
                            assert(rem@ == old_rem.push(y));
                            assert(rem@[rem@.len() - 1] as int == y2);
                        } else {
                            let q = choose|q: int|
                                0 <= q < old_rem.len() && #[trigger] old_rem[q] as int == y2;
                            assert(rem@[q] as int == y2);
                        }
                    }
                }
                y += 1;
            }
            if rem.len() == 0 {
                proof {
                    assert(forall|k2: int| 0 <= k2 < n ==> removed@[k2]);
                    assert forall|k2: int| 0 <= k2 < n implies #[trigger] order_contains(
                        order@,
                        k2,
                    ) by {
                        assert(removed@[k2]);
                    }
                    lemma_covering_order_len(order@, n as int);
                    assert(false);
                }
            }
            proof {
                assert forall|p: int| 0 <= p < rem@.len() implies #[trigger] has_dep_in(
                    deps@,
                    rem@,
                    p,
                ) by {
                    let x = rem@[p] as int;
                    assert(!removed@[x]);
                    let e = choose|e: int|
                        0 <= e < deps@[x]@.len() && !removed@[#[trigger] deps@[x]@[e] as int];
                    let d = deps@[x]@[e];
                    assert(d < n);
                    assert(!removed@[d as int]);
                    let q = choose|q: int| 0 <= q < rem@.len() && rem@[q] as int == d as int;
                    assert(0 <= e < deps@[rem@[p] as int]@.len() && 0 <= q < rem@.len() && rem@[q]
                        == deps@[rem@[p] as int]@[e]);
                }
            }
            return Err(rem);
        }
    }
}


/// An error detected while resolving lineage.
#[derive(Debug)]
pub enum LineageError {
    /// Columns caught in a dependency cycle, by qualified name.
    Cycle(Vec<String>),
    /// A relationship name that resolves to nothing.
    UnresolvedReference(String),
}

/// Keeps every element of a pushed-to sequence below the bound.
proof fn lemma_push_bound(s: Seq<usize>, v: usize, n: int)
    requires
        forall|j: int| 0 <= j < s.len() ==> (#[trigger] s[j]) < n,
        v < n,
    ensures
        forall|j: int| 0 <= j < s.push(v).len() ==> (#[trigger] s.push(v)[j]) < n,
{
    assert forall|j: int| 0 <= j < s.push(v).len() implies (#[trigger] s.push(v)[j]) < n by {
        if j < s.len() {
            assert(s.push(v)[j] == s[j]);
        } else {
            assert(s.push(v)[j] == v);
        }
    }
}

/// The first index entry of the given dataset and column name, if any.
pub open spec fn spec_find_entry(
    entries: Seq<(QualifiedNameV, ColumnReferenceV)>,
    dataset: Seq<char>,
    column: Seq<char>,
) -> Option<int>
    decreases entries.len(),
{
    if entries.len() == 0 {
        None
    } else if entries[0].0.dataset == dataset && entries[0].0.column == column {
        Some(0)
    } else {
        match spec_find_entry(entries.drop_first(), dataset, column) {
            Some(i) => Some(i + 1),
            None => None,
        }
    }
}

/// Positions found by the first-match search are in range and match.
pub proof fn lemma_spec_find_entry(
    entries: Seq<(QualifiedNameV, ColumnReferenceV)>,
    dataset: Seq<char>,
    column: Seq<char>,
)
    ensures
        spec_find_entry(entries, dataset, column) matches Some(i) ==> 0 <= i < entries.len()
            && entries[i].0.dataset == dataset && entries[i].0.column == column,
    decreases entries.len(),
{
    if entries.len() > 0 {
        lemma_spec_find_entry(entries.drop_first(), dataset, column);
    }
}

/// First index entry of the given dataset and column name.
#[verifier::loop_isolation(false)]
fn find_entry(
    entries: &Vec<(QualifiedName, ColumnReference)>,
    dataset: &str,
    column: &str,
) -> (r: Option<usize>)
    ensures
        r matches Some(i) ==> i < entries@.len() && spec_find_entry(
            entries.deep_view(),
            dataset@,
            column@,
        ) == Some(i as int),
        r is None ==> spec_find_entry(entries.deep_view(), dataset@, column@) is None,
{
    let ghost full = entries.deep_view();
    let mut k: usize = 0;
    proof {
        assert(full.skip(0) =~= full);
        lemma_spec_find_entry(full, dataset@, column@);
    }
    while k < entries.len()
        invariant
            k <= entries.len(),
            (match spec_find_entry(full, dataset@, column@) {
                Some(i) => k <= i && spec_find_entry(full.skip(k as int), dataset@, column@)
                    == Some(i - k),
                None => spec_find_entry(full.skip(k as int), dataset@, column@) is None,
            }),
        decreases entries.len() - k,
    {
        proof {
            assert(full[k as int] == entries@[k as int].deep_view());
            assert(full.skip(k as int)[0] == full[k as int]);
            assert(full.skip(k as int).drop_first() =~= full.skip(k + 1));
            lemma_spec_find_entry(full.skip(k as int), dataset@, column@);
            lemma_spec_find_entry(full.skip(k + 1), dataset@, column@);
        }
        if str_eq(entries[k].0.dataset.as_str(), dataset) && str_eq(
            entries[k].0.column.as_str(),
            column,
        ) {
            proof {
                assert(spec_find_entry(full.skip(k as int), dataset@, column@) == Some(0int));
            }
            return Some(k);
        }
        k += 1;
    }
    proof {
        assert(full.skip(entries.len() as int) =~= Seq::<(QualifiedNameV, ColumnReferenceV)>::empty());
    }
    None
}

/// A column that is calculated and carries no relationship: its expression
/// resolves against its own dataset.
pub open spec fn is_plain_calculated(entry: (QualifiedNameV, ColumnReferenceV)) -> bool {
    entry.1.column.relationship is None && entry.1.column.is_calculated
}

/// A column that is neither calculated nor relationship-bearing: a leaf of
/// the dependency graph.
pub open spec fn is_leaf_column(entry: (QualifiedNameV, ColumnReferenceV)) -> bool {
    entry.1.column.relationship is None && !entry.1.column.is_calculated
}

/// The expression text of an entry's column, or empty.
pub open spec fn expr_of(entry: (QualifiedNameV, ColumnReferenceV)) -> Seq<char> {
    match entry.1.column.expression {
        Some(e) => e,
        None => Seq::<char>::empty(),
    }
}

/// Where a calculated column's expression tokens resolve: the column's own
/// dataset for a model column, the base model for a metric column.
pub open spec fn resolution_dataset(entry: (QualifiedNameV, ColumnReferenceV)) -> Seq<char> {
    match entry.1.dataset {
        DatasetV::Model(_) => entry.0.dataset,
        DatasetV::Metric(m) => m.base_object,
    }
}

/// The identifier tokens of an entry's expression.
pub open spec fn calc_tokens(entries: Seq<(QualifiedNameV, ColumnReferenceV)>, k: int) -> Seq<
    Seq<char>,
> {
    crate::ident::expression_idents(expr_of(entries[k]), 0)
}

/// Is `j` listed among the edges?
pub open spec fn edge_listed(edges: Seq<usize>, j: int) -> bool {
    exists|w: int| 0 <= w < edges.len() && (#[trigger] edges[w]) as int == j
}

/// Every expression token of calculated column `k` that resolves in its
/// dataset is listed among the column's edges.
pub open spec fn calc_edges_complete(
    entries: Seq<(QualifiedNameV, ColumnReferenceV)>,
    edges: Seq<usize>,
    k: int,
) -> bool {
    forall|t: int|
        0 <= t < calc_tokens(entries, k).len() ==> (match spec_find_entry(
            entries,
            resolution_dataset(entries[k]),
            #[trigger] calc_tokens(entries, k)[t],
        ) {
            Some(j) => edge_listed(edges, j),
            None => true,
        })
}

/// The relationship a relationship-bearing entry names, resolved among the
/// manifest's relationships.
pub open spec fn entry_relationship(
    entries: Seq<(QualifiedNameV, ColumnReferenceV)>,
    relationships: Seq<RelationshipV>,
    k: int,
) -> Option<RelationshipV> {
    match entries[k].1.column.relationship {
        Some(rn) => crate::find_relationship(relationships, rn),
        None => None,
    }
}

/// The identifier tokens of a relationship's join condition.
pub open spec fn condition_tokens(rel: RelationshipV) -> Seq<Seq<char>> {
    crate::ident::expression_idents(rel.condition, 0)
}

/// Every condition token of relationship-bearing column `k` that resolves
/// in one of the relationship's models is listed among the column's edges.
pub open spec fn rel_edges_complete(
    entries: Seq<(QualifiedNameV, ColumnReferenceV)>,
    relationships: Seq<RelationshipV>,
    edges: Seq<usize>,
    k: int,
) -> bool {
    match entry_relationship(entries, relationships, k) {
        Some(rel) => forall|mi: int, t: int|
            0 <= mi < rel.models.len() && 0 <= t < condition_tokens(rel).len() ==> (
            match spec_find_entry(
                entries,
                #[trigger] rel.models[mi],
                #[trigger] condition_tokens(rel)[t],
            ) {
                Some(j) => edge_listed(edges, j),
                None => true,
            }),
        None => true,
    }
}

/// A dependency reached through a relationship hop: token `t` of calculated
/// column `k` names a relationship-bearing column, and the following token
/// resolves to entry `j` in another model of that relationship.
pub open spec fn hop_edge(
    entries: Seq<(QualifiedNameV, ColumnReferenceV)>,
    relationships: Seq<RelationshipV>,
    k: int,
    t: int,
    j: int,
) -> bool {
    &&& 0 <= t
    &&& t + 1 < calc_tokens(entries, k).len()
    &&& (match spec_find_entry(entries, resolution_dataset(entries[k]), calc_tokens(entries, k)[t]) {
        Some(idx) => (match entries[idx].1.column.relationship {
            Some(rn) => (match crate::find_relationship(relationships, rn) {
                Some(rel) => exists|mi: int|
                    0 <= mi < rel.models.len() && (#[trigger] rel.models[mi])
                        != resolution_dataset(entries[k]) && spec_find_entry(
                        entries,
                        rel.models[mi],
                        calc_tokens(entries, k)[t + 1],
                    ) == Some(j),
                None => false,
            }),
            None => false,
        }),
        None => false,
    })
}

/// An edge the resolver is entitled to draw from column `k` to column `j`:
/// for a relationship-bearing column, a condition token resolved in one of
/// the relationship's models; for a calculated column, an expression token
/// resolved in its own dataset, or a relationship hop through a column its
/// expression names.
pub open spec fn depends_on(
    entries: Seq<(QualifiedNameV, ColumnReferenceV)>,
    relationships: Seq<RelationshipV>,
    k: int,
    j: int,
) -> bool {
    ||| (match entry_relationship(entries, relationships, k) {
        Some(rel) => exists|mi: int, t: int|
            0 <= mi < rel.models.len() && 0 <= t < condition_tokens(rel).len()
                && spec_find_entry(
                entries,
                #[trigger] rel.models[mi],
                #[trigger] condition_tokens(rel)[t],
            ) == Some(j),
        None => false,
    })
    ||| (is_plain_calculated(entries[k]) && exists|t: int|
        0 <= t < calc_tokens(entries, k).len() && spec_find_entry(
            entries,
            resolution_dataset(entries[k]),
            #[trigger] calc_tokens(entries, k)[t],
        ) == Some(j))
    ||| (is_plain_calculated(entries[k]) && exists|t: int|
        #[trigger] hop_edge(entries, relationships, k, t, j))
}

/// Every listed edge is one the resolver is entitled to draw.
pub open spec fn edges_justified(
    entries: Seq<(QualifiedNameV, ColumnReferenceV)>,
    relationships: Seq<RelationshipV>,
    edges: Seq<usize>,
    k: int,
) -> bool {
    forall|w: int|
        0 <= w < edges.len() ==> depends_on(
            entries,
            relationships,
            k,
            (#[trigger] edges[w]) as int,
        )
}

/// Some column's relationship field names `n`, and no relationship of that
/// name exists: the witness behind an unresolved-reference error.
pub open spec fn unresolved_relationship(
    entries: Seq<(QualifiedNameV, ColumnReferenceV)>,
    relationships: Seq<RelationshipV>,
    n: Seq<char>,
) -> bool {
    exists|k: int|
        0 <= k < entries.len() && (#[trigger] entries[k]).1.column.relationship == Some(n)
            && crate::find_relationship(relationships, n) is None
}

/// The short qualified name `dataset.column` of an index entry.
pub open spec fn entry_qualified_name(entry: (QualifiedNameV, ColumnReferenceV)) -> Seq<char> {
    entry.1.dataset.name() + "."@ + entry.1.column.name
}

/// The column at position `p` of `rem` depends on some column of `rem`.
pub open spec fn member_depends_in(
    entries: Seq<(QualifiedNameV, ColumnReferenceV)>,
    relationships: Seq<RelationshipV>,
    rem: Seq<usize>,
    p: int,
) -> bool {
    exists|q: int|
        0 <= q < rem.len() && depends_on(
            entries,
            relationships,
            rem[p] as int,
            (#[trigger] rem[q]) as int,
        )
}

/// `rem` is a non-empty set of columns each of which depends on another
/// column of the set, and `names` are exactly their qualified names.
pub open spec fn cycle_witness_set(
    entries: Seq<(QualifiedNameV, ColumnReferenceV)>,
    relationships: Seq<RelationshipV>,
    names: Seq<Seq<char>>,
    rem: Seq<usize>,
) -> bool {
    &&& rem.len() == names.len()
    &&& rem.len() > 0
    &&& forall|p: int| 0 <= p < rem.len() ==> (#[trigger] rem[p]) < entries.len()
    &&& forall|p: int|
        0 <= p < rem.len() ==> #[trigger] member_depends_in(entries, relationships, rem, p)
    &&& forall|p: int|
        0 <= p < rem.len() ==> names[p] == entry_qualified_name(
            entries[(#[trigger] rem[p]) as int],
        )
}

/// The names are the qualified names of a non-empty set of columns each of
/// which depends on another column of the set: the witness behind a cycle
/// error.
pub open spec fn cycle_witness(
    entries: Seq<(QualifiedNameV, ColumnReferenceV)>,
    relationships: Seq<RelationshipV>,
    names: Seq<Seq<char>>,
) -> bool {
    exists|rem: Seq<usize>| #[trigger] cycle_witness_set(entries, relationships, names, rem)
}

/// The edges of one calculated column: every token of its expression that
/// resolves in its dataset, and, through a relationship-bearing column it
/// names, the following token resolved in the related dataset.
#[verifier::loop_isolation(false)]
fn calculated_edges(mdl: &WrenMDL, k: usize) -> (r: Result<Vec<usize>, LineageError>)
    requires
        k < mdl.qualified_references@.len(),
        is_plain_calculated(mdl.qualified_references.deep_view()[k as int]),
    ensures
        r matches Ok(edges) ==> ({
            &&& forall|j: int|
                0 <= j < edges@.len() ==> (#[trigger] edges@[j]) < mdl.qualified_references@.len()
            &&& calc_edges_complete(mdl.qualified_references.deep_view(), edges@, k as int)
            &&& edges_justified(
                mdl.qualified_references.deep_view(),
                mdl.manifest@.relationships,
                edges@,
                k as int,
            )
        }),
        r matches Err(e) ==> e matches LineageError::UnresolvedReference(n)
            && unresolved_relationship(
            mdl.qualified_references.deep_view(),
            mdl.manifest@.relationships,
            n@,
        ),
{
    let entries = &mdl.qualified_references;
    let n = entries.len();
    let ghost entriesv = entries.deep_view();
    let ghost relsv = mdl.manifest@.relationships;
    proof {
        assert(entriesv[k as int] == entries@[k as int].deep_view());
    }
    let mut edges: Vec<usize> = Vec::new();
    let expr = match &entries[k].1.column.expression {
        Some(e) => e,
        None => {
            proof {
                assert(expr_of(entriesv[k as int]) =~= Seq::<char>::empty());
                assert(calc_tokens(entriesv, k as int).len() == 0);
            }
            return Ok(edges);
        },
    };
    proof {
        assert(expr@ == expr_of(entriesv[k as int]));
    }
    let tokens = expression_identifiers(expr.as_str());
    proof {
        assert(tokens.deep_view() == calc_tokens(entriesv, k as int));
    }
    let target: &str = match &entries[k].1.dataset {
        Dataset::Model(_) => entries[k].0.dataset.as_str(),
        Dataset::Metric(m) => m.base_object.as_str(),
    };
    proof {
        assert(target@ == resolution_dataset(entriesv[k as int]));
    }
    let mut tj: usize = 0;
    while tj < tokens.len()
        invariant
            tj <= tokens@.len(),
            forall|j: int| 0 <= j < edges@.len() ==> (#[trigger] edges@[j]) < n,
            edges_justified(entriesv, relsv, edges@, k as int),
            forall|t: int|
                0 <= t < tj ==> (match spec_find_entry(
                    entriesv,
                    resolution_dataset(entriesv[k as int]),
                    #[trigger] calc_tokens(entriesv, k as int)[t],
                ) {
                    Some(j) => edge_listed(edges@, j),
                    None => true,
                }),
        decreases tokens@.len() - tj,
    {
        proof {
            assert(tokens@[tj as int]@ == calc_tokens(entriesv, k as int)[tj as int]);
        }
        if let Some(idx) = find_entry(entries, target, tokens[tj].as_str()) {
            let ghost edges0 = edges@;
            proof {
                lemma_push_bound(edges@, idx, n as int);
            }
            edges.push(idx);
            proof {
                assert(edges@[edges@.len() - 1] == idx);
                assert(edge_listed(edges@, idx as int));
                assert(exists|t: int|
                    0 <= t < calc_tokens(entriesv, k as int).len() && spec_find_entry(
                        entriesv,
                        resolution_dataset(entriesv[k as int]),
                        #[trigger] calc_tokens(entriesv, k as int)[t],
                    ) == Some(idx as int));
                assert(depends_on(entriesv, relsv, k as int, idx as int));
                assert forall|w: int| 0 <= w < edges@.len() implies depends_on(
                    entriesv,
                    relsv,
                    k as int,
                    (#[trigger] edges@[w]) as int,
                ) by {
                    if w < edges0.len() {
                        assert(edges@[w] == edges0[w]);
                    } else {
                        assert(edges@[w] == idx);
                    }
                }
                assert forall|t: int|
                    0 <= t < tj && (match spec_find_entry(
                        entriesv,
                        resolution_dataset(entriesv[k as int]),
                        #[trigger] calc_tokens(entriesv, k as int)[t],
                    ) {
                        Some(j) => true,
                        None => false,
                    }) implies edge_listed(
                    edges@,
                    spec_find_entry(
                        entriesv,
                        resolution_dataset(entriesv[k as int]),
                        calc_tokens(entriesv, k as int)[t],
                    ).unwrap(),
                ) by {
                    let j = spec_find_entry(
                        entriesv,
                        resolution_dataset(entriesv[k as int]),
                        calc_tokens(entriesv, k as int)[t],
                    ).unwrap();
                    let w = choose|w: int|
                        0 <= w < edges0.len() && (#[trigger] edges0[w]) as int == j;
                    assert(edges@[w] == edges0[w]);
                }
            }
            if tj + 1 < tokens.len() {
                if let Some(rn) = &entries[idx].1.column.relationship {
                    proof {
                        assert(entriesv[idx as int] == entries@[idx as int].deep_view());
                        assert(entriesv[idx as int].1.column.relationship == Some(rn@));
                    }
                    let rel = match mdl.get_relationship(rn.as_str()) {
                        Some(r) => r,
                        None => {
                            proof {
                                assert(unresolved_relationship(entriesv, relsv, rn@));
                            }
                            return Err(LineageError::UnresolvedReference(rn.clone()));
                        },
                    };
                    let ghost relv = rel.deep_view();
                    proof {
                        assert(crate::find_relationship(relsv, rn@) == Some(relv));
                    }
                    let mut mi: usize = 0;
                    while mi < rel.models.len()
                        invariant
                            forall|j: int| 0 <= j < edges@.len() ==> (#[trigger] edges@[j]) < n,
                            edges_justified(entriesv, relsv, edges@, k as int),
                            forall|t: int|
                                0 <= t < tj + 1 ==> (match spec_find_entry(
                                    entriesv,
                                    resolution_dataset(entriesv[k as int]),
                                    #[trigger] calc_tokens(entriesv, k as int)[t],
                                ) {
                                    Some(j) => edge_listed(edges@, j),
                                    None => true,
                                }),
                        decreases rel.models.len() - mi,
                    {
                        if !str_eq(rel.models[mi].as_str(), target) {
                            if let Some(idx2) = find_entry(
                                entries,
                                rel.models[mi].as_str(),
                                tokens[tj + 1].as_str(),
                            ) {
                                let ghost edges1 = edges@;
                                proof {
                                    lemma_push_bound(edges@, idx2, n as int);
                                }
                                edges.push(idx2);
                                proof {
                                    assert(relv.models[mi as int] == rel.models@[mi as int]@);
                                    assert(relv.models[mi as int] != resolution_dataset(
                                        entriesv[k as int],
                                    ));
                                    assert(tokens@[tj + 1]@ == calc_tokens(entriesv, k as int)[tj
                                        + 1]);
                                    assert(exists|mi2: int|
                                        0 <= mi2 < relv.models.len() && (#[trigger] relv.models[
                                            mi2
                                        ]) != resolution_dataset(entriesv[k as int])
                                            && spec_find_entry(
                                            entriesv,
                                            relv.models[mi2],
                                            calc_tokens(entriesv, k as int)[tj + 1],
                                        ) == Some(idx2 as int));
                                    assert(hop_edge(entriesv, relsv, k as int, tj as int, idx2 as int));
                                    assert(exists|t: int|
                                        #[trigger] hop_edge(entriesv, relsv, k as int, t, idx2 as int));
                                    assert(depends_on(entriesv, relsv, k as int, idx2 as int));
                                    assert forall|w: int| 0 <= w < edges@.len() implies depends_on(
                                        entriesv,
                                        relsv,
                                        k as int,
                                        (#[trigger] edges@[w]) as int,
                                    ) by {
                                        if w < edges1.len() {
                                            assert(edges@[w] == edges1[w]);
                                        } else {
                                            assert(edges@[w] == idx2);
                                        }
                                    }
                                    assert forall|t: int|
                                        0 <= t < tj + 1 && (match spec_find_entry(
                                            entriesv,
                                            resolution_dataset(entriesv[k as int]),
                                            #[trigger] calc_tokens(entriesv, k as int)[t],
                                        ) {
                                            Some(j) => true,
                                            None => false,
                                        }) implies edge_listed(
                                        edges@,
                                        spec_find_entry(
                                            entriesv,
                                            resolution_dataset(entriesv[k as int]),
                                            calc_tokens(entriesv, k as int)[t],
                                        ).unwrap(),
                                    ) by {
                                        let j = spec_find_entry(
                                            entriesv,
                                            resolution_dataset(entriesv[k as int]),
                                            calc_tokens(entriesv, k as int)[t],
                                        ).unwrap();
                                        let w = choose|w: int|
                                            0 <= w < edges1.len() && (#[trigger] edges1[w]) as int
                                                == j;
                                        assert(edges@[w] == edges1[w]);
                                    }
                                }
                            }
                        }
                        mi += 1;
                    }
                }
            }
        }
        tj += 1;
    }
    Ok(edges)
}

/// The edges of one relationship-bearing column: every identifier token of
/// the relationship's join condition that resolves as a column of one of
/// the relationship's models.
#[verifier::loop_isolation(false)]
fn relationship_edges(mdl: &WrenMDL, k: usize) -> (r: Result<Vec<usize>, LineageError>)
    requires
        k < mdl.qualified_references@.len(),
        mdl.qualified_references.deep_view()[k as int].1.column.relationship is Some,
    ensures
        r matches Ok(edges) ==> ({
            &&& forall|j: int|
                0 <= j < edges@.len() ==> (#[trigger] edges@[j]) < mdl.qualified_references@.len()
            &&& rel_edges_complete(
                mdl.qualified_references.deep_view(),
                mdl.manifest@.relationships,
                edges@,
                k as int,
            )
            &&& edges_justified(
                mdl.qualified_references.deep_view(),
                mdl.manifest@.relationships,
                edges@,
                k as int,
            )
        }),
        r matches Err(e) ==> e matches LineageError::UnresolvedReference(n)
            && unresolved_relationship(
            mdl.qualified_references.deep_view(),
            mdl.manifest@.relationships,
            n@,
        ),
{
    let entries = &mdl.qualified_references;
    let n = entries.len();
    let ghost entriesv = entries.deep_view();
    let ghost relsv = mdl.manifest@.relationships;
    proof {
        assert(entriesv[k as int] == entries@[k as int].deep_view());
    }
    let mut edges: Vec<usize> = Vec::new();
    let rel_name = match &entries[k].1.column.relationship {
        Some(rn) => rn,
        None => {
            proof {
                assert(false);
            }
            return Ok(edges);
        },
    };
    proof {
        assert(entriesv[k as int].1.column.relationship == Some(rel_name@));
    }
    let rel = match mdl.get_relationship(rel_name.as_str()) {
        Some(r) => r,
        None => {
            proof {
                assert(unresolved_relationship(entriesv, relsv, rel_name@));
            }
            return Err(LineageError::UnresolvedReference(rel_name.clone()));
        },
    };
    let ghost relv = rel.deep_view();
    proof {
        assert(crate::find_relationship(relsv, rel_name@) == Some(relv));
        assert(entry_relationship(entriesv, relsv, k as int) == Some(relv));
    }
    let tokens = expression_identifiers(rel.condition.as_str());
    proof {
        assert(tokens.deep_view() == condition_tokens(relv));
    }
    let mut mi: usize = 0;
    while mi < rel.models.len()
        invariant
            mi <= rel.models@.len(),
            forall|j: int| 0 <= j < edges@.len() ==> (#[trigger] edges@[j]) < n,
            edges_justified(entriesv, relsv, edges@, k as int),
            forall|mi2: int, t: int|
                0 <= mi2 < mi && 0 <= t < condition_tokens(relv).len() ==> (match spec_find_entry(
                    entriesv,
                    #[trigger] relv.models[mi2],
                    #[trigger] condition_tokens(relv)[t],
                ) {
                    Some(j) => edge_listed(edges@, j),
                    None => true,
                }),
        decreases rel.models@.len() - mi,
    {
        proof {
            assert(relv.models[mi as int] == rel.models@[mi as int]@);
        }
        let mut tj: usize = 0;
        while tj < tokens.len()
            invariant
                tj <= tokens@.len(),
                forall|j: int| 0 <= j < edges@.len() ==> (#[trigger] edges@[j]) < n,
                edges_justified(entriesv, relsv, edges@, k as int),
                forall|mi2: int, t: int|
                    0 <= mi2 < mi && 0 <= t < condition_tokens(relv).len() ==> (
                    match spec_find_entry(
                        entriesv,
                        #[trigger] relv.models[mi2],
                        #[trigger] condition_tokens(relv)[t],
                    ) {
                        Some(j) => edge_listed(edges@, j),
                        None => true,
                    }),
                forall|t: int|
                    0 <= t < tj ==> (match spec_find_entry(
                        entriesv,
                        relv.models[mi as int],
                        #[trigger] condition_tokens(relv)[t],
                    ) {
                        Some(j) => edge_listed(edges@, j),
                        None => true,
                    }),
            decreases tokens@.len() - tj,
        {
            proof {
                assert(tokens@[tj as int]@ == condition_tokens(relv)[tj as int]);
            }
            if let Some(idx) = find_entry(entries, rel.models[mi].as_str(), tokens[tj].as_str()) {
                let ghost edges0 = edges@;
                proof {
                    lemma_push_bound(edges@, idx, n as int);
                }
                edges.push(idx);
                proof {
                    assert(edges@[edges@.len() - 1] == idx);
                    assert(edge_listed(edges@, idx as int));
                    assert(exists|mi3: int, t: int|
                        0 <= mi3 < relv.models.len() && 0 <= t < condition_tokens(relv).len()
                            && spec_find_entry(
                            entriesv,
                            #[trigger] relv.models[mi3],
                            #[trigger] condition_tokens(relv)[t],
                        ) == Some(idx as int));
                    assert(depends_on(entriesv, relsv, k as int, idx as int));
                    assert forall|w: int| 0 <= w < edges@.len() implies depends_on(
                        entriesv,
                        relsv,
                        k as int,
                        (#[trigger] edges@[w]) as int,
                    ) by {
                        if w < edges0.len() {
                            assert(edges@[w] == edges0[w]);
                        } else {
                            assert(edges@[w] == idx);
                        }
                    }
                    assert forall|mi2: int, t: int|
                        0 <= mi2 < mi + 1 && 0 <= t < (if mi2 == mi {
                            tj + 1
                        } else {
                            condition_tokens(relv).len() as int
                        }) && (match spec_find_entry(
                            entriesv,
                            #[trigger] relv.models[mi2],
                            #[trigger] condition_tokens(relv)[t],
                        ) {
                            Some(j) => true,
                            None => false,
                        }) implies edge_listed(
                        edges@,
                        spec_find_entry(
                            entriesv,
                            relv.models[mi2],
                            condition_tokens(relv)[t],
                        ).unwrap(),
                    ) by {
                        let j = spec_find_entry(
                            entriesv,
                            relv.models[mi2],
                            condition_tokens(relv)[t],
                        ).unwrap();
                        if mi2 == mi && t == tj {
                            assert(j == idx as int);
                        } else {
                            let w = choose|w: int|
                                0 <= w < edges0.len() && (#[trigger] edges0[w]) as int == j;
                            assert(edges@[w] == edges0[w]);
                        }
                    }
                }
            }
            tj += 1;
        }
        mi += 1;
    }
    proof {
        assert(rel_edges_complete(entriesv, relsv, edges@, k as int));
    }
    Ok(edges)
}

/// The direct dependency edges of every indexed column: a
/// relationship-bearing column depends on the columns of its relationship's
/// join condition; a calculated column depends on the columns its
/// expression names; a plain column is a leaf. Every edge drawn is one of
/// these, and none that resolves is missed.
#[verifier::loop_isolation(false)]
fn build_dependencies(mdl: &WrenMDL) -> (r: Result<Vec<Vec<usize>>, LineageError>)
    ensures
        r matches Ok(deps) ==> ({
            &&& deps@.len() == mdl.qualified_references@.len()
            &&& edges_wf(deps@)
            &&& forall|k: int|
                0 <= k < deps@.len() && is_leaf_column(
                    #[trigger] mdl.qualified_references.deep_view()[k],
                ) ==> deps@[k]@.len() == 0
            &&& forall|k: int|
                0 <= k < deps@.len() && is_plain_calculated(
                    #[trigger] mdl.qualified_references.deep_view()[k],
                ) ==> calc_edges_complete(mdl.qualified_references.deep_view(), deps@[k]@, k)
            &&& forall|k: int|
                0 <= k < deps@.len() ==> rel_edges_complete(
                    mdl.qualified_references.deep_view(),
                    mdl.manifest@.relationships,
                    (#[trigger] deps@[k])@,
                    k,
                )
            &&& forall|k: int|
                0 <= k < deps@.len() ==> edges_justified(
                    mdl.qualified_references.deep_view(),
                    mdl.manifest@.relationships,
                    (#[trigger] deps@[k])@,
                    k,
                )
        }),
        r matches Err(e) ==> e matches LineageError::UnresolvedReference(n)
            && unresolved_relationship(
            mdl.qualified_references.deep_view(),
            mdl.manifest@.relationships,
            n@,
        ),
{
    let entries = &mdl.qualified_references;
    let n = entries.len();
    let ghost entriesv = entries.deep_view();
    let ghost relsv = mdl.manifest@.relationships;
    let mut deps: Vec<Vec<usize>> = Vec::new();
    let mut k: usize = 0;
    while k < n
        invariant
            k <= n,
            deps@.len() == k,
            forall|i: int, j: int|
                0 <= i < k && 0 <= j < deps@[i]@.len() ==> (#[trigger] deps@[i]@[j]) < n,
            forall|i: int|
                0 <= i < k && is_leaf_column(#[trigger] entriesv[i]) ==> deps@[i]@.len() == 0,
            forall|i: int|
                0 <= i < k && is_plain_calculated(#[trigger] entriesv[i]) ==> calc_edges_complete(
                    entriesv,
                    deps@[i]@,
                    i,
                ),
            forall|i: int|
                0 <= i < k ==> rel_edges_complete(entriesv, relsv, (#[trigger] deps@[i])@, i),
            forall|i: int|
                0 <= i < k ==> edges_justified(entriesv, relsv, (#[trigger] deps@[i])@, i),
        decreases n - k,
    {
        proof {
            assert(entriesv[k as int] == entries@[k as int].deep_view());
        }
        let mut edges: Vec<usize> = Vec::new();
        let column = &entries[k].1.column;
        if column.relationship.is_some() {
            edges = match relationship_edges(mdl, k) {
                Ok(e) => e,
                Err(e) => {
                    return Err(e);
                },
            };
        } else if column.is_calculated {
            edges = match calculated_edges(mdl, k) {
                Ok(e) => e,
                Err(e) => {
                    return Err(e);
                },
            };
            proof {
                assert(rel_edges_complete(entriesv, relsv, edges@, k as int));
            }
        } else {
            proof {
                assert(edges_justified(entriesv, relsv, edges@, k as int));
                assert(rel_edges_complete(entriesv, relsv, edges@, k as int));
            }
        }
        let ghost old_deps = deps@;
        deps.push(edges);
        proof {
            assert forall|i: int, j: int|
                0 <= i < k + 1 && 0 <= j < deps@[i]@.len() implies (#[trigger] deps@[i]@[j])
                < n by {
                if i < k {
                    assert(deps@[i] == old_deps[i]);
                } else {
                    assert(deps@[i] == edges);
                }
            }
            assert forall|i: int|
                0 <= i < k + 1 && is_leaf_column(#[trigger] entriesv[i]) implies deps@[i]@.len()
                == 0 by {
                if i < k {
                    assert(deps@[i] == old_deps[i]);
                } else {
                    assert(deps@[i] == edges);
                }
            }
            assert forall|i: int|
                0 <= i < k + 1 && is_plain_calculated(#[trigger] entriesv[i])
                implies calc_edges_complete(entriesv, deps@[i]@, i) by {
                if i < k {
                    assert(deps@[i] == old_deps[i]);
                } else {
                    assert(deps@[i] == edges);
                }
            }
            assert forall|i: int|
                0 <= i < k + 1 implies rel_edges_complete(
                entriesv,
                relsv,
                (#[trigger] deps@[i])@,
                i,
            ) && edges_justified(entriesv, relsv, (deps@[i])@, i) by {
                if i < k {
                    assert(deps@[i] == old_deps[i]);
                } else {
                    assert(deps@[i] == edges);
                }
            }
        }
        k += 1;
    }
    Ok(deps)
}

/// The resolved lineage of a model index: the dependency graph over its
/// column entries and a topological order witnessing that the graph is free
/// of cycles.
#[derive(Debug)]
pub struct Lineage {
    pub deps: Vec<Vec<usize>>,
    pub order: Vec<usize>,
    pub required: Vec<Vec<bool>>,
}

impl Lineage {
    /// The lineage fits an index of `n` column entries: one edge list per
    /// entry, every edge in range, and the order a witness of acyclicity.
    pub open spec fn wf(self, n: int) -> bool {
        &&& self.deps@.len() == n
        &&& edges_wf(self.deps@)
        &&& is_topological_order(self.deps@, self.order@)
        &&& self.required@.len() == n
        &&& forall|k: int| 0 <= k < n ==> (#[trigger] self.required@[k])@.len() == n
        &&& forall|k: int|
            0 <= k < n ==> row_contains_deps(self.deps@, (#[trigger] self.required@[k])@, k)
        &&& forall|k: int| 0 <= k < n ==> row_closed(self.deps@, (#[trigger] self.required@[k])@)
        &&& forall|k: int, y: int|
            0 <= k < n && 0 <= y < n && (#[trigger] self.required@[k]@[y]) ==> reaches(
                self.deps@,
                k,
                y,
                n as nat,
            )
    }

    /// Resolves the dependency graph of the index and rejects it when the
    /// dependencies are cyclic, naming the columns still caught in the
    /// cycle. Fails only on a genuine witness: an unresolved-reference error
    /// names a relationship some column bears that resolves to nothing, and
    /// a cycle error names a set of columns each depending on another of
    /// the set.
    #[verifier::loop_isolation(false)]
    pub fn new(mdl: &WrenMDL) -> (r: Result<Lineage, LineageError>)
        ensures
            r matches Ok(l) ==> ({
                &&& l.wf(mdl.qualified_references@.len() as int)
                &&& forall|k: int|
                    0 <= k < l.deps@.len() && is_leaf_column(
                        #[trigger] mdl.qualified_references.deep_view()[k],
                    ) ==> l.deps@[k]@.len() == 0
                &&& forall|k: int|
                    0 <= k < l.deps@.len() && is_plain_calculated(
                        #[trigger] mdl.qualified_references.deep_view()[k],
                    ) ==> calc_edges_complete(
                        mdl.qualified_references.deep_view(),
                        l.deps@[k]@,
                        k,
                    )
                &&& forall|k: int|
                    0 <= k < l.deps@.len() ==> rel_edges_complete(
                        mdl.qualified_references.deep_view(),
                        mdl.manifest@.relationships,
                        (#[trigger] l.deps@[k])@,
                        k,
                    )
                &&& forall|k: int|
                    0 <= k < l.deps@.len() ==> edges_justified(
                        mdl.qualified_references.deep_view(),
                        mdl.manifest@.relationships,
                        (#[trigger] l.deps@[k])@,
                        k,
                    )
            }),
            r matches Err(e) ==> (match e {
                LineageError::Cycle(names) => cycle_witness(
                    mdl.qualified_references.deep_view(),
                    mdl.manifest@.relationships,
                    names.deep_view(),
                ),
                LineageError::UnresolvedReference(n) => unresolved_relationship(
                    mdl.qualified_references.deep_view(),
                    mdl.manifest@.relationships,
                    n@,
                ),
            }),
    {
        let ghost entriesv = mdl.qualified_references.deep_view();
        let ghost relsv = mdl.manifest@.relationships;
        let deps = match build_dependencies(mdl) {
            Ok(d) => d,
            Err(e) => {
                return Err(e);
            },
        };
        match topological_order(&deps) {
            Ok(order) => {
                let required = transitive_requirements(&deps, &order);
                Ok(Lineage { deps, order, required })
            },
            Err(rem) => {
                let mut names: Vec<String> = Vec::new();
                let mut i: usize = 0;
                while i < rem.len()
                    invariant
                        names@.len() == i,
                        i <= rem@.len(),
                        forall|p: int| 0 <= p < rem@.len() ==> (#[trigger] rem@[p]) < deps@.len(),
                        deps@.len() == mdl.qualified_references@.len(),
                        forall|p: int|
                            0 <= p < i ==> names.deep_view()[p] == entry_qualified_name(
                                entriesv[#[trigger] rem@[p] as int],
                            ),
                    decreases rem.len() - i,
                {
                    let ghost names0 = names.deep_view();
                    let entry = &mdl.qualified_references[rem[i]];
                    proof {
                        assert(entriesv[rem@[i as int] as int] == entry.deep_view());
                    }
                    names.push(entry.1.get_qualified_name());
                    proof {
                        assert forall|p: int|
                            0 <= p < i + 1 implies names.deep_view()[p] == entry_qualified_name(
                            entriesv[#[trigger] rem@[p] as int],
                        ) by {
                            if p < i {
                                assert(names.deep_view()[p] == names0[p]);
                            }
                        }
                    }
                    i += 1;
                }
                proof {
                    assert(entriesv.len() == deps@.len());
                    assert(cycle_witness_set(entriesv, relsv, names.deep_view(), rem@)) by {
                        assert forall|p: int|
                            0 <= p < rem@.len() implies #[trigger] member_depends_in(
                            entriesv,
                            relsv,
                            rem@,
                            p,
                        ) by {
                            assert(has_dep_in(deps@, rem@, p));
                            let (e, q) = choose|e: int, q: int|
                                0 <= e < deps@[rem@[p] as int]@.len() && 0 <= q < rem@.len() && (
                                #[trigger] rem@[q]) == (#[trigger] deps@[rem@[p] as int]@[e]);
                            assert(edges_justified(entriesv, relsv, deps@[rem@[p] as int]@, rem@[
                                p
                            ] as int));
                            assert(depends_on(
                                entriesv,
                                relsv,
                                rem@[p] as int,
                                deps@[rem@[p] as int]@[e] as int,
                            ));
                            assert(depends_on(entriesv, relsv, rem@[p] as int, rem@[q] as int));
                            assert(member_depends_in(entriesv, relsv, rem@, p));
                        }
                    }
                    assert(cycle_witness(entriesv, relsv, names.deep_view()));
                }
                Err(LineageError::Cycle(names))
            },
        }
    }
}


/// The row lists every direct dependency}


/// The row lists every direct dependency of node `k`.
pub open spec fn row_contains_deps(deps: Seq<Vec<usize>>, row: Seq<bool>, k: int) -> bool {
    forall|e: int| 0 <= e < deps[k]@.len() ==> row[#[trigger] deps[k]@[e] as int]
}

/// The row is transitively closed: whatever it lists, it lists that node's
/// dependencies too.
pub open spec fn row_closed(deps: Seq<Vec<usize>>, row: Seq<bool>) -> bool {
    forall|y: int, e: int|
        0 <= y < deps.len() && row[y] && 0 <= e < deps[y]@.len() ==> row[
            #[trigger] deps[y]@[e] as int
        ]
}

/// Node `to` is reachable from node `from` through dependency edges in at
/// most `fuel` steps.
pub open spec fn reaches(deps: Seq<Vec<usize>>, from: int, to: int, fuel: nat) -> bool
    decreases fuel,
{
    fuel > 0 && exists|e: int|
        0 <= e < deps[from]@.len() && ((#[trigger] deps[from]@[e]) as int == to || reaches(
            deps,
            deps[from]@[e] as int,
            to,
            (fuel - 1) as nat,
        ))
}

/// More fuel never loses reachability.
proof fn lemma_reaches_monotone(deps: Seq<Vec<usize>>, from: int, to: int, f1: nat, f2: nat)
    requires
        reaches(deps, from, to, f1),
        f1 <= f2,
    ensures
        reaches(deps, from, to, f2),
    decreases f1,
{
    let e = choose|e: int|
        0 <= e < deps[from]@.len() && ((#[trigger] deps[from]@[e]) as int == to || reaches(
            deps,
            deps[from]@[e] as int,
            to,
            (f1 - 1) as nat,
        ));
    if deps[from]@[e] as int == to {
        assert(0 <= e < deps[from]@.len() && ((deps[from]@[e]) as int == to || reaches(
            deps,
            deps[from]@[e] as int,
            to,
            (f2 - 1) as nat,
        )));
    } else {
        lemma_reaches_monotone(deps, deps[from]@[e] as int, to, (f1 - 1) as nat, (f2 - 1) as nat);
        assert(0 <= e < deps[from]@.len() && ((deps[from]@[e]) as int == to || reaches(
            deps,
            deps[from]@[e] as int,
            to,
            (f2 - 1) as nat,
        )));
    }
}

/// For every node, the set of nodes it transitively requires, as a
/// membership row: its direct dependencies, their dependencies, and so on.
/// Follows the topological order, so each node's row can fold in the
/// already-finished rows of its dependencies.
#[verifier::loop_isolation(false)]
pub fn transitive_requirements(deps: &Vec<Vec<usize>>, order: &Vec<usize>) -> (r: Vec<Vec<bool>>)
    requires
        edges_wf(deps@),
        is_topological_order(deps@, order@),
    ensures
        r@.len() == deps@.len(),
        forall|k: int| 0 <= k < deps@.len() ==> (#[trigger] r@[k])@.len() == deps@.len(),
        forall|k: int| 0 <= k < deps@.len() ==> row_contains_deps(deps@, (#[trigger] r@[k])@, k),
        forall|k: int| 0 <= k < deps@.len() ==> row_closed(deps@, (#[trigger] r@[k])@),
        forall|k: int, y: int|
            0 <= k < deps@.len() && 0 <= y < deps@.len() && (#[trigger] r@[k]@[y]) ==> reaches(
                deps@,
                k,
                y,
                deps@.len() as nat,
            ),
{
    let n = deps.len();
    let mut required: Vec<Vec<bool>> = Vec::new();
    let mut z: usize = 0;
    while z < n
        invariant
            z <= n,
            required@.len() == z,
            forall|k: int| 0 <= k < z ==> (#[trigger] required@[k])@.len() == n,
        decreases n - z,
    {
        let mut empty_row: Vec<bool> = Vec::new();
        let mut w: usize = 0;
        while w < n
            invariant
                w <= n,
                empty_row@.len() == w,
            decreases n - w,
        {
            empty_row.push(false);
            w += 1;
        }
        required.push(empty_row);
        z += 1;
    }
    let mut p: usize = 0;
    while p < order.len()
        invariant
            p <= order@.len(),
            required@.len() == n,
            forall|k: int| 0 <= k < n ==> (#[trigger] required@[k])@.len() == n,
            forall|q: int|
                0 <= q < p ==> row_contains_deps(
                    deps@,
                    (#[trigger] required@[order@[q] as int])@,
                    order@[q] as int,
                ),
            forall|q: int|
                0 <= q < p ==> row_closed(deps@, (#[trigger] required@[order@[q] as int])@),
            forall|q: int, y: int|
                0 <= q < p && 0 <= y < n && (#[trigger] required@[order@[q] as int]@[y])
                    ==> reaches(deps@, order@[q] as int, y, (q + 1) as nat),
        decreases order@.len() - p,
    {
        let x = order[p];
        let edges = &deps[x];
        let mut row: Vec<bool> = Vec::new();
        let mut w: usize = 0;
        while w < n
            invariant
                w <= n,
                row@.len() == w,
                forall|y: int| 0 <= y < w ==> !row@[y],
            decreases n - w,
        {
            row.push(false);
            w += 1;
        }
        let mut e: usize = 0;
        while e < edges.len()
            invariant
                e <= edges@.len(),
                edges@ == deps@[x as int]@,
                row@.len() == n,
                forall|y: int|
                    0 <= y < n && row@[y] ==> exists|e2: int|
                        0 <= e2 < e && ((#[trigger] deps@[x as int]@[e2]) as int == y
                            || required@[deps@[x as int]@[e2] as int]@[y]),
                forall|e2: int| 0 <= e2 < e ==> row@[#[trigger] deps@[x as int]@[e2] as int],
                forall|e2: int, y: int|
                    0 <= e2 < e && 0 <= y < n && (#[trigger] required@[deps@[x as int]@[e2] as int]@[y])
                        ==> row@[y],
            decreases edges@.len() - e,
        {
            let ghost row0 = row@;
            let d = edges[e];
            row.set(d, true);
            let ghost row1 = row@;
            let dep_row = &required[d];
            let mut y: usize = 0;
            while y < n
                invariant
                    y <= n,
                    row@.len() == n,
                    dep_row@ == required@[d as int]@,
                    forall|y2: int| 0 <= y2 < n && row1[y2] ==> row@[y2],
                    forall|y2: int|
                        0 <= y2 < n && row@[y2] ==> row1[y2] || required@[d as int]@[y2],
                    forall|y2: int| 0 <= y2 < y && required@[d as int]@[y2] ==> row@[y2],
                decreases n - y,
            {
                if dep_row[y] {
                    row.set(y, true);
                }
                y += 1;
            }
            proof {
                assert forall|y2: int| 0 <= y2 < n && row@[y2] implies exists|e2: int|
                    0 <= e2 < e + 1 && ((#[trigger] deps@[x as int]@[e2]) as int == y2
                        || required@[deps@[x as int]@[e2] as int]@[y2]) by {
                    if row1[y2] {
                        if row0[y2] {
                            let e2 = choose|e2: int|
                                0 <= e2 < e && ((#[trigger] deps@[x as int]@[e2]) as int == y2
                                    || required@[deps@[x as int]@[e2] as int]@[y2]);
                            assert(0 <= e2 < e + 1 && ((deps@[x as int]@[e2]) as int == y2
                                || required@[deps@[x as int]@[e2] as int]@[y2]));
                        } else {
                            assert(y2 == d as int);
                            assert((deps@[x as int]@[e as int]) as int == y2);
                        }
                    } else {
                        assert(required@[d as int]@[y2]);
                        assert((deps@[x as int]@[e as int]) as int == d as int);
                    }
                }
                assert forall|e2: int| 0 <= e2 < e + 1 implies row@[#[trigger] deps@[x as int]@[
                    e2
                ] as int] by {
                    if e2 < e {
                        assert(row0[deps@[x as int]@[e2] as int]);
                        assert(row1[deps@[x as int]@[e2] as int]);
                    } else {
                        assert(row1[d as int]);
                    }
                }
                assert forall|e2: int, y2: int|
                    0 <= e2 < e + 1 && 0 <= y2 < n && (#[trigger] required@[deps@[x as int]@[
                        e2
                    ] as int]@[y2]) implies row@[y2] by {
                    if e2 < e {
                        assert(row0[y2]);
                        assert(row1[y2]);
                    } else {
                        assert(deps@[x as int]@[e2] == d);
                    }
                }
            }
            e += 1;
        }
        proof {
            assert(row_contains_deps(deps@, row@, x as int));
            // every listed node's dependencies are listed: a listed node is a
            // direct dependency (whose dependencies sit inside its finished
            // row, folded in here) or sits inside a dependency's finished row
            assert forall|y: int, ee: int|
                0 <= y < deps@.len() && row@[y] && 0 <= ee < deps@[y]@.len() implies row@[
                #[trigger] deps@[y]@[ee] as int
            ] by {
                let e2 = choose|e2: int|
                    0 <= e2 < edges@.len() && ((#[trigger] deps@[x as int]@[e2]) as int == y
                        || required@[deps@[x as int]@[e2] as int]@[y]);
                let d = deps@[x as int]@[e2];
                assert(order@[p as int] == x);
                assert(comes_after_deps(deps@, order@, p as int));
                assert(0 <= e2 < deps@[order@[p as int] as int]@.len());
                assert(listed_before(order@, p as int, deps@[order@[p as int] as int]@[e2]));
                assert(listed_before(order@, p as int, d));
                let q = choose|q: int| 0 <= q < p && (#[trigger] order@[q]) == d;
                assert(row_contains_deps(deps@, required@[d as int]@, d as int));
                assert(row_closed(deps@, required@[d as int]@));
                if d as int == y {
                    assert(required@[d as int]@[deps@[y]@[ee] as int]);
                } else {
                    assert(required@[d as int]@[y]);
                    assert(required@[d as int]@[deps@[y]@[ee] as int]);
                }
            }
            assert(row_closed(deps@, row@));
            // every listed node is genuinely reachable: a direct dependency
            // in one step, or through a dependency's already-sound row
            assert forall|y: int| 0 <= y < n && row@[y] implies reaches(
                deps@,
                x as int,
                y,
                (p + 1) as nat,
            ) by {
                let e2 = choose|e2: int|
                    0 <= e2 < edges@.len() && ((#[trigger] deps@[x as int]@[e2]) as int == y
                        || required@[deps@[x as int]@[e2] as int]@[y]);
                let d = deps@[x as int]@[e2];
                if d as int == y {
                    assert(reaches(deps@, x as int, y, 1nat)) by {
                        assert(0 <= e2 < deps@[x as int]@.len() && ((deps@[x as int]@[
                            e2
                        ]) as int == y || reaches(deps@, deps@[x as int]@[e2] as int, y, 0nat)));
                    }
                    lemma_reaches_monotone(deps@, x as int, y, 1nat, (p + 1) as nat);
                } else {
                    assert(order@[p as int] == x);
                    assert(comes_after_deps(deps@, order@, p as int));
                    assert(0 <= e2 < deps@[order@[p as int] as int]@.len());
                    assert(listed_before(order@, p as int, deps@[order@[p as int] as int]@[e2]));
                    assert(listed_before(order@, p as int, d));
                    let q = choose|q: int| 0 <= q < p && (#[trigger] order@[q]) == d;
                    assert(required@[d as int]@[y]);
                    assert(reaches(deps@, d as int, y, (q + 1) as nat));
                    assert(reaches(deps@, x as int, y, (q + 2) as nat)) by {
                        assert(0 <= e2 < deps@[x as int]@.len() && ((deps@[x as int]@[
                            e2
                        ]) as int == y || reaches(
                            deps@,
                            deps@[x as int]@[e2] as int,
                            y,
                            ((q + 2) - 1) as nat,
                        )));
                    }
                    lemma_reaches_monotone(deps@, x as int, y, (q + 2) as nat, (p + 1) as nat);
                }
            }
        }
        let ghost old_required = required@;
        let ghost new_row = row@;
        required.set(x, row);
        proof {
            assert forall|q: int| 0 <= q < p + 1 implies row_contains_deps(
                deps@,
                (#[trigger] required@[order@[q] as int])@,
                order@[q] as int,
            ) && row_closed(deps@, (required@[order@[q] as int])@) by {
                if q < p {
                    assert(order@[q] != order@[p as int]);
                    assert(required@[order@[q] as int] == old_required[order@[q] as int]);
                } else {
                    assert(required@[order@[q] as int]@ == new_row);
                }
            }
            assert forall|q: int, y: int|
                0 <= q < p + 1 && 0 <= y < n && (#[trigger] required@[order@[q] as int]@[y])
                implies reaches(deps@, order@[q] as int, y, (q + 1) as nat) by {
                if q < p {
                    assert(order@[q] != order@[p as int]);
                    assert(required@[order@[q] as int] == old_required[order@[q] as int]);
                } else {
                    assert(required@[order@[q] as int]@ == new_row);
                }
            }
        }
        p += 1;
    }
    proof {
        assert forall|k: int| 0 <= k < n implies row_contains_deps(
            deps@,
            (#[trigger] required@[k])@,
            k,
        ) && row_closed(deps@, (required@[k])@) by {
            assert(order_contains(order@, k)) by {
                assert(is_topological_order(deps@, order@));
                lemma_full_order_contains(deps@, order@, k);
            }
            let q = choose|q: int| 0 <= q < order@.len() && #[trigger] order@[q] as int == k;
        }
        assert forall|k: int, y: int|
            0 <= k < n && 0 <= y < n && (#[trigger] required@[k]@[y]) implies reaches(
            deps@,
            k,
            y,
            n as nat,
        ) by {
            assert(order_contains(order@, k)) by {
                lemma_full_order_contains(deps@, order@, k);
            }
            let q = choose|q: int| 0 <= q < order@.len() && #[trigger] order@[q] as int == k;
            assert(required@[order@[q] as int]@[y]);
            assert(reaches(deps@, k, y, (q + 1) as nat));
            lemma_reaches_monotone(deps@, k, y, (q + 1) as nat, n as nat);
        }
    }
    required
}

/// A full topological order lists every node.
proof fn lemma_full_order_contains(deps: Seq<Vec<usize>>, order: Seq<usize>, k: int)
    requires
        is_topological_order(deps, order),
        0 <= k < deps.len(),
    ensures
        order_contains(order, k),
{
    broadcast use vstd::seq_lib::seq_to_set_is_finite;
    broadcast use vstd::set::group_set_axioms;

    if !order_contains(order, k) {
        // then the order's distinct values all sit in 0..n without k: at
        // most n - 1 of them, yet the order has n positions
        let ints = order.map_values(|v: usize| v as int);
        assert(ints.no_duplicates()) by {
            assert forall|i: int, j: int|
                0 <= i < ints.len() && 0 <= j < ints.len() && i != j implies ints[i]
                != ints[j] by {
                if i < j {
                    assert(order[i] != order[j]);
                } else {
                    assert(order[j] != order[i]);
                }
            }
        }
        ints.unique_seq_to_set();
        let small = vstd::set_lib::set_int_range(0, deps.len() as int).remove(k);
        vstd::set_lib::lemma_int_range(0, deps.len() as int);
        assert forall|x: int| ints.to_set().contains(x) implies small.contains(x) by {
            assert(ints.contains(x));
            let i = choose|i: int| 0 <= i < ints.len() && ints[i] == x;
            assert(order[i] < deps.len());
            assert(order[i] as int != k);
        }
        assert(ints.to_set().subset_of(small));
        vstd::set_lib::lemma_len_subset(ints.to_set(), small);
        assert(small.len() == deps.len() - 1);
        assert(false);
    }
}

} // verus!



