use vstd::prelude::*;

use crate::flatten::{lemma_path_of_injective, level_rows, node_rows, open_paths, path_of, rows_of, Flattened};
use crate::tree::{node_at, TreeItem};

verus! {

/// What holds of a row listed among the rows of the node `node`, reached at
/// `path`: its path extends `path`, the rest of it leads from `node` to the
/// row's node, and every path from `path` up to the row's own, that one
/// excluded, is open.
pub open spec fn row_below_node<I>(
    open: Set<Seq<nat>>,
    node: TreeItem<I>,
    path: Seq<nat>,
    row: (Seq<nat>, TreeItem<I>),
) -> bool {
    let p = row.0;
    &&& path.len() <= p.len()
    &&& p.subrange(0, path.len() as int) == path
    &&& node.descend(p.subrange(path.len() as int, p.len() as int)) == Some(row.1)
    &&& forall|m: int| path.len() <= m < p.len() ==> open.contains(#[trigger] p.subrange(0, m))
}

/// What holds of a row listed among the rows of the siblings `items` whose
/// parent has the path `prefix`: its path extends `prefix` by at least one
/// index, the first of which picks a sibling, the rest leads from that sibling
/// to the row's node, and every path strictly between `prefix` and the row's
/// own is open.
pub open spec fn row_below_level<I>(
    open: Set<Seq<nat>>,
    items: Seq<TreeItem<I>>,
    prefix: Seq<nat>,
    row: (Seq<nat>, TreeItem<I>),
) -> bool {
    let p = row.0;
    let n = prefix.len() as int;
    &&& n < p.len()
    &&& p.subrange(0, n) == prefix
    &&& p[n] < items.len()
    &&& items[p[n] as int].descend(p.subrange(n + 1, p.len() as int)) == Some(row.1)
    &&& forall|m: int| n < m < p.len() ==> open.contains(#[trigger] p.subrange(0, m))
}

proof fn lemma_node_rows_shape<I>(open: Set<Seq<nat>>, node: TreeItem<I>, path: Seq<nat>)
    ensures
        forall|k: int|
            0 <= k < node_rows(open, node, path).len() ==> row_below_node(
                open,
                node,
                path,
                #[trigger] node_rows(open, node, path)[k],
            ),
    decreases node,
{
    let rows = node_rows(open, node, path);
    assert(path.subrange(0, path.len() as int) =~= path);
    assert(path.subrange(path.len() as int, path.len() as int) =~= Seq::<nat>::empty());
    if open.contains(path) {
        let below = level_rows(open, node.children@, path);
        assert(decreases_to!(node => node.children@));
        lemma_level_rows_shape(open, node.children@, path);
        assert forall|k: int| 0 <= k < rows.len() implies row_below_node(open, node, path, #[trigger] rows[k]) by {
            if k > 0 {
                let row = below[k - 1];
                assert(rows[k] == row);
                assert(row_below_level(open, node.children@, path, row));
                let p = row.0;
                let n = path.len() as int;
                let q = p.subrange(n, p.len() as int);
                assert(q[0] == p[n]);
                assert(q.drop_first() =~= p.subrange(n + 1, p.len() as int));
                assert forall|m: int| n <= m < p.len() implies open.contains(#[trigger] p.subrange(0, m)) by {
                    if m == n {
                        assert(p.subrange(0, m) == path);
                    }
                }
            }
        }
    } else {
        assert(rows =~= seq![(path, node)]);
    }
}

proof fn lemma_level_rows_shape<I>(open: Set<Seq<nat>>, items: Seq<TreeItem<I>>, prefix: Seq<nat>)
    ensures
        forall|k: int|
            0 <= k < level_rows(open, items, prefix).len() ==> row_below_level(
                open,
                items,
                prefix,
                #[trigger] level_rows(open, items, prefix)[k],
            ),
    decreases items,
{
    if items.len() > 0 {
        let rows = level_rows(open, items, prefix);
        let last = items.len() - 1;
        let path = prefix.push(last as nat);
        let before = level_rows(open, items.drop_last(), prefix);
        let after = node_rows(open, items[last], path);
        lemma_level_rows_shape(open, items.drop_last(), prefix);
        lemma_node_rows_shape(open, items[last], path);
        let n = prefix.len() as int;
        assert forall|k: int| 0 <= k < rows.len() implies row_below_level(open, items, prefix, #[trigger] rows[k]) by {
            if k < before.len() {
                assert(rows[k] == before[k]);
                assert(row_below_level(open, items.drop_last(), prefix, before[k]));
            } else {
                let row = after[k - before.len()];
                assert(rows[k] == row);
                assert(row_below_node(open, items[last], path, row));
                let p = row.0;
                assert(p.subrange(0, n + 1) == path);
                assert(p[n] == p.subrange(0, n + 1)[n]);
                assert(p.subrange(0, n) =~= p.subrange(0, n + 1).subrange(0, n));
                assert(path.subrange(0, n) =~= prefix);
            }
        }
    }
}

/// Whether, for each length from `from` up to that of the path of `rows[k]`,
/// that one excluded, the prefix of that length is the path of a row listed
/// before `rows[k]`.
pub open spec fn ancestors_listed_before<I>(rows: Seq<(Seq<nat>, TreeItem<I>)>, k: int, from: int) -> bool {
    forall|m: int| from <= m < rows[k].0.len() ==> #[trigger] prefix_listed_before(rows, k, m)
}

/// Whether the prefix of length `m` of the path of `rows[k]` is the path of a
/// row listed before `rows[k]`.
pub open spec fn prefix_listed_before<I>(rows: Seq<(Seq<nat>, TreeItem<I>)>, k: int, m: int) -> bool {
    exists|j: int| #![trigger rows[j]] 0 <= j < k && rows[j].0 == rows[k].0.subrange(0, m)
}

proof fn lemma_node_ancestors_listed<I>(open: Set<Seq<nat>>, node: TreeItem<I>, path: Seq<nat>)
    ensures
        forall|k: int|
            0 <= k < node_rows(open, node, path).len() ==> #[trigger] ancestors_listed_before(
                node_rows(open, node, path),
                k,
                path.len() as int,
            ),
    decreases node,
{
    let rows = node_rows(open, node, path);
    if open.contains(path) {
        let below = level_rows(open, node.children@, path);
        assert(decreases_to!(node => node.children@));
        lemma_level_rows_shape(open, node.children@, path);
        lemma_level_ancestors_listed(open, node.children@, path);
        assert forall|k: int| 0 <= k < rows.len() implies #[trigger] ancestors_listed_before(
            rows,
            k,
            path.len() as int,
        ) by {
            if k > 0 {
                assert(rows[k] == below[k - 1]);
                assert(row_below_level(open, node.children@, path, below[k - 1]));
                assert(ancestors_listed_before(below, k - 1, path.len() + 1 as int));
                let p = rows[k].0;
                assert forall|m: int| path.len() <= m < p.len() implies #[trigger] prefix_listed_before(
                    rows,
                    k,
                    m,
                ) by {
                    if m == path.len() {
                        assert(rows[0].0 == p.subrange(0, m));
                    } else {
                        assert(prefix_listed_before(below, k - 1, m));
                        let j = choose|j: int|
                            0 <= j < k - 1 && #[trigger] below[j].0 == below[k - 1].0.subrange(0, m);
                        assert(rows[j + 1] == below[j]);
                    }
                }
            }
        }
    } else {
        assert(rows =~= seq![(path, node)]);
    }
}

proof fn lemma_level_ancestors_listed<I>(open: Set<Seq<nat>>, items: Seq<TreeItem<I>>, prefix: Seq<nat>)
    ensures
        forall|k: int|
            0 <= k < level_rows(open, items, prefix).len() ==> #[trigger] ancestors_listed_before(
                level_rows(open, items, prefix),
                k,
                prefix.len() + 1 as int,
            ),
    decreases items,
{
    if items.len() > 0 {
        let rows = level_rows(open, items, prefix);
        let last = items.len() - 1;
        let path = prefix.push(last as nat);
        let before = level_rows(open, items.drop_last(), prefix);
        let after = node_rows(open, items[last], path);
        let from = prefix.len() + 1 as int;
        lemma_level_ancestors_listed(open, items.drop_last(), prefix);
        lemma_node_ancestors_listed(open, items[last], path);
        assert forall|k: int| 0 <= k < rows.len() implies #[trigger] ancestors_listed_before(
            rows,
            k,
            from,
        ) by {
            assert forall|m: int| from <= m < rows[k].0.len() implies #[trigger] prefix_listed_before(
                rows,
                k,
                m,
            ) by {
                if k < before.len() {
                    assert(rows[k] == before[k]);
                    assert(ancestors_listed_before(before, k, from));
                    assert(prefix_listed_before(before, k, m));
                    let j = choose|j: int| 0 <= j < k && before[j].0 == before[k].0.subrange(0, m);
                    assert(rows[j] == before[j]);
                } else {
                    let i = k - before.len();
                    assert(rows[k] == after[i]);
                    assert(ancestors_listed_before(after, i, path.len() as int));
                    assert(prefix_listed_before(after, i, m));
                    let j = choose|j: int| 0 <= j < i && after[j].0 == after[i].0.subrange(0, m);
                    assert(rows[j + before.len()] == after[j]);
                }
            }
        }
    }
}

/// Whether `a` is a proper prefix of `b`: the path of an ancestor of `b`'s node.
pub open spec fn is_strict_prefix(a: Seq<nat>, b: Seq<nat>) -> bool {
    a.len() < b.len() && b.subrange(0, a.len() as int) == a
}

/// Whether `a` comes before `b` in the lexicographic order of paths: `a` is a
/// proper prefix of `b`, or at the first index where they differ `a` is smaller.
pub open spec fn precedes(a: Seq<nat>, b: Seq<nat>) -> bool {
    ||| is_strict_prefix(a, b)
    ||| exists|i: int|
        0 <= i < a.len() && i < b.len() && #[trigger] a.subrange(0, i) == b.subrange(0, i) && a[i]
            < b[i]
}

/// Whether `a` and `b` are the paths of two siblings, `a` the earlier one.
pub open spec fn is_earlier_sibling(a: Seq<nat>, b: Seq<nat>) -> bool {
    &&& a.len() == b.len()
    &&& a.len() >= 1
    &&& a.drop_last() == b.drop_last()
    &&& a.last() < b.last()
}

proof fn lemma_precedes_asymmetric(a: Seq<nat>, b: Seq<nat>)
    requires
        precedes(a, b),
    ensures
        !precedes(b, a),
        a != b,
{
    if is_strict_prefix(a, b) {
        if precedes(b, a) {
            if !is_strict_prefix(b, a) {
                let i = choose|i: int|
                    0 <= i < b.len() && i < a.len() && #[trigger] b.subrange(0, i) == a.subrange(0, i)
                        && b[i] < a[i];
                assert(a[i] == b.subrange(0, a.len() as int)[i]);
            }
        }
    } else {
        let i = choose|i: int|
            0 <= i < a.len() && i < b.len() && #[trigger] a.subrange(0, i) == b.subrange(0, i) && a[i]
                < b[i];
        if precedes(b, a) {
            if is_strict_prefix(b, a) {
                assert(b[i] == a.subrange(0, b.len() as int)[i]);
            } else {
                let i2 = choose|i2: int|
                    0 <= i2 < b.len() && i2 < a.len() && #[trigger] b.subrange(0, i2) == a.subrange(
                        0,
                        i2,
                    ) && b[i2] < a[i2];
                if i2 < i {
                    assert(a[i2] == a.subrange(0, i)[i2]);
                    assert(b[i2] == b.subrange(0, i)[i2]);
                } else if i < i2 {
                    assert(a[i] == a.subrange(0, i2)[i]);
                    assert(b[i] == b.subrange(0, i2)[i]);
                }
            }
        }
    }
}

proof fn lemma_node_rows_ordered<I>(open: Set<Seq<nat>>, node: TreeItem<I>, path: Seq<nat>)
    ensures
        forall|j: int, k: int|
            #![trigger node_rows(open, node, path)[j], node_rows(open, node, path)[k]]
            0 <= j < k < node_rows(open, node, path).len() ==> precedes(
                node_rows(open, node, path)[j].0,
                node_rows(open, node, path)[k].0,
            ),
    decreases node,
{
    let rows = node_rows(open, node, path);
    if open.contains(path) {
        let below = level_rows(open, node.children@, path);
        assert(decreases_to!(node => node.children@));
        lemma_level_rows_shape(open, node.children@, path);
        lemma_level_rows_ordered(open, node.children@, path);
        assert forall|j: int, k: int| 0 <= j < k < rows.len() implies precedes(
            #[trigger] rows[j].0,
            #[trigger] rows[k].0,
        ) by {
            assert(rows[k] == below[k - 1]);
            assert(row_below_level(open, node.children@, path, below[k - 1]));
            if j > 0 {
                assert(rows[j] == below[j - 1]);
            }
        }
    } else {
        assert(rows =~= seq![(path, node)]);
    }
}

proof fn lemma_level_rows_ordered<I>(open: Set<Seq<nat>>, items: Seq<TreeItem<I>>, prefix: Seq<nat>)
    ensures
        forall|j: int, k: int|
            #![trigger level_rows(open, items, prefix)[j], level_rows(open, items, prefix)[k]]
            0 <= j < k < level_rows(open, items, prefix).len() ==> precedes(
                level_rows(open, items, prefix)[j].0,
                level_rows(open, items, prefix)[k].0,
            ),
    decreases items,
{
    if items.len() > 0 {
        let rows = level_rows(open, items, prefix);
        let last = items.len() - 1;
        let path = prefix.push(last as nat);
        let before = level_rows(open, items.drop_last(), prefix);
        let after = node_rows(open, items[last], path);
        lemma_level_rows_shape(open, items.drop_last(), prefix);
        lemma_node_rows_shape(open, items[last], path);
        lemma_level_rows_ordered(open, items.drop_last(), prefix);
        lemma_node_rows_ordered(open, items[last], path);
        let n = prefix.len() as int;
        assert forall|j: int, k: int| 0 <= j < k < rows.len() implies precedes(
            #[trigger] rows[j].0,
            #[trigger] rows[k].0,
        ) by {
            if k < before.len() {
                assert(rows[j] == before[j] && rows[k] == before[k]);
            } else if j >= before.len() {
                assert(rows[j] == after[j - before.len()] && rows[k] == after[k - before.len()]);
            } else {
                let a = before[j].0;
                let b = after[k - before.len()].0;
                assert(rows[j] == before[j] && rows[k] == after[k - before.len()]);
                assert(row_below_level(open, items.drop_last(), prefix, before[j]));
                assert(row_below_node(open, items[last], path, after[k - before.len()]));
                assert(b[n] == b.subrange(0, n + 1)[n]);
                assert(b.subrange(0, n) =~= b.subrange(0, n + 1).subrange(0, n));
                assert(path.subrange(0, n) =~= prefix);
                assert(a.subrange(0, n) == b.subrange(0, n) && a[n] < b[n]);
            }
        }
    }
}

/// The listing is in pre-order: each listed path comes before every path
/// listed after it in the lexicographic order of paths. Hence no path is
/// listed twice, a node is listed before its descendants, and siblings are
/// listed in their order.
pub proof fn lemma_rows_in_preorder<I>(open: Set<Seq<nat>>, items: Seq<TreeItem<I>>)
    ensures
        ({
            let rows = level_rows(open, items, Seq::empty());
            &&& forall|j: int, k: int|
                #![trigger rows[j], rows[k]]
                0 <= j < k < rows.len() ==> precedes(rows[j].0, rows[k].0)
            &&& forall|j: int, k: int|
                #![trigger rows[j], rows[k]]
                0 <= j < rows.len() && 0 <= k < rows.len() && j != k ==> rows[j].0 != rows[k].0
            &&& forall|j: int, k: int|
                #![trigger rows[j], rows[k]]
                0 <= j < rows.len() && 0 <= k < rows.len() && is_strict_prefix(rows[j].0, rows[k].0)
                    ==> j < k
            &&& forall|j: int, k: int|
                #![trigger rows[j], rows[k]]
                0 <= j < rows.len() && 0 <= k < rows.len() && is_earlier_sibling(rows[j].0, rows[k].0)
                    ==> j < k
        }),
{
    let rows = level_rows(open, items, Seq::empty());
    lemma_level_rows_ordered(open, items, Seq::empty());
    assert forall|j: int, k: int|
        0 <= j < rows.len() && 0 <= k < rows.len() && j != k implies #[trigger] rows[j].0
        != #[trigger] rows[k].0 by {
        if j < k {
            lemma_precedes_asymmetric(rows[j].0, rows[k].0);
        } else {
            lemma_precedes_asymmetric(rows[k].0, rows[j].0);
        }
    }
    assert forall|j: int, k: int|
        0 <= j < rows.len() && 0 <= k < rows.len() && is_strict_prefix(
            #[trigger] rows[j].0,
            #[trigger] rows[k].0,
        ) implies j < k by {
        if k < j {
            lemma_precedes_asymmetric(rows[k].0, rows[j].0);
        }
    }
    assert forall|j: int, k: int|
        0 <= j < rows.len() && 0 <= k < rows.len() && is_earlier_sibling(
            #[trigger] rows[j].0,
            #[trigger] rows[k].0,
        ) implies j < k by {
        let a = rows[j].0;
        let b = rows[k].0;
        let i = a.len() - 1;
        assert(a.subrange(0, i) == a.drop_last() && b.subrange(0, i) == b.drop_last());
        assert(precedes(a, b));
        if k < j {
            lemma_precedes_asymmetric(b, a);
        }
    }
}

/// Every listed node is the node that its path denotes, and each proper,
/// non-empty prefix of that path, the path of an ancestor, is open and is
/// listed earlier: the depth of a listed node, one less than its path's
/// length, is the number of opened and listed ancestors through which it was
/// reached.
pub proof fn lemma_rows_reached_through_open_ancestors<I>(open: Set<Seq<nat>>, items: Seq<TreeItem<I>>)
    ensures
        forall|k: int|
            #![trigger level_rows(open, items, Seq::empty())[k]]
            0 <= k < level_rows(open, items, Seq::empty()).len() ==> {
                let row = level_rows(open, items, Seq::empty())[k];
                &&& row.0.len() >= 1
                &&& node_at(items, row.0) == Some(row.1)
                &&& forall|m: int| 1 <= m < row.0.len() ==> open.contains(#[trigger] row.0.subrange(0, m))
                &&& ancestors_listed_before(level_rows(open, items, Seq::empty()), k, 1)
            },
{
    let rows = level_rows(open, items, Seq::empty());
    lemma_level_rows_shape(open, items, Seq::empty());
    lemma_level_ancestors_listed(open, items, Seq::empty());
    assert forall|k: int| 0 <= k < rows.len() implies node_at(items, #[trigger] rows[k].0) == Some(
        rows[k].1,
    ) by {
        let p = rows[k].0;
        assert(row_below_level(open, items, Seq::empty(), rows[k]));
        assert(p.subrange(1, p.len() as int) =~= p.drop_first());
    }
}

/// A node whose path is not open has none of its descendants listed, whether
/// or not their own paths are open.
pub proof fn lemma_closed_node_hides_descendants<I>(
    open: Set<Seq<nat>>,
    items: Seq<TreeItem<I>>,
    path: Seq<nat>,
)
    requires
        path.len() >= 1,
        !open.contains(path),
    ensures
        forall|k: int|
            0 <= k < level_rows(open, items, Seq::empty()).len() ==> !is_strict_prefix(
                path,
                #[trigger] level_rows(open, items, Seq::empty())[k].0,
            ),
{
    let rows = level_rows(open, items, Seq::empty());
    lemma_rows_reached_through_open_ancestors(open, items);
    assert forall|k: int| 0 <= k < rows.len() implies !is_strict_prefix(path, #[trigger] rows[k].0) by {
        if is_strict_prefix(path, rows[k].0) {
            assert(open.contains(rows[k].0.subrange(0, path.len() as int)));
        }
    }
}

proof fn lemma_node_rows_agree<I>(
    first: Set<Seq<nat>>,
    second: Set<Seq<nat>>,
    node: TreeItem<I>,
    path: Seq<nat>,
)
    requires
        forall|q: Seq<nat>|
            (#[trigger] node.descend(q)) is Some ==> (first.contains(path + q) <==> second.contains(
                path + q,
            )),
    ensures
        node_rows(first, node, path) == node_rows(second, node, path),
    decreases node,
{
    let none = Seq::<nat>::empty();
    assert(node.descend(none) is Some);
    assert(path + none =~= path);
    if first.contains(path) {
        let children = node.children@;
        assert(decreases_to!(node => node.children@));
        assert forall|q: Seq<nat>| (#[trigger] node_at(children, q)) is Some implies (first.contains(
            path + q,
        ) <==> second.contains(path + q)) by {
            assert(node.descend(q) == node_at(children, q));
        }
        lemma_level_rows_agree(first, second, children, path);
    }
}

proof fn lemma_level_rows_agree<I>(
    first: Set<Seq<nat>>,
    second: Set<Seq<nat>>,
    items: Seq<TreeItem<I>>,
    prefix: Seq<nat>,
)
    requires
        forall|q: Seq<nat>|
            (#[trigger] node_at(items, q)) is Some ==> (first.contains(prefix + q) <==> second.contains(
                prefix + q,
            )),
    ensures
        level_rows(first, items, prefix) == level_rows(second, items, prefix),
    decreases items,
{
    if items.len() > 0 {
        let last = items.len() - 1;
        let path = prefix.push(last as nat);
        let rest = items.drop_last();
        assert forall|q: Seq<nat>| (#[trigger] node_at(rest, q)) is Some implies (first.contains(
            prefix + q,
        ) <==> second.contains(prefix + q)) by {
            assert(node_at(items, q) == node_at(rest, q));
        }
        lemma_level_rows_agree(first, second, rest, prefix);
        assert forall|q: Seq<nat>| (#[trigger] items[last].descend(q)) is Some implies (first.contains(
            path + q,
        ) <==> second.contains(path + q)) by {
            let full = seq![last as nat] + q;
            assert(full.drop_first() =~= q);
            assert(node_at(items, full) == items[last].descend(q));
            assert(prefix + full =~= path + q);
        }
        lemma_node_rows_agree(first, second, items[last], path);
    }
}

/// Entries of the opened list that denote no node of the tree, and entries
/// that repeat another, change nothing: where `extended` holds every entry of
/// `opened`, and each of its own entries is a path that `opened` lists or a
/// path of no node, both give the same listing.
pub proof fn lemma_inert_open_entries<I>(
    opened: Seq<Vec<usize>>,
    extended: Seq<Vec<usize>>,
    items: Seq<TreeItem<I>>,
)
    requires
        forall|k: int|
            0 <= k < opened.len() ==> open_paths(extended).contains(path_of(#[trigger] opened[k]@)),
        forall|k: int|
            0 <= k < extended.len() ==> open_paths(opened).contains(path_of(#[trigger] extended[k]@))
                || node_at(items, path_of(extended[k]@)) is None,
    ensures
        level_rows(open_paths(opened), items, Seq::empty()) == level_rows(
            open_paths(extended),
            items,
            Seq::empty(),
        ),
{
    let first = open_paths(opened);
    let second = open_paths(extended);
    assert forall|q: Seq<nat>| (#[trigger] node_at(items, q)) is Some implies (first.contains(
        Seq::empty() + q,
    ) <==> second.contains(Seq::empty() + q)) by {
        assert(Seq::empty() + q =~= q);
        if first.contains(q) {
            let k = choose|k: int| 0 <= k < opened.len() && path_of(opened[k]@) == q;
            assert(second.contains(path_of(opened[k]@)));
        }
        if second.contains(q) {
            let k = choose|k: int| 0 <= k < extended.len() && path_of(extended[k]@) == q;
            assert(first.contains(path_of(extended[k]@)) || node_at(items, path_of(extended[k]@)) is None);
        }
    }
    lemma_level_rows_agree(first, second, items, Seq::empty());
}

/// Two listings of the same tree under the same opened paths are identical:
/// the same paths, referring to the same nodes, in the same order.
pub proof fn lemma_flatten_deterministic<'a, 'b, I>(
    opened: Seq<Vec<usize>>,
    items: Seq<TreeItem<I>>,
    first: Seq<Flattened<'a, I>>,
    second: Seq<Flattened<'b, I>>,
)
    requires
        rows_of(first) == level_rows(open_paths(opened), items, Seq::empty()),
        rows_of(second) == level_rows(open_paths(opened), items, Seq::empty()),
    ensures
        first.len() == second.len(),
        forall|k: int|
            0 <= k < first.len() ==> (#[trigger] first[k]).identifier@ == second[k].identifier@
                && *first[k].item == *second[k].item,
{
    assert(first.len() == rows_of(first).len() && second.len() == rows_of(second).len());
    assert forall|k: int| 0 <= k < first.len() implies (#[trigger] first[k]).identifier@
        == second[k].identifier@ && *first[k].item == *second[k].item by {
        assert(rows_of(first)[k] == first[k].row() && rows_of(second)[k] == second[k].row());
        lemma_path_of_injective(first[k].identifier@, second[k].identifier@);
    }
}

proof fn lemma_closed_level<I>(items: Seq<TreeItem<I>>, prefix: Seq<nat>)
    ensures
        level_rows(Set::empty(), items, prefix) == Seq::new(
            items.len(),
            |i: int| (prefix.push(i as nat), items[i]),
        ),
    decreases items.len(),
{
    if items.len() > 0 {
        let last = items.len() - 1;
        let path = prefix.push(last as nat);
        lemma_closed_level(items.drop_last(), prefix);
        assert(node_rows(Set::empty(), items[last], path) =~= seq![(path, items[last])]);
        assert(level_rows(Set::empty(), items, prefix) =~= Seq::new(
            items.len(),
            |i: int| (prefix.push(i as nat), items[i]),
        ));
    }
}

/// With nothing opened, the listing is the root level alone, in order, each
/// node at a path of one index, that is at depth 0.
pub proof fn lemma_nothing_open_lists_root_level<I>(items: Seq<TreeItem<I>>)
    ensures
        level_rows(open_paths(Seq::empty()), items, Seq::empty()) == Seq::new(
            items.len(),
            |i: int| (seq![i as nat], items[i]),
        ),
{
    assert(open_paths(Seq::empty()) =~= Set::<Seq<nat>>::empty());
    lemma_closed_level(items, Seq::empty());
    assert(Seq::new(items.len(), |i: int| (Seq::<nat>::empty().push(i as nat), items[i])) =~= Seq::new(
        items.len(),
        |i: int| (seq![i as nat], items[i]),
    ));
}

} // verus!
