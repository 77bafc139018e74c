use vstd::prelude::*;
use vstd::slice::slice_to_vec;

use crate::tree::TreeItem;

verus! {

/// A path as the sequence of sibling indices that it holds.
pub open spec fn path_of(indices: Seq<usize>) -> Seq<nat> {
    indices.map_values(|i: usize| i as nat)
}

/// The paths listed in `opened`, as a set: neither their order nor a repeated
/// entry plays any part.
pub open spec fn open_paths(opened: Seq<Vec<usize>>) -> Set<Seq<nat>> {
    Set::new(|p: Seq<nat>| exists|k: int| 0 <= k < opened.len() && path_of(opened[k]@) == p)
}

/// The rows that `node`, reached at `path`, contributes: the node itself, then,
/// when `path` is open, the rows of its children one level below.
pub open spec fn node_rows<I>(open: Set<Seq<nat>>, node: TreeItem<I>, path: Seq<nat>) -> Seq<
    (Seq<nat>, TreeItem<I>),
>
    decreases node,
{
    seq![(path, node)] + if open.contains(path) {
        level_rows(open, node.children@, path)
    } else {
        Seq::empty()
    }
}

/// The rows of the siblings `items`, whose parent has the path `prefix`: the
/// rows of each sibling in turn, the one at index `i` reached at `prefix + [i]`.
pub open spec fn level_rows<I>(open: Set<Seq<nat>>, items: Seq<TreeItem<I>>, prefix: Seq<nat>) -> Seq<
    (Seq<nat>, TreeItem<I>),
>
    decreases items,
{
    if items.len() == 0 {
        Seq::empty()
    } else {
        let last = items.len() - 1;
        level_rows(open, items.drop_last(), prefix) + node_rows(
            open,
            items[last],
            prefix.push(last as nat),
        )
    }
}

/// One visible node: its path from the root level and a reference to it.
pub struct Flattened<'a, I> {
    pub identifier: Vec<usize>,
    pub item: &'a TreeItem<I>,
}

impl<'a, I> Flattened<'a, I> {
    /// The record as a row of the model: its path and the node it refers to.
    pub open spec fn row(&self) -> (Seq<nat>, TreeItem<I>) {
        (path_of(self.identifier@), *self.item)
    }

    /// How deep the node lies: 0 on the root level, one more on each level below.
    pub fn depth(&self) -> (r: usize)
        requires
            self.identifier@.len() >= 1,
        ensures
            r == self.identifier@.len() - 1,
    {
        self.identifier.len() - 1
    }
}

/// The rows of a list of records.
pub open spec fn rows_of<'a, I>(records: Seq<Flattened<'a, I>>) -> Seq<(Seq<nat>, TreeItem<I>)> {
    records.map_values(|f: Flattened<'a, I>| f.row())
}

/// Lists every visible node of the tree whose root level is `items`, given the
/// paths of the opened nodes: a node is listed, followed by the listing of its
/// children when its own path is opened, and siblings come in their order.
pub fn flatten<'a, I>(opened: &[Vec<usize>], items: &'a [TreeItem<I>]) -> (r: Vec<Flattened<'a, I>>)
    ensures
        rows_of(r@) == level_rows(open_paths(opened@), items@, Seq::empty()),
{
    let root: Vec<usize> = Vec::new();
    assert(path_of(root@) =~= Seq::empty());
    internal(opened, items, root.as_slice())
}

/// The records of the siblings `items`, whose parent has the path `current`,
/// and of everything that is visible below them.
fn internal<'a, I>(opened: &[Vec<usize>], items: &'a [TreeItem<I>], current: &[usize]) -> (r: Vec<
    Flattened<'a, I>,
>)
    ensures
        rows_of(r@) == level_rows(open_paths(opened@), items@, path_of(current@)),
    decreases items@,
{
    let ghost open = open_paths(opened@);
    let mut result: Vec<Flattened<'a, I>> = Vec::new();
    let mut index: usize = 0;
    while index < items.len()
        invariant
            index <= items@.len(),
            open == open_paths(opened@),
            rows_of(result@) == level_rows(open, items@.subrange(0, index as int), path_of(current@)),
        decreases items@.len() - index,
    {
        let item = &items[index];
        let mut child_identifier = slice_to_vec(current);
        child_identifier.push(index);
        let ghost before = result@;
        result.push(Flattened { item, identifier: child_identifier.clone() });
        let ghost below: Seq<(Seq<nat>, TreeItem<I>)> = Seq::empty();
        if contains_path(opened, &child_identifier) {
            proof {
                assert(decreases_to!(items@ => items@[index as int].children@));
            }
            let mut child_result = internal(opened, item.children.as_slice(), child_identifier.as_slice());
            proof {
                below = rows_of(child_result@);
            }
            result.append(&mut child_result);
        }
        proof {
            let done = items@.subrange(0, index as int);
            let next = items@.subrange(0, index as int + 1);
            let path = path_of(current@).push(index as nat);
            assert(path_of(child_identifier@) =~= path);
            assert(next.drop_last() =~= done);
            assert(next[index as int] == *item);
            let parent = path_of(current@);
            assert(level_rows(open, next, parent) == level_rows(open, done, parent) + node_rows(
                open,
                *item,
                path,
            ));
            assert(node_rows(open, *item, path) == seq![(path, *item)] + below);
            assert(rows_of(result@) =~= rows_of(before) + seq![(path, *item)] + below);
        }
        index += 1;
    }
    assert(items@.subrange(0, items@.len() as int) =~= items@);
    result
}

/// Whether `path` is one of the entries of `opened`.
fn contains_path(opened: &[Vec<usize>], path: &Vec<usize>) -> (r: bool)
    ensures
        r == open_paths(opened@).contains(path_of(path@)),
{
    let mut k: usize = 0;
    while k < opened.len()
        invariant
            k <= opened@.len(),
            forall|j: int| 0 <= j < k ==> path_of(opened@[j]@) != path_of(path@),
        decreases opened@.len() - k,
    {
        if same_path(&opened[k], path) {
            return true;
        }
        proof {
            if path_of(opened@[k as int]@) == path_of(path@) {
                lemma_path_of_injective(opened@[k as int]@, path@);
            }
        }
        k += 1;
    }
    false
}

pub(crate) proof fn lemma_path_of_injective(a: Seq<usize>, b: Seq<usize>)
    requires
        path_of(a) == path_of(b),
    ensures
        a == b,
{
    assert(a.len() == path_of(a).len() && b.len() == path_of(b).len());
    assert forall|i: int| 0 <= i < a.len() implies a[i] == b[i] by {
        assert(path_of(a)[i] == a[i] as nat && path_of(b)[i] == b[i] as nat);
    }
    assert(a =~= b);
}

/// Whether two paths hold the same indices in the same order.
fn same_path(a: &Vec<usize>, b: &Vec<usize>) -> (r: bool)
    ensures
        r == (a@ == b@),
{
    if a.len() != b.len() {
        return false;
    }
    let mut k: usize = 0;
    while k < a.len()
        invariant
            k <= a@.len(),
            a@.len() == b@.len(),
            forall|j: int| 0 <= j < k ==> a@[j] == b@[j],
        decreases a@.len() - k,
    {
        if a[k] != b[k] {
            return false;
        }
        k += 1;
    }
    assert(a@ =~= b@);
    true
}

} // verus!
