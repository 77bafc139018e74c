use vstd::prelude::*;

verus! {

/// One node of a tree: an opaque payload and its ordered children.
///
/// A node knows neither its parent nor its own position; its identity is the
/// path by which it is reached.
pub struct TreeItem<I> {
    pub content: I,
    pub children: Vec<TreeItem<I>>,
}

impl<I> TreeItem<I> {
    /// A node with the given payload and children.
    pub fn new(content: I, children: Vec<TreeItem<I>>) -> (r: TreeItem<I>)
        ensures
            r.content == content,
            r.children@ == children@,
    {
        TreeItem { content, children }
    }

    /// A node with the given payload and no children.
    pub fn new_leaf(content: I) -> (r: TreeItem<I>)
        ensures
            r.content == content,
            r.children@.len() == 0,
    {
        TreeItem { content, children: Vec::new() }
    }

    /// The node reached from this one by following `steps`, one child index
    /// per level; `None` where an index is out of range.
    pub open spec fn descend(self, steps: Seq<nat>) -> Option<TreeItem<I>>
        decreases steps.len(),
    {
        if steps.len() == 0 {
            Some(self)
        } else if steps[0] < self.children@.len() {
            self.children@[steps[0] as int].descend(steps.drop_first())
        } else {
            None
        }
    }
}

/// The node that `path` denotes in the tree whose root level is `items`, if any.
pub open spec fn node_at<I>(items: Seq<TreeItem<I>>, path: Seq<nat>) -> Option<TreeItem<I>> {
    if path.len() >= 1 && path[0] < items.len() {
        items[path[0] as int].descend(path.drop_first())
    } else {
        None
    }
}

} // verus!
