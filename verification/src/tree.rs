//! Ordered trees: `FlatTree`, the trees the parser produces, and `STree`, their
//! mathematical value.
use vstd::prelude::*;

verus! {

/// A tree in specifications: a value and the subtrees below it, in order.
pub struct STree<V> {
    pub data: V,
    pub children: Seq<STree<V>>,
}

/// A tree of values: a value and its children, in order.
#[derive(Debug, PartialEq)]
pub struct FlatTree<T> {
    pub data: T,
    pub children: Vec<FlatTree<T>>,
}

impl<T: View> View for FlatTree<T> {
    type V = STree<T::V>;

    open spec fn view(&self) -> STree<T::V> {
        tree_view(*self)
    }
}

/// The value of a tree: its data's value over the values of its children.
pub open spec fn tree_view<T: View>(t: FlatTree<T>) -> STree<T::V>
    decreases t,
{
    STree { data: t.data@, children: trees_view(t.children@) }
}

/// The values of a sequence of trees, in order.
pub open spec fn trees_view<T: View>(ts: Seq<FlatTree<T>>) -> Seq<STree<T::V>>
    decreases ts,
{
    if ts.len() == 0 {
        Seq::empty()
    } else {
        trees_view(ts.drop_last()).push(tree_view(ts.last()))
    }
}

/// The values of a sequence of trees are the trees' values, one for one.
pub proof fn lemma_trees_view<T: View>(ts: Seq<FlatTree<T>>)
    ensures
        trees_view(ts).len() == ts.len(),
        forall|i: int| 0 <= i < ts.len() ==> #[trigger] trees_view(ts)[i] == ts[i]@,
    decreases ts.len(),
{
    if ts.len() > 0 {
        lemma_trees_view(ts.drop_last());
        assert forall|i: int| 0 <= i < ts.len() implies #[trigger] trees_view(ts)[i] == ts[i]@ by {
            if i < ts.len() - 1 {
                assert(ts.drop_last()[i] == ts[i]);
            }
        }
    }
}

impl<T: View> FlatTree<T> {
    /// The tree with `data` at its root and `children` below it.
    pub fn new(data: T, children: Vec<FlatTree<T>>) -> (tree: FlatTree<T>)
        ensures
            tree.data == data,
            tree.children == children,
            tree@ == (STree { data: data@, children: trees_view(children@) }),
    {
        FlatTree { data, children }
    }
}

/// The value of a tree is its data's value over its children's values.
pub proof fn lemma_view_children<T: View>(t: FlatTree<T>)
    ensures
        t@.data == t.data@,
        t@.children == trees_view(t.children@),
        t@.children.len() == t.children@.len(),
        forall|i: int| 0 <= i < t.children@.len() ==> #[trigger] t@.children[i] == t.children@[i]@,
{
    lemma_trees_view(t.children@);
}

}
