//! The tree of values that a JSON text writes.

use crate::entries::views;
use vstd::prelude::*;

verus! {

/// A JSON value. An object holds its members in the order in which they are
/// written. Of a number with a fraction or an exponent only its presence is
/// held, as `Real`, not its value: a text with such a number is read, but
/// written back with `null` in its place.
#[derive(Debug)]
pub enum Tree {
    Null,
    Boolean(bool),
    I64(i64),
    U64(u64),
    Real,
    String(String),
    Array(Vec<Tree>),
    Object(Vec<(String, Tree)>),
}

/// What a tree holds.
pub enum TreeView {
    Null,
    Boolean(bool),
    I64(i64),
    U64(u64),
    Real,
    String(Seq<char>),
    Array(Seq<TreeView>),
    Object(Seq<(Seq<char>, TreeView)>),
}

impl View for Tree {
    type V = TreeView;

    open spec fn view(&self) -> TreeView
        decreases self,
    {
        match self {
            Tree::Null => TreeView::Null,
            Tree::Boolean(b) => TreeView::Boolean(*b),
            Tree::I64(n) => TreeView::I64(*n),
            Tree::U64(n) => TreeView::U64(*n),
            Tree::Real => TreeView::Real,
            Tree::String(s) => TreeView::String(s@),
            Tree::Array(items) => TreeView::Array(
                Seq::new(
                    items@.len(),
                    |i: int|
                        if 0 <= i < items@.len() {
                            items@[i].view()
                        } else {
                            TreeView::Null
                        },
                ),
            ),
            Tree::Object(members) => TreeView::Object(
                Seq::new(
                    members@.len(),
                    |i: int|
                        if 0 <= i < members@.len() {
                            (members@[i].0@, members@[i].1.view())
                        } else {
                            (Seq::empty(), TreeView::Null)
                        },
                ),
            ),
        }
    }
}

/// What a list of trees holds.
pub open spec fn item_views(items: Seq<Tree>) -> Seq<TreeView> {
    Seq::new(items.len(), |i: int| items[i]@)
}

/// An object holds the views of its members.
pub proof fn lemma_object_view(members: Vec<(String, Tree)>)
    ensures
        Tree::Object(members)@ == TreeView::Object(views(members@)),
{
    reveal_with_fuel(<Tree as View>::view, 2);
    assert(Tree::Object(members)@->Object_0 =~= views(members@));
}

/// An array holds the views of its items.
pub proof fn lemma_array_view(items: Vec<Tree>)
    ensures
        Tree::Array(items)@ == TreeView::Array(item_views(items@)),
{
    reveal_with_fuel(<Tree as View>::view, 2);
    assert(Tree::Array(items)@->Array_0 =~= item_views(items@));
}

/// The tree nests at most `limit` objects and arrays in one another.
pub open spec fn shallow(tree: TreeView, limit: nat) -> bool
    decreases limit,
{
    match tree {
        TreeView::Array(items) => {
            &&& limit > 0
            &&& forall|i: int|
                0 <= i < items.len() ==> shallow(#[trigger] items[i], (limit - 1) as nat)
        },
        TreeView::Object(members) => {
            &&& limit > 0
            &&& forall|i: int|
                0 <= i < members.len() ==> shallow((#[trigger] members[i]).1, (limit - 1) as nat)
        },
        _ => true,
    }
}

/// An array nests within a limit exactly if each of its items nests within
/// one less.
pub proof fn lemma_shallow_array(items: Seq<TreeView>, limit: nat)
    ensures
        shallow(TreeView::Array(items), limit) == (limit > 0 && forall|i: int|
            0 <= i < items.len() ==> shallow(#[trigger] items[i], (limit - 1) as nat)),
{
    let tree = TreeView::Array(items);
    assert(tree->Array_0 == items);
    if shallow(tree, limit) {
        assert forall|i: int| 0 <= i < items.len() implies shallow(
            #[trigger] items[i],
            (limit - 1) as nat,
        ) by {
            assert(shallow(tree->Array_0[i], (limit - 1) as nat));
        }
    }
}

/// An object nests within a limit exactly if the value of each of its
/// members nests within one less.
pub proof fn lemma_shallow_object(members: Seq<(Seq<char>, TreeView)>, limit: nat)
    ensures
        shallow(TreeView::Object(members), limit) == (limit > 0 && forall|i: int|
            0 <= i < members.len() ==> shallow((#[trigger] members[i]).1, (limit - 1) as nat)),
{
    let tree = TreeView::Object(members);
    assert(tree->Object_0 == members);
    if shallow(tree, limit) {
        assert forall|i: int| 0 <= i < members.len() implies shallow(
            (#[trigger] members[i]).1,
            (limit - 1) as nat,
        ) by {
            assert(shallow(tree->Object_0[i].1, (limit - 1) as nat));
        }
    }
}

/// A tree that nests within a limit nests within every greater one.
pub proof fn lemma_shallow_more(tree: TreeView, limit: nat, more: nat)
    requires
        shallow(tree, limit),
        limit <= more,
    ensures
        shallow(tree, more),
    decreases limit,
{
    match tree {
        TreeView::Array(items) => {
            lemma_shallow_array(items, limit);
            lemma_shallow_array(items, more);
            assert forall|i: int| 0 <= i < items.len() implies shallow(
                #[trigger] items[i],
                (more - 1) as nat,
            ) by {
                lemma_shallow_more(items[i], (limit - 1) as nat, (more - 1) as nat);
            }
        },
        TreeView::Object(members) => {
            lemma_shallow_object(members, limit);
            lemma_shallow_object(members, more);
            assert forall|i: int| 0 <= i < members.len() implies shallow(
                (#[trigger] members[i]).1,
                (more - 1) as nat,
            ) by {
                lemma_shallow_more(members[i].1, (limit - 1) as nat, (more - 1) as nat);
            }
        },
        _ => {},
    }
}

impl Tree {
    /// Whether the tree nests at most `limit` objects and arrays in one
    /// another.
    pub fn is_shallow(&self, limit: usize) -> (r: bool)
        ensures
            r == shallow(self@, limit as nat),
        decreases limit,
    {
        match self {
            Tree::Array(items) => {
                let ghost list = item_views(items@);
                proof {
                    lemma_array_view(*items);
                    lemma_shallow_array(list, limit as nat);
                }
                if limit == 0 {
                    return false;
                }
                let mut i: usize = 0;
                while i < items.len()
                    invariant
                        limit > 0,
                        list == item_views(items@),
                        self@ == TreeView::Array(list),
                        shallow(self@, limit as nat) == forall|k: int|
                            0 <= k < list.len() ==> shallow(#[trigger] list[k], (limit - 1) as nat),
                        i <= items@.len(),
                        forall|k: int|
                            0 <= k < i ==> shallow(#[trigger] list[k], (limit - 1) as nat),
                    decreases items@.len() - i,
                {
                    if !items[i].is_shallow(limit - 1) {
                        assert(!shallow(list[i as int], (limit - 1) as nat));
                        return false;
                    }
                    i = i + 1;
                }
                true
            },
            Tree::Object(members) => {
                let ghost list = views(members@);
                proof {
                    lemma_object_view(*members);
                    lemma_shallow_object(list, limit as nat);
                }
                if limit == 0 {
                    return false;
                }
                let mut i: usize = 0;
                while i < members.len()
                    invariant
                        limit > 0,
                        list == views(members@),
                        self@ == TreeView::Object(list),
                        shallow(self@, limit as nat) == forall|k: int|
                            0 <= k < list.len() ==> shallow(
                                (#[trigger] list[k]).1,
                                (limit - 1) as nat,
                            ),
                        i <= members@.len(),
                        forall|k: int|
                            0 <= k < i ==> shallow((#[trigger] list[k]).1, (limit - 1) as nat),
                    decreases members@.len() - i,
                {
                    if !members[i].1.is_shallow(limit - 1) {
                        assert(!shallow(list[i as int].1, (limit - 1) as nat));
                        return false;
                    }
                    i = i + 1;
                }
                true
            },
            _ => true,
        }
    }
}

} // verus!
