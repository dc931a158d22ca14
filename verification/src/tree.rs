//! Parse trees.
//!
//! A grammar engine matches source text against a grammar and reports what it found as
//! a tree: every node names the rule that matched, the text it matched, and the nodes
//! matched inside it. The builders of this crate read such trees and nothing else of
//! the engine.

use vstd::prelude::*;

verus! {

/// One node of a parse tree, labelled by a rule of type `R`.
#[derive(Debug, PartialEq, Eq)]
pub struct Node<'a, R> {
    /// The grammar rule that produced the node.
    pub rule: R,
    /// The source text that the node matched.
    pub text: &'a str,
    /// The source text that the children span, from the start of the first to the end
    /// of the last; empty where there are none.
    pub inner: &'a str,
    /// The nodes matched inside this one, in source order.
    pub children: Vec<Node<'a, R>>,
}

/// What a [`Node`] stands for: the same tree over mathematical sequences.
pub ghost struct Tree<R> {
    pub rule: R,
    pub text: Seq<char>,
    pub inner: Seq<char>,
    pub children: Seq<Tree<R>>,
}

impl<'a, R> View for Node<'a, R> {
    type V = Tree<R>;

    open spec fn view(&self) -> Tree<R> {
        tree_of(*self)
    }
}

/// The tree that a node stands for.
pub open spec fn tree_of<'a, R>(node: Node<'a, R>) -> Tree<R>
    decreases node,
{
    Tree {
        rule: node.rule,
        text: node.text@,
        inner: node.inner@,
        children: trees(node.children@),
    }
}

/// The trees that a sequence of nodes stands for, one for one.
pub open spec fn trees<'a, R>(nodes: Seq<Node<'a, R>>) -> Seq<Tree<R>>
    decreases nodes,
{
    if nodes.len() == 0 {
        Seq::empty()
    } else {
        trees(nodes.drop_last()).push(tree_of(nodes.last()))
    }
}

/// The trees of a sequence of nodes are the trees of its nodes, place by place.
pub proof fn lemma_trees<'a, R>(nodes: Seq<Node<'a, R>>)
    ensures
        trees(nodes).len() == nodes.len(),
        forall|i: int| 0 <= i < nodes.len() ==> (#[trigger] trees(nodes)[i]) == nodes[i]@,
    decreases nodes.len(),
{
    if nodes.len() > 0 {
        lemma_trees(nodes.drop_last());
    }
}

impl<'a, R> Node<'a, R> {
    /// A node without children.
    pub fn leaf(rule: R, text: &'a str) -> (node: Self)
        ensures
            node@ == (Tree { rule, text: text@, inner: Seq::empty(), children: Seq::empty() }),
    {
        let node = Node { rule, text, inner: "", children: Vec::new() };
        proof {
            reveal_strlit("");
            assert(node@.inner =~= Seq::<char>::empty());
        }
        node
    }

    /// A node with the given children, which span the text `inner`.
    pub fn parent(rule: R, text: &'a str, inner: &'a str, children: Vec<Node<'a, R>>) -> (node:
        Self)
        ensures
            node@ == (Tree { rule, text: text@, inner: inner@, children: trees(children@) }),
    {
        Node { rule, text, inner, children }
    }
}

/// Copies of the nodes of a sequence, one for one.
fn copy_all<'a, R: Copy>(nodes: &Vec<Node<'a, R>>) -> (copies: Vec<Node<'a, R>>)
    ensures
        trees(copies@) == trees(nodes@),
    decreases nodes,
{
    let mut copies: Vec<Node<'a, R>> = Vec::new();
    let mut i: usize = 0;
    proof {
        assert(nodes@.take(0) == Seq::<Node<'a, R>>::empty());
    }
    while i < nodes.len()
        invariant
            i <= nodes.len(),
            trees(copies@) == trees(nodes@.take(i as int)),
        decreases nodes.len() - i,
    {
        let copy = nodes[i].clone();
        let ghost before = copies@;
        copies.push(copy);
        proof {
            assert(copies@.drop_last() == before);
            assert(nodes@.take(i + 1).drop_last() == nodes@.take(i as int));
            assert(nodes@.take(i + 1).last() == nodes@[i as int]);
        }
        i += 1;
    }
    proof {
        assert(nodes@.take(i as int) == nodes@);
    }
    copies
}

impl<'a, R: Copy> Clone for Node<'a, R> {
    /// A copy that stands for the same tree.
    fn clone(&self) -> (copy: Self)
        ensures
            copy@ == self@,
        decreases self,
    {
        Node {
            rule: self.rule,
            text: self.text,
            inner: self.inner,
            children: copy_all(&self.children),
        }
    }
}

/// The results of a walk gathered into one: the values in order where every step
/// succeeded, and otherwise the failure of the first step that failed.
pub open spec fn collect<T, E>(results: Seq<Result<T, E>>) -> Result<Seq<T>, E>
    decreases results.len(),
{
    if results.len() == 0 {
        Ok(Seq::empty())
    } else {
        match collect(results.drop_last()) {
            Err(failure) => Err(failure),
            Ok(values) => match results.last() {
                Err(failure) => Err(failure),
                Ok(value) => Ok(values.push(value)),
            },
        }
    }
}

/// Gathering succeeds exactly when every step succeeded, and then keeps every value
/// in its place.
pub proof fn lemma_collect_ok<T, E>(results: Seq<Result<T, E>>)
    ensures
        collect(results) is Ok <==> forall|i: int|
            0 <= i < results.len() ==> (#[trigger] results[i]) is Ok,
        collect(results) matches Ok(values) ==> {
            &&& values.len() == results.len()
            &&& forall|i: int| 0 <= i < results.len() ==> results[i] == Ok::<T, E>(#[trigger] values[i])
        },
    decreases results.len(),
{
    if results.len() > 0 {
        lemma_collect_ok(results.drop_last());
        let init = results.drop_last();
        if collect(results) is Ok {
            assert forall|i: int| 0 <= i < results.len() implies (#[trigger] results[i]) is Ok by {
                if i < init.len() {
                    assert(init[i] == results[i]);
                }
            }
        } else if collect(init) is Ok {
            assert(!(results[results.len() - 1] is Ok));
        } else {
            let i = choose|i: int| 0 <= i < init.len() && !((#[trigger] init[i]) is Ok);
            assert(results[i] == init[i]);
        }
        if let Ok(values) = collect(results) {
            assert forall|i: int| 0 <= i < results.len() implies results[i] == Ok::<T, E>(
                #[trigger] values[i],
            ) by {
                if i < init.len() {
                    assert(init[i] == results[i]);
                }
            }
        }
    }
}

/// Gathering fails with the failure of the first step that failed.
pub proof fn lemma_collect_err<T, E>(results: Seq<Result<T, E>>, first: int)
    requires
        0 <= first < results.len(),
        results[first] is Err,
        forall|i: int| 0 <= i < first ==> (#[trigger] results[i]) is Ok,
    ensures
        collect(results) == Err::<Seq<T>, E>(results[first]->Err_0),
    decreases results.len(),
{
    let init = results.drop_last();
    if first == results.len() - 1 {
        lemma_collect_ok(init);
        assert forall|i: int| 0 <= i < init.len() implies (#[trigger] init[i]) is Ok by {
            assert(init[i] == results[i]);
        }
    } else {
        assert(init[first] == results[first]);
        assert forall|i: int| 0 <= i < first implies (#[trigger] init[i]) is Ok by {
            assert(init[i] == results[i]);
        }
        lemma_collect_err(init, first);
    }
}

/// Gathering one more step after the others.
pub proof fn lemma_collect_push<T, E>(results: Seq<Result<T, E>>, next: Result<T, E>)
    ensures
        collect(results.push(next)) == match collect(results) {
            Err(failure) => Err(failure),
            Ok(values) => match next {
                Err(failure) => Err(failure),
                Ok(value) => Ok(values.push(value)),
            },
        },
{
    assert(results.push(next).drop_last() == results);
}

/// Gathering step by step: after the first `i` steps have succeeded, a success at
/// step `i` adds its value, and a failure there is the failure of the whole.
pub proof fn lemma_collect_step<T, E>(results: Seq<Result<T, E>>, i: int)
    requires
        0 <= i < results.len(),
        collect(results.take(i)) is Ok,
    ensures
        match results[i] {
            Ok(value) => collect(results.take(i + 1)) == Ok::<Seq<T>, E>(
                collect(results.take(i))->Ok_0.push(value),
            ),
            Err(failure) => collect(results) == Err::<Seq<T>, E>(failure),
        },
{
    assert(results.take(i + 1) == results.take(i).push(results[i]));
    lemma_collect_push(results.take(i), results[i]);
    if results[i] is Err {
        lemma_collect_ok(results.take(i));
        assert forall|j: int| 0 <= j < i implies (#[trigger] results[j]) is Ok by {
            assert(results.take(i)[j] == results[j]);
        }
        lemma_collect_err(results, i);
    }
}

} // verus!
