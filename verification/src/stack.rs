//! A LIFO stack of heap-allocated nodes, each owning its payload and the
//! rest of the chain. A push or a pop is one atomic step on the head: it
//! has the head to itself from reading it to replacing it, as a
//! load-linked and store-conditional pair that succeeds has. A popped node
//! is released at once; nobody else can still reach it, because nobody
//! keeps a pointer to a node from one step to the next.

use vstd::multiset::Multiset;
use vstd::prelude::*;
use vstd::seq_lib::to_multiset_build;
use vstd::seq_lib::to_multiset_insert;
use vstd::seq_lib::to_multiset_remove;

verus! {

/// One element of the chain: its payload and the node below it.
struct Node<T> {
    next: Option<Box<Node<T>>>,
    data: T,
}

/// The payloads of a chain, topmost first.
spec fn chain<T>(head: Option<Box<Node<T>>>) -> Seq<T>
    decreases head,
{
    match head {
        None => Seq::empty(),
        Some(node) => seq![node.data] + chain(node.next),
    }
}

/// The head of the stack: the topmost node, if any. It owns every node
/// that can be reached from it.
pub struct StackHead<T> {
    head: Option<Box<Node<T>>>,
}

impl<T> View for StackHead<T> {
    type V = Seq<T>;

    /// The payloads on the stack, topmost first.
    closed spec fn view(&self) -> Seq<T> {
        chain(self.head)
    }
}

impl<T> StackHead<T> {
    /// An empty stack.
    pub fn new() -> (s: Self)
        ensures
            s@ == Seq::<T>::empty(),
    {
        StackHead { head: None }
    }

    /// Whether the stack holds nothing.
    pub fn is_empty(&self) -> (b: bool)
        ensures
            b == (self@.len() == 0),
    {
        self.head.is_none()
    }

    /// Puts `v` on top of the stack.
    pub fn push(&mut self, v: T)
        ensures
            final(self)@ == seq![v] + old(self)@,
    {
        let below = self.head.take();
        let node = Box::new(Node { next: below, data: v });
        self.head = Some(node);
    }

    /// Takes the topmost value off the stack; nothing if it is empty.
    pub fn pop(&mut self) -> (r: Option<T>)
        ensures
            old(self)@.len() == 0 ==> r is None && final(self)@ == old(self)@,
            old(self)@.len() > 0 ==> r == Some(old(self)@[0]) && final(self)@ == old(
                self,
            )@.drop_first(),
    {
        match self.head.take() {
            None => {
                assert(self@ =~= old(self)@);
                None
            },
            Some(node) => {
                let n: Node<T> = *node;
                self.head = n.next;
                assert(self@ =~= old(self)@.drop_first());
                Some(n.data)
            },
        }
    }
}

impl<T> Drop for StackHead<T> {
    /// Releases the nodes one by one, from the top down.
    fn drop(&mut self)
        opens_invariants none
        no_unwind
    {
        let mut node: Option<Box<Node<T>>> = None;
        core::mem::swap(&mut self.head, &mut node);
        let mut more: bool = true;
        while more
            invariant
                !more ==> node is None,
            decreases chain(node).len() + if more { 1nat } else { 0nat },
        {
            match node {
                None => {
                    node = None;
                    more = false;
                },
                Some(top) => {
                    let n: Node<T> = *top;
                    node = n.next;
                },
            }
        }
    }
}

/// A stack that hands out its head for pushing and popping.
pub struct Stack<T> {
    data: StackHead<T>,
}

impl<T> View for Stack<T> {
    type V = Seq<T>;

    /// The payloads on the stack, topmost first.
    closed spec fn view(&self) -> Seq<T> {
        self.data@
    }
}

impl<T> Stack<T> {
    /// An empty stack.
    pub fn new() -> (s: Self)
        ensures
            s@ == Seq::<T>::empty(),
    {
        Stack { data: StackHead::new() }
    }

    /// The head of the stack, for one push or pop.
    pub fn get_mut(&mut self) -> (head: &mut StackHead<T>)
        ensures
            head@ == old(self)@,
            final(self)@ == final(head)@,
    {
        &mut self.data
    }
}


impl<T> Default for Stack<T> {
    /// An empty stack.
    fn default() -> (s: Self)
        ensures
            s@ == Seq::<T>::empty(),
    {
        Stack::new()
    }
}

/// One operation on a stack.
pub enum StackOp<T> {
    /// A push of this value.
    Push(T),
    /// A pop.
    Pop,
}

/// What a sequence of operations has done to a stack.
pub struct Trace<T> {
    /// The payloads left on the stack, topmost first.
    pub stack: Seq<T>,
    /// The values that were pushed, in the order of the pushes.
    pub pushed: Seq<T>,
    /// The values that pops returned, in the order of the pops.
    pub popped: Seq<T>,
}

/// The outcome of applying `ops`, one after the other, to a stack that
/// holds `start`. Each push works as `StackHead::push` does and each pop
/// as `StackHead::pop`.
pub open spec fn apply_ops<T>(start: Seq<T>, ops: Seq<StackOp<T>>) -> Trace<T>
    decreases ops.len(),
{
    if ops.len() == 0 {
        Trace { stack: start, pushed: Seq::empty(), popped: Seq::empty() }
    } else {
        let before = apply_ops(start, ops.drop_last());
        match ops.last() {
            StackOp::Push(v) => Trace {
                stack: seq![v] + before.stack,
                pushed: before.pushed.push(v),
                ..before
            },
            StackOp::Pop => if before.stack.len() == 0 {
                before
            } else {
                Trace {
                    stack: before.stack.drop_first(),
                    popped: before.popped.push(before.stack[0]),
                    ..before
                }
            },
        }
    }
}

/// Whatever the order in which pushes and pops reach the stack, no value
/// is lost, doubled or made up: the values that were there at the start
/// and the values pushed are, with their multiplicities, the values popped
/// and the values still on the stack.
pub proof fn law_multiset_preserved<T>(start: Seq<T>, ops: Seq<StackOp<T>>)
    ensures
        start.to_multiset().add(apply_ops(start, ops).pushed.to_multiset()) == apply_ops(
            start,
            ops,
        ).popped.to_multiset().add(apply_ops(start, ops).stack.to_multiset()),
    decreases ops.len(),
{
    broadcast use vstd::multiset::group_multiset_axioms;

    let end = apply_ops(start, ops);
    if ops.len() == 0 {
        lemma_nothing_in_empty(end.pushed);
        lemma_nothing_in_empty(end.popped);
        assert(start.to_multiset().add(end.pushed.to_multiset()) =~= end.popped.to_multiset().add(
            end.stack.to_multiset(),
        ));
    } else {
        let before = apply_ops(start, ops.drop_last());
        law_multiset_preserved(start, ops.drop_last());
        match ops.last() {
            StackOp::Push(v) => {
                assert(seq![v] + before.stack =~= before.stack.insert(0, v));
                to_multiset_insert(before.stack, 0, v);
                to_multiset_build(before.pushed, v);
                assert(end.stack.to_multiset() == before.stack.to_multiset().insert(v));
                assert(end.pushed.to_multiset() == before.pushed.to_multiset().insert(v));
                lemma_both_gain(
                    start.to_multiset(),
                    before.pushed.to_multiset(),
                    before.popped.to_multiset(),
                    before.stack.to_multiset(),
                    v,
                );
            },
            StackOp::Pop => {
                if before.stack.len() > 0 {
                    assert(before.stack.drop_first() =~= before.stack.remove(0));
                    to_multiset_remove(before.stack, 0);
                    to_multiset_build(before.popped, before.stack[0]);
                    before.stack.to_multiset_ensures();
                    assert(before.stack.contains(before.stack[0]));
                    lemma_one_moves(
                        before.popped.to_multiset(),
                        before.stack.to_multiset(),
                        before.stack[0],
                    );
                }
            },
        }
    }
}

/// Once the stack has been drained, what was popped is exactly what was
/// pushed, and one more pop returns nothing.
pub proof fn law_drained_stack<T>(ops: Seq<StackOp<T>>)
    requires
        apply_ops(Seq::empty(), ops).stack.len() == 0,
    ensures
        apply_ops(Seq::empty(), ops).popped.to_multiset() == apply_ops(
            Seq::empty(),
            ops,
        ).pushed.to_multiset(),
        apply_ops(Seq::empty(), ops.push(StackOp::Pop)) == apply_ops(Seq::empty(), ops),
{
    broadcast use vstd::multiset::group_multiset_axioms;

    let end = apply_ops(Seq::<T>::empty(), ops);
    law_multiset_preserved(Seq::<T>::empty(), ops);
    lemma_nothing_in_empty(Seq::<T>::empty());
    lemma_nothing_in_empty(end.stack);
    assert forall|a: T| end.popped.to_multiset().count(a) == end.pushed.to_multiset().count(
        a,
    ) by {
        assert(Multiset::<T>::empty().add(end.pushed.to_multiset()).count(a)
            == end.popped.to_multiset().add(Multiset::<T>::empty()).count(a));
    }
    assert(end.popped.to_multiset() =~= end.pushed.to_multiset());
    assert(ops.push(StackOp::Pop).drop_last() =~= ops);
}


/// A sequence without elements holds nothing.
proof fn lemma_nothing_in_empty<T>(s: Seq<T>)
    requires
        s.len() == 0,
    ensures
        s.to_multiset() == Multiset::<T>::empty(),
{
    broadcast use vstd::multiset::group_multiset_axioms;

    s.to_multiset_ensures();
    assert forall|a: T| s.to_multiset().count(a) == 0 by {
        assert(!s.contains(a));
    }
    assert(s.to_multiset() =~= Multiset::<T>::empty());
}


/// Two equal sums stay equal when one summand on each side gains `v`.
proof fn lemma_both_gain<T>(a: Multiset<T>, b: Multiset<T>, c: Multiset<T>, d: Multiset<T>, v: T)
    requires
        a.add(b) == c.add(d),
    ensures
        a.add(b.insert(v)) == c.add(d.insert(v)),
{
    broadcast use vstd::multiset::group_multiset_axioms;

    assert forall|x: T| a.add(b.insert(v)).count(x) == c.add(d.insert(v)).count(x) by {
        assert(a.add(b).count(x) == c.add(d).count(x));
        assert(a.add(b).count(x) == a.count(x) + b.count(x));
        assert(c.add(d).count(x) == c.count(x) + d.count(x));
        assert(b.insert(v).count(x) == b.count(x) + Multiset::singleton(v).count(x));
        assert(d.insert(v).count(x) == d.count(x) + Multiset::singleton(v).count(x));
    }
    assert(a.add(b.insert(v)) =~= c.add(d.insert(v)));
}

/// A sum does not change when `v` moves from one summand to the other.
proof fn lemma_one_moves<T>(c: Multiset<T>, d: Multiset<T>, v: T)
    requires
        d.count(v) > 0,
    ensures
        c.insert(v).add(d.remove(v)) == c.add(d),
{
    broadcast use vstd::multiset::group_multiset_axioms;

    assert(c.insert(v).add(d.remove(v)) =~= c.add(d));
}

} // verus!
