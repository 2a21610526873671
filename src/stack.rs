//! A singly-linked LIFO stack: a chain of boxed nodes owned from the head.
use vstd::prelude::*;

verus! {

/// A LIFO stack. Every operation delegates to the chain manager it owns.
pub struct UnsafeStack<T>(LinkedListInner<T>);

impl<T> View for UnsafeStack<T> {
    type V = Seq<T>;

    /// The elements from the top of the stack down.
    closed spec fn view(&self) -> Seq<T> {
        self.0@
    }
}

impl<T> UnsafeStack<T> {
    /// The chain that the stack owns is well formed.
    pub closed spec fn wf(&self) -> bool {
        self.0.wf()
    }

    /// An empty stack.
    pub fn new() -> (r: Self)
        ensures
            r.wf(),
            r@ == Seq::<T>::empty(),
    {
        UnsafeStack(LinkedListInner::new())
    }

    /// Puts `data` on top. The count must leave room for one more element.
    pub fn push(&mut self, data: T)
        requires
            old(self).wf(),
            old(self)@.len() < usize::MAX,
        ensures
            final(self).wf(),
            final(self)@ == seq![data] + old(self)@,
    {
        self.0.push(data);
    }

    /// Removes and returns the top element; `None` when the stack is empty.
    pub fn pop(&mut self) -> (r: Option<T>)
        requires
            old(self).wf(),
        ensures
            final(self).wf(),
            old(self)@.len() == 0 ==> r is None && final(self)@ == old(self)@,
            old(self)@.len() > 0 ==> r == Some(old(self)@[0]) && final(self)@ == old(self)@.drop_first(),
    {
        self.0.pop()
    }

    /// The top element, left in place.
    pub fn touch(&self) -> (r: Option<&T>)
        requires
            self.wf(),
        ensures
            self@.len() == 0 ==> r is None,
            self@.len() > 0 ==> r == Some(&self@[0]),
    {
        self.0.touch()
    }

    /// Write access to the top element; what is written there is what the
    /// stack holds afterwards.
    pub fn touch_mut(&mut self) -> (r: Option<&mut T>)
        requires
            old(self).wf(),
        ensures
            old(self)@.len() == 0 ==> r is None && *final(self) == *old(self),
            old(self)@.len() > 0 ==> r is Some && *r.unwrap() == old(self)@[0] && final(self).wf()
                && final(self)@ == old(self)@.update(0, *final(r.unwrap())),
    {
        self.0.touch_mut()
    }

    pub fn is_empty(&self) -> (r: bool)
        requires
            self.wf(),
        ensures
            r == (self@.len() == 0),
    {
        self.0.is_empty()
    }

    pub fn len(&self) -> (r: usize)
        requires
            self.wf(),
        ensures
            r as nat == self@.len(),
    {
        self.0.len()
    }
}

/// One link of the chain: the node below, if any, and one element.
struct StackNode<T> {
    next: Link<T>,
    data: T,
}

type Link<T> = Option<Box<StackNode<T>>>;

/// The elements held by a chain, from the head (top) down.
spec fn chain_view<T>(link: Link<T>) -> Seq<T>
    decreases link,
{
    match link {
        None => Seq::empty(),
        Some(node) => seq![node.data] + chain_view(node.next),
    }
}

/// The chain manager of the stack: a head link and the element count.
pub struct LinkedListInner<T> {
    head: Link<T>,
    len: usize,
}

impl<T> View for LinkedListInner<T> {
    type V = Seq<T>;

    /// The elements from the top of the stack down.
    closed spec fn view(&self) -> Seq<T> {
        chain_view(self.head)
    }
}

impl<T> Drop for LinkedListInner<T> {
    /// Releases the nodes one at a time from the head, so that a long chain
    /// is not torn down by recursion.
    fn drop(&mut self)
        opens_invariants none
        no_unwind
    {
        let mut chain: Link<T> = None;
        std::mem::swap(&mut chain, &mut self.head);
        release_chain(chain);
        self.len = 0;
    }
}

/// Frees every node of a chain, head first, without recursion.
fn release_chain<T>(link: Link<T>)
    opens_invariants none
    no_unwind
{
    let mut rest = link;
    loop
        decreases chain_view(rest).len(),
    {
        match rest {
            None => break,
            Some(node) => {
                rest = node.next;
            },
        }
    }
}

impl<T> LinkedListInner<T> {
    /// The count matches the chain, which ends after exactly that many nodes.
    pub closed spec fn wf(&self) -> bool {
        self.len as nat == chain_view(self.head).len()
    }

    pub fn new() -> (r: Self)
        ensures
            r.wf(),
            r@ == Seq::<T>::empty(),
    {
        LinkedListInner { head: None, len: 0 }
    }

    pub fn is_empty(&self) -> (r: bool)
        requires
            self.wf(),
        ensures
            r == (self@.len() == 0),
    {
        self.len == 0
    }

    pub fn len(&self) -> (r: usize)
        requires
            self.wf(),
        ensures
            r as nat == self@.len(),
    {
        self.len
    }

    /// Links a new head node in front of the old head.
    pub fn push(&mut self, data: T)
        requires
            old(self).wf(),
            old(self)@.len() < usize::MAX,
        ensures
            final(self).wf(),
            final(self)@ == seq![data] + old(self)@,
    {
        let next = self.head.take();
        self.head = Some(Box::new(StackNode { next, data }));
        self.len = self.len + 1;
    }

    /// Unlinks the head node, makes its successor the head and returns the
    /// node's element; the node itself is released here.
    pub fn pop(&mut self) -> (r: Option<T>)
        requires
            old(self).wf(),
        ensures
            final(self).wf(),
            old(self)@.len() == 0 ==> r is None && final(self)@ == old(self)@,
            old(self)@.len() > 0 ==> r == Some(old(self)@[0]) && final(self)@ == old(self)@.drop_first(),
    {
        match self.head.take() {
            None => None,
            Some(node) => {
                let StackNode { next, data } = *node;
                proof {
                    assert(old(self)@.drop_first() =~= chain_view(next));
                }
                self.head = next;
                self.len = self.len - 1;
                Some(data)
            },
        }
    }

    pub fn touch(&self) -> (r: Option<&T>)
        requires
            self.wf(),
        ensures
            self@.len() == 0 ==> r is None,
            self@.len() > 0 ==> r == Some(&self@[0]),
    {
        match &self.head {
            None => None,
            Some(node) => Some(&node.data),
        }
    }

    pub fn touch_mut(&mut self) -> (r: Option<&mut T>)
        requires
            old(self).wf(),
        ensures
            old(self)@.len() == 0 ==> r is None && *final(self) == *old(self),
            old(self)@.len() > 0 ==> r is Some && *r.unwrap() == old(self)@[0] && final(self).wf()
                && final(self)@ == old(self)@.update(0, *final(r.unwrap())),
    {
        match &mut self.head {
            None => None,
            Some(node) => Some(&mut node.data),
        }
    }
}

/// The elements of a stack that held `s`, after `push` of each of `vs`, first
/// to last.
pub open spec fn after_pushes<T>(s: Seq<T>, vs: Seq<T>) -> Seq<T>
    decreases vs.len(),
{
    if vs.len() == 0 {
        s
    } else {
        after_pushes(seq![vs[0]] + s, vs.drop_first())
    }
}

/// The values that `k` calls of `pop` return, in order, on a stack that holds
/// `s`; a call on the empty stack returns `None` and adds nothing.
pub open spec fn pops<T>(s: Seq<T>, k: nat) -> Seq<T>
    decreases k,
{
    if k == 0 || s.len() == 0 {
        Seq::empty()
    } else {
        seq![s[0]] + pops(s.drop_first(), (k - 1) as nat)
    }
}

proof fn lemma_after_pushes<T>(s: Seq<T>, vs: Seq<T>)
    ensures
        after_pushes(s, vs) == vs.reverse() + s,
    decreases vs.len(),
{
    if vs.len() > 0 {
        lemma_after_pushes(seq![vs[0]] + s, vs.drop_first());
        assert(vs.drop_first().reverse() + (seq![vs[0]] + s) =~= vs.reverse() + s);
    } else {
        assert(vs.reverse() + s =~= s);
    }
}

proof fn lemma_pops_prefix<T>(p: Seq<T>, s: Seq<T>)
    ensures
        pops(p + s, p.len()) == p,
    decreases p.len(),
{
    if p.len() > 0 {
        lemma_pops_prefix(p.drop_first(), s);
        assert((p + s).drop_first() =~= p.drop_first() + s);
        assert(seq![p[0]] + p.drop_first() =~= p);
    } else {
        assert(pops(p + s, 0) =~= p);
    }
}

/// Last in, first out: after values are pushed one by one, as many pops
/// return them in the reverse of the order they were pushed in, whatever the
/// stack held before.
pub proof fn lemma_lifo<T>(s: Seq<T>, vs: Seq<T>)
    ensures
        pops(after_pushes(s, vs), vs.len()) == vs.reverse(),
{
    lemma_after_pushes(s, vs);
    lemma_pops_prefix(vs.reverse(), s);
}

/// One call on a stack: `push` of a value, or `pop`.
pub enum StackOp<T> {
    Push(T),
    Pop,
}

/// The elements of a stack that held `s`, after the call `op`.
pub open spec fn stack_step<T>(s: Seq<T>, op: StackOp<T>) -> Seq<T> {
    match op {
        StackOp::Push(v) => seq![v] + s,
        StackOp::Pop => if s.len() == 0 {
            s
        } else {
            s.drop_first()
        },
    }
}

/// The elements of a stack that held `s`, after the calls `ops` in order.
pub open spec fn stack_run<T>(s: Seq<T>, ops: Seq<StackOp<T>>) -> Seq<T>
    decreases ops.len(),
{
    if ops.len() == 0 {
        s
    } else {
        stack_run(stack_step(s, ops[0]), ops.drop_first())
    }
}

/// The number of pushes among `ops`.
pub open spec fn stack_pushes<T>(ops: Seq<StackOp<T>>) -> nat
    decreases ops.len(),
{
    if ops.len() == 0 {
        0
    } else {
        (if ops[0] is Push {
            1nat
        } else {
            0nat
        }) + stack_pushes(ops.drop_first())
    }
}

/// The number of pops among `ops`, run on a stack that held `s`, that found
/// an element to return.
pub open spec fn stack_successful_pops<T>(s: Seq<T>, ops: Seq<StackOp<T>>) -> nat
    decreases ops.len(),
{
    if ops.len() == 0 {
        0
    } else {
        (if ops[0] is Pop && s.len() > 0 {
            1nat
        } else {
            0nat
        }) + stack_successful_pops(stack_step(s, ops[0]), ops.drop_first())
    }
}

/// After any run of calls the stack holds as many elements as it held before,
/// plus the pushes, minus the pops that returned a value.
pub proof fn lemma_stack_count<T>(s: Seq<T>, ops: Seq<StackOp<T>>)
    ensures
        stack_run(s, ops).len() == s.len() + stack_pushes(ops) - stack_successful_pops(s, ops),
    decreases ops.len(),
{
    if ops.len() > 0 {
        lemma_stack_count(stack_step(s, ops[0]), ops.drop_first());
    }
}

/// What is written through `touch_mut` is what `touch` reads next, and the
/// rest of the stack is untouched.
pub proof fn lemma_touch_mut_visible<T>(s: Seq<T>, x: T)
    requires
        s.len() > 0,
    ensures
        s.update(0, x)[0] == x,
        s.update(0, x).drop_first() == s.drop_first(),
{
    assert(s.update(0, x).drop_first() =~= s.drop_first());
}

} // verus!
