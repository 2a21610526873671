//! A doubly-linked deque. Its nodes live in an arena and are linked by
//! arena index; the arena holds exactly the live nodes, so releasing a node
//! moves the last arena slot into its place and re-points that node's
//! neighbours.
use vstd::prelude::*;

verus! {

/// A double-ended queue. Every operation delegates to the chain manager it
/// owns.
pub struct UnsafeDeque<T>(DoubleLinkListInner<T>);

impl<T> View for UnsafeDeque<T> {
    type V = Seq<T>;

    /// The elements from the front to the back.
    closed spec fn view(&self) -> Seq<T> {
        self.0@
    }
}

impl<T> UnsafeDeque<T> {
    /// The chain that the deque owns is well formed.
    pub closed spec fn wf(&self) -> bool {
        self.0.wf()
    }

    /// An empty deque.
    pub fn new() -> (r: Self)
        ensures
            r.wf(),
            r@ == Seq::<T>::empty(),
    {
        UnsafeDeque(DoubleLinkListInner::new())
    }

    /// Puts `data` before the front element.
    pub fn push_front(&mut self, data: T)
        requires
            old(self).wf(),
        ensures
            final(self).wf(),
            final(self)@ == seq![data] + old(self)@,
    {
        self.0.push_front(data);
    }

    /// Puts `data` after the back element.
    pub fn push_back(&mut self, data: T)
        requires
            old(self).wf(),
        ensures
            final(self).wf(),
            final(self)@ == old(self)@.push(data),
    {
        self.0.push_back(data);
    }

    /// Removes and returns the front element; `None` when the deque is empty.
    pub fn pop_front(&mut self) -> (r: Option<T>)
        requires
            old(self).wf(),
        ensures
            final(self).wf(),
            old(self)@.len() == 0 ==> r is None && final(self)@ == old(self)@,
            old(self)@.len() > 0 ==> r == Some(old(self)@[0]) && final(self)@ == old(self)@.drop_first(),
    {
        self.0.pop_front()
    }

    /// Removes and returns the back element; `None` when the deque is empty.
    pub fn pop_back(&mut self) -> (r: Option<T>)
        requires
            old(self).wf(),
        ensures
            final(self).wf(),
            old(self)@.len() == 0 ==> r is None && final(self)@ == old(self)@,
            old(self)@.len() > 0 ==> r == Some(old(self)@.last()) && final(self)@ == old(self)@.drop_last(),
    {
        self.0.pop_back()
    }

    /// The front element, left in place.
    pub fn front(&self) -> (r: Option<&T>)
        requires
            self.wf(),
        ensures
            self@.len() == 0 ==> r is None,
            self@.len() > 0 ==> r == Some(&self@[0]),
    {
        self.0.front()
    }

    /// Write access to the front element; what is written there is what the
    /// deque holds afterwards.
    pub fn front_mut(&mut self) -> (r: Option<&mut T>)
        requires
            old(self).wf(),
        ensures
            old(self)@.len() == 0 ==> r is None && *final(self) == *old(self),
            old(self)@.len() > 0 ==> r is Some && *r.unwrap() == old(self)@[0] && final(self).wf()
                && final(self)@ == old(self)@.update(0, *final(r.unwrap())),
    {
        self.0.front_mut()
    }

    /// The back element, left in place.
    pub fn back(&self) -> (r: Option<&T>)
        requires
            self.wf(),
        ensures
            self@.len() == 0 ==> r is None,
            self@.len() > 0 ==> r == Some(&self@.last()),
    {
        self.0.back()
    }

    /// Write access to the back element; what is written there is what the
    /// deque holds afterwards.
    pub fn back_mut(&mut self) -> (r: Option<&mut T>)
        requires
            old(self).wf(),
        ensures
            old(self)@.len() == 0 ==> r is None && *final(self) == *old(self),
            old(self)@.len() > 0 ==> r is Some && *r.unwrap() == old(self)@.last() && final(self).wf()
                && final(self)@ == old(self)@.update(old(self)@.len() - 1, *final(r.unwrap())),
    {
        self.0.back_mut()
    }

    pub fn len(&self) -> (r: usize)
        requires
            self.wf(),
        ensures
            r as nat == self@.len(),
    {
        self.0.len()
    }

    pub fn is_empty(&self) -> (r: bool)
        requires
            self.wf(),
        ensures
            r == (self@.len() == 0),
    {
        self.0.is_empty()
    }
}

/// One node of the chain: the indices of its neighbours toward the front and
/// toward the back, if any, and one element.
struct DequeNode<T> {
    front: Option<usize>,
    back: Option<usize>,
    data: T,
}

/// The links of `nodes` form one chain that visits the slots of `order`, in
/// that order, from `front` to `back`; each slot is visited once.
spec fn linked<T>(
    nodes: Seq<DequeNode<T>>,
    order: Seq<usize>,
    front: Option<usize>,
    back: Option<usize>,
) -> bool {
    &&& forall|i: int| 0 <= i < order.len() ==> #[trigger] order[i] < nodes.len()
    &&& forall|i: int, j: int| 0 <= i < order.len() && 0 <= j < order.len() && i != j
        ==> order[i] != order[j]
    &&& order.len() == 0 ==> front is None && back is None
    &&& order.len() > 0 ==> front == Some(order[0]) && back == Some(order.last())
    &&& forall|i: int|
        0 <= i < order.len() ==> (#[trigger] nodes[order[i] as int]).front == before(order, i)
    &&& forall|i: int|
        0 <= i < order.len() ==> (#[trigger] nodes[order[i] as int]).back == after(order, i)
}

/// The slot that comes before position `i` of the chain, if any.
spec fn before(order: Seq<usize>, i: int) -> Option<usize> {
    if i == 0 {
        None
    } else {
        Some(order[i - 1])
    }
}

/// The slot that comes after position `i` of the chain, if any.
spec fn after(order: Seq<usize>, i: int) -> Option<usize> {
    if i == order.len() - 1 {
        None
    } else {
        Some(order[i + 1])
    }
}

/// Every slot of an arena of `n` nodes but `except` lies on the chain; an
/// `except` of -1 leaves out no slot.
spec fn covers(order: Seq<usize>, n: nat, except: int) -> bool {
    forall|k: usize| k < n && k != except ==> #[trigger] order.contains(k)
}

/// The chain manager of the deque: the arena, the two boundary links and the
/// element count.
pub struct DoubleLinkListInner<T> {
    nodes: Vec<DequeNode<T>>,
    front: Option<usize>,
    back: Option<usize>,
    len: usize,
    /// The arena slots in chain order, from the front to the back.
    order: Ghost<Seq<usize>>,
}

impl<T> View for DoubleLinkListInner<T> {
    type V = Seq<T>;

    /// The elements from the front to the back.
    closed spec fn view(&self) -> Seq<T> {
        Seq::new(self.order@.len(), |i: int| self.nodes@[self.order@[i] as int].data)
    }
}

impl<T> DoubleLinkListInner<T> {
    /// The links form a single chain through every node of the arena, in
    /// both directions, and the count is its length.
    pub closed spec fn wf(&self) -> bool {
        &&& linked(self.nodes@, self.order@, self.front, self.back)
        &&& self.order@.len() == self.nodes@.len()
        &&& self.len == self.nodes@.len()
        &&& covers(self.order@, self.nodes@.len(), -1)
    }

    pub fn new() -> (r: Self)
        ensures
            r.wf(),
            r@ == Seq::<T>::empty(),
    {
        let r = DoubleLinkListInner {
            nodes: Vec::new(),
            front: None,
            back: None,
            len: 0,
            order: Ghost(Seq::empty()),
        };
        assert(r@ =~= Seq::<T>::empty());
        r
    }

    pub fn len(&self) -> (r: usize)
        requires
            self.wf(),
        ensures
            r as nat == self@.len(),
    {
        self.len
    }

    pub fn is_empty(&self) -> (r: bool)
        requires
            self.wf(),
        ensures
            r == (self@.len() == 0),
    {
        self.len == 0
    }

    /// Links a new node after the back node; the new node takes the next
    /// arena slot.
    pub fn push_back(&mut self, data: T)
        requires
            old(self).wf(),
        ensures
            final(self).wf(),
            final(self)@ == old(self)@.push(data),
    {
        let ghost old_order = self.order@;
        let slot = self.nodes.len();
        self.nodes.push(DequeNode { front: self.back, back: None, data });
        match self.back {
            Some(old_back) => {
                self.nodes[old_back].back = Some(slot);
            },
            None => {
                self.front = Some(slot);
            },
        }
        self.back = Some(slot);
        self.len = self.nodes.len();
        self.order = Ghost(old_order.push(slot));
        proof {
            let order = self.order@;
            assert forall|i: int| 0 <= i < order.len() implies
                #[trigger] self.nodes@[order[i] as int].front == before(order, i) by {
                if i < old_order.len() {
                    assert(order[i] == old_order[i]);
                }
            }
            assert forall|i: int| 0 <= i < order.len() implies
                #[trigger] self.nodes@[order[i] as int].back == after(order, i) by {
                if i < old_order.len() {
                    assert(order[i] == old_order[i]);
                }
            }
            assert forall|k: usize| k < self.nodes@.len() && k != -1 implies #[trigger] order.contains(k) by {
                if k == slot {
                    assert(order[old_order.len() as int] == k);
                } else {
                    assert(old_order.contains(k));
                    let i = choose|i: int| 0 <= i < old_order.len() && old_order[i] == k;
                    assert(order[i] == k);
                }
            }
        }
        assert(self@ =~= old(self)@.push(data));
    }

    /// Links a new node before the front node; the new node takes the next
    /// arena slot.
    pub fn push_front(&mut self, data: T)
        requires
            old(self).wf(),
        ensures
            final(self).wf(),
            final(self)@ == seq![data] + old(self)@,
    {
        let ghost old_order = self.order@;
        let slot = self.nodes.len();
        self.nodes.push(DequeNode { front: None, back: self.front, data });
        match self.front {
            Some(old_front) => {
                self.nodes[old_front].front = Some(slot);
            },
            None => {
                self.back = Some(slot);
            },
        }
        self.front = Some(slot);
        self.len = self.nodes.len();
        self.order = Ghost(seq![slot] + old_order);
        proof {
            let order = self.order@;
            assert forall|i: int| 0 <= i < order.len() implies
                #[trigger] self.nodes@[order[i] as int].front == before(order, i) by {
                if i > 0 {
                    assert(order[i] == old_order[i - 1]);
                }
            }
            assert forall|i: int| 0 <= i < order.len() implies
                #[trigger] self.nodes@[order[i] as int].back == after(order, i) by {
                if i > 0 {
                    assert(order[i] == old_order[i - 1]);
                }
            }
            assert forall|k: usize| k < self.nodes@.len() && k != -1 implies #[trigger] order.contains(k) by {
                if k == slot {
                    assert(order[0] == k);
                } else {
                    assert(old_order.contains(k));
                    let i = choose|i: int| 0 <= i < old_order.len() && old_order[i] == k;
                    assert(order[i + 1] == k);
                }
            }
        }
        assert(self@ =~= seq![data] + old(self)@);
    }

    /// Frees the arena slot of a node that is no longer on the chain: the
    /// node in the last slot moves into it, and the links that led to the
    /// last slot are re-pointed there.
    #[verifier::spinoff_prover]
    #[verifier::rlimit(50)]
    fn release(&mut self, slot: usize) -> (r: T)
        requires
            linked(old(self).nodes@, old(self).order@, old(self).front, old(self).back),
            old(self).order@.len() + 1 == old(self).nodes@.len(),
            old(self).len == old(self).nodes@.len(),
            slot < old(self).nodes@.len(),
            !old(self).order@.contains(slot),
            covers(old(self).order@, old(self).nodes@.len(), slot as int),
        ensures
            final(self).wf(),
            final(self)@ == old(self)@,
            r == old(self).nodes@[slot as int].data,
    {
        let ghost old_order = self.order@;
        let ghost old_nodes = self.nodes@;
        let last = self.nodes.len() - 1;
        let node = self.nodes.swap_remove(slot);
        if slot < last {
            assert(old_order.contains(last));
            let ghost j = choose|j: int| 0 <= j < old_order.len() && old_order[j] == last;
            assert forall|i: int| 0 <= i < old_order.len() && i != j implies old_order[i] < last by {
                assert(old_order[i] != slot);
            }
            assert(self.nodes@[slot as int] == old_nodes[last as int]);
            let to_front = self.nodes[slot].front;
            let to_back = self.nodes[slot].back;
            match to_front {
                Some(p) => {
                    assert(j > 0 && p == old_order[j - 1]);
                    self.nodes[p].back = Some(slot);
                },
                None => {
                    self.front = Some(slot);
                },
            }
            match to_back {
                Some(q) => {
                    assert(j < old_order.len() - 1 && q == old_order[j + 1]);
                    self.nodes[q].front = Some(slot);
                },
                None => {
                    self.back = Some(slot);
                },
            }
            self.order = Ghost(old_order.update(j, slot));
            proof {
                let order = self.order@;
                let nodes = self.nodes@;
                assert forall|i: int| 0 <= i < order.len() && i != j implies order[i] == old_order[i]
                    && nodes[order[i] as int].data == old_nodes[old_order[i] as int].data by {}
                assert forall|i: int| 0 <= i < order.len() implies
                    #[trigger] nodes[order[i] as int].front == before(order, i) by {
                    if i != j && i != j + 1 {
                        assert(old_order[i] < last);
                    }
                }
                assert forall|i: int| 0 <= i < order.len() implies
                    #[trigger] nodes[order[i] as int].back == after(order, i) by {
                    if i != j && i != j - 1 {
                        assert(old_order[i] < last);
                    }
                }
                assert forall|k: usize| k < nodes.len() && k != -1 implies #[trigger] order.contains(k) by {
                    if k == slot {
                        assert(order[j] == k);
                    } else {
                        assert(old_order.contains(k));
                        let i = choose|i: int| 0 <= i < old_order.len() && old_order[i] == k;
                        assert(order[i] == k);
                    }
                }
                assert(self@ =~= old(self)@);
            }
        } else {
            proof {
                assert forall|i: int| 0 <= i < old_order.len() implies old_order[i] < last by {
                    assert(old_order[i] != slot);
                }
                assert forall|k: usize| k < self.nodes@.len() && k != -1 implies #[trigger] old_order.contains(k) by {
                    assert(k != slot);
                }
                assert(self@ =~= old(self)@);
            }
        }
        self.len = self.len - 1;
        node.data
    }

    /// Unlinks the front node, clears the new front's link toward the front
    /// (or the back boundary, when no node is left), and frees the node's slot.
    pub fn pop_front(&mut self) -> (r: Option<T>)
        requires
            old(self).wf(),
        ensures
            final(self).wf(),
            old(self)@.len() == 0 ==> r is None && final(self)@ == old(self)@,
            old(self)@.len() > 0 ==> r == Some(old(self)@[0]) && final(self)@ == old(self)@.drop_first(),
    {
        match self.front {
            None => None,
            Some(slot) => {
                let ghost old_order = self.order@;
                let ghost old_nodes = self.nodes@;
                assert(old_nodes[old_order[0] as int].front is None);
                let next = self.nodes[slot].back;
                match next {
                    Some(n) => {
                        self.nodes[n].front = None;
                    },
                    None => {
                        self.back = None;
                    },
                }
                self.front = next;
                self.order = Ghost(old_order.drop_first());
                proof {
                    let order = self.order@;
                    let nodes = self.nodes@;
                    assert forall|i: int| 0 <= i < order.len() implies order[i] == old_order[i + 1]
                        && nodes[order[i] as int].data == old_nodes[old_order[i + 1] as int].data by {}
                    assert forall|i: int| 0 <= i < order.len() implies
                        #[trigger] nodes[order[i] as int].front == before(order, i) by {
                        assert(old_nodes[old_order[i + 1] as int].front == Some(old_order[i]));
                    }
                    assert forall|i: int| 0 <= i < order.len() implies
                        #[trigger] nodes[order[i] as int].back == after(order, i) by {
                        assert(old_nodes[old_order[i + 1] as int].back == old_nodes[order[i] as int].back);
                    }
                    assert forall|k: usize| k < nodes.len() && k != slot implies #[trigger] order.contains(k) by {
                        assert(old_order.contains(k));
                        let i = choose|i: int| 0 <= i < old_order.len() && old_order[i] == k;
                        assert(order[i - 1] == k);
                    }
                    assert(self@ =~= old(self)@.drop_first());
                }
                Some(self.release(slot))
            },
        }
    }

    /// Unlinks the back node, clears the new back's link toward the back (or
    /// the front boundary, when no node is left), and frees the node's slot.
    pub fn pop_back(&mut self) -> (r: Option<T>)
        requires
            old(self).wf(),
        ensures
            final(self).wf(),
            old(self)@.len() == 0 ==> r is None && final(self)@ == old(self)@,
            old(self)@.len() > 0 ==> r == Some(old(self)@.last()) && final(self)@ == old(self)@.drop_last(),
    {
        match self.back {
            None => None,
            Some(slot) => {
                let ghost old_order = self.order@;
                let ghost old_nodes = self.nodes@;
                let ghost n = old_order.len() - 1;
                assert(old_nodes[old_order[n] as int].back is None);
                let prev = self.nodes[slot].front;
                match prev {
                    Some(p) => {
                        self.nodes[p].back = None;
                    },
                    None => {
                        self.front = None;
                    },
                }
                self.back = prev;
                self.order = Ghost(old_order.drop_last());
                proof {
                    let order = self.order@;
                    let nodes = self.nodes@;
                    assert forall|i: int| 0 <= i < order.len() implies order[i] == old_order[i]
                        && nodes[order[i] as int].data == old_nodes[old_order[i] as int].data by {}
                    assert forall|i: int| 0 <= i < order.len() implies
                        #[trigger] nodes[order[i] as int].front == before(order, i) by {
                        assert(old_nodes[old_order[i] as int].front == old_nodes[order[i] as int].front);
                    }
                    assert forall|i: int| 0 <= i < order.len() implies
                        #[trigger] nodes[order[i] as int].back == after(order, i) by {
                        assert(old_nodes[old_order[i] as int].back == Some(old_order[i + 1]));
                    }
                    assert forall|k: usize| k < nodes.len() && k != slot implies #[trigger] order.contains(k) by {
                        assert(old_order.contains(k));
                        let i = choose|i: int| 0 <= i < old_order.len() && old_order[i] == k;
                        assert(order[i] == k);
                    }
                    assert(self@ =~= old(self)@.drop_last());
                }
                Some(self.release(slot))
            },
        }
    }

    pub fn front(&self) -> (r: Option<&T>)
        requires
            self.wf(),
        ensures
            self@.len() == 0 ==> r is None,
            self@.len() > 0 ==> r == Some(&self@[0]),
    {
        match self.front {
            None => None,
            Some(slot) => Some(&self.nodes[slot].data),
        }
    }

    pub fn back(&self) -> (r: Option<&T>)
        requires
            self.wf(),
        ensures
            self@.len() == 0 ==> r is None,
            self@.len() > 0 ==> r == Some(&self@.last()),
    {
        match self.back {
            None => None,
            Some(slot) => Some(&self.nodes[slot].data),
        }
    }

    pub fn front_mut(&mut self) -> (r: Option<&mut T>)
        requires
            old(self).wf(),
        ensures
            old(self)@.len() == 0 ==> r is None && *final(self) == *old(self),
            old(self)@.len() > 0 ==> r is Some && *r.unwrap() == old(self)@[0] && final(self).wf()
                && final(self)@ == old(self)@.update(0, *final(r.unwrap())),
    {
        match self.front {
            None => None,
            Some(slot) => Some(&mut self.nodes[slot].data),
        }
    }

    pub fn back_mut(&mut self) -> (r: Option<&mut T>)
        requires
            old(self).wf(),
        ensures
            old(self)@.len() == 0 ==> r is None && *final(self) == *old(self),
            old(self)@.len() > 0 ==> r is Some && *r.unwrap() == old(self)@.last() && final(self).wf()
                && final(self)@ == old(self)@.update(old(self)@.len() - 1, *final(r.unwrap())),
    {
        match self.back {
            None => None,
            Some(slot) => Some(&mut self.nodes[slot].data),
        }
    }
}

/// The elements of a deque that held `s`, after `push_front` of each of `vs`,
/// first to last.
pub open spec fn after_push_fronts<T>(s: Seq<T>, vs: Seq<T>) -> Seq<T>
    decreases vs.len(),
{
    if vs.len() == 0 {
        s
    } else {
        after_push_fronts(seq![vs[0]] + s, vs.drop_first())
    }
}

/// The elements of a deque that held `s`, after `push_back` of each of `vs`,
/// first to last.
pub open spec fn after_push_backs<T>(s: Seq<T>, vs: Seq<T>) -> Seq<T>
    decreases vs.len(),
{
    if vs.len() == 0 {
        s
    } else {
        after_push_backs(s.push(vs[0]), vs.drop_first())
    }
}

/// The values that `k` calls of `pop_front` return, in order, on a deque that
/// holds `s`; a call on the empty deque returns `None` and adds nothing.
pub open spec fn front_pops<T>(s: Seq<T>, k: nat) -> Seq<T>
    decreases k,
{
    if k == 0 || s.len() == 0 {
        Seq::empty()
    } else {
        seq![s[0]] + front_pops(s.drop_first(), (k - 1) as nat)
    }
}

/// The values that `k` calls of `pop_back` return, in order, on a deque that
/// holds `s`; a call on the empty deque returns `None` and adds nothing.
pub open spec fn back_pops<T>(s: Seq<T>, k: nat) -> Seq<T>
    decreases k,
{
    if k == 0 || s.len() == 0 {
        Seq::empty()
    } else {
        seq![s.last()] + back_pops(s.drop_last(), (k - 1) as nat)
    }
}

proof fn lemma_after_push_fronts<T>(s: Seq<T>, vs: Seq<T>)
    ensures
        after_push_fronts(s, vs) == vs.reverse() + s,
    decreases vs.len(),
{
    if vs.len() > 0 {
        lemma_after_push_fronts(seq![vs[0]] + s, vs.drop_first());
        assert(vs.drop_first().reverse() + (seq![vs[0]] + s) =~= vs.reverse() + s);
    } else {
        assert(vs.reverse() + s =~= s);
    }
}

proof fn lemma_after_push_backs<T>(s: Seq<T>, vs: Seq<T>)
    ensures
        after_push_backs(s, vs) == s + vs,
    decreases vs.len(),
{
    if vs.len() > 0 {
        lemma_after_push_backs(s.push(vs[0]), vs.drop_first());
        assert(s.push(vs[0]) + vs.drop_first() =~= s + vs);
    } else {
        assert(s + vs =~= s);
    }
}

proof fn lemma_front_pops_all<T>(s: Seq<T>)
    ensures
        front_pops(s, s.len()) == s,
    decreases s.len(),
{
    if s.len() > 0 {
        lemma_front_pops_all(s.drop_first());
        assert(seq![s[0]] + s.drop_first() =~= s);
    } else {
        assert(front_pops(s, 0) =~= s);
    }
}

proof fn lemma_back_pops_all<T>(s: Seq<T>)
    ensures
        back_pops(s, s.len()) == s.reverse(),
    decreases s.len(),
{
    if s.len() > 0 {
        lemma_back_pops_all(s.drop_last());
        assert(seq![s.last()] + s.drop_last().reverse() =~= s.reverse());
    } else {
        assert(back_pops(s, 0) =~= s.reverse());
    }
}

/// Values pushed one by one at the front of an empty deque come out at the
/// back in the order they were pushed in.
pub proof fn lemma_push_front_pop_back<T>(vs: Seq<T>)
    ensures
        back_pops(after_push_fronts(Seq::empty(), vs), vs.len()) == vs,
{
    lemma_after_push_fronts(Seq::empty(), vs);
    assert(vs.reverse() + Seq::empty() =~= vs.reverse());
    lemma_back_pops_all(vs.reverse());
    assert(vs.reverse().reverse() =~= vs);
}

/// Values pushed one by one at the back of an empty deque come out at the
/// front in the order they were pushed in.
pub proof fn lemma_push_back_pop_front<T>(vs: Seq<T>)
    ensures
        front_pops(after_push_backs(Seq::empty(), vs), vs.len()) == vs,
{
    lemma_after_push_backs(Seq::empty(), vs);
    assert(Seq::<T>::empty() + vs =~= vs);
    lemma_front_pops_all(vs);
}

/// One call on a deque: a push or a pop at either end.
pub enum DequeOp<T> {
    PushFront(T),
    PushBack(T),
    PopFront,
    PopBack,
}

/// The elements of a deque that held `s`, after the call `op`.
pub open spec fn deque_step<T>(s: Seq<T>, op: DequeOp<T>) -> Seq<T> {
    match op {
        DequeOp::PushFront(v) => seq![v] + s,
        DequeOp::PushBack(v) => s.push(v),
        DequeOp::PopFront => if s.len() == 0 {
            s
        } else {
            s.drop_first()
        },
        DequeOp::PopBack => if s.len() == 0 {
            s
        } else {
            s.drop_last()
        },
    }
}

/// The elements of a deque that held `s`, after the calls `ops` in order.
pub open spec fn deque_run<T>(s: Seq<T>, ops: Seq<DequeOp<T>>) -> Seq<T>
    decreases ops.len(),
{
    if ops.len() == 0 {
        s
    } else {
        deque_run(deque_step(s, ops[0]), ops.drop_first())
    }
}

/// The number of pushes, at either end, among `ops`.
pub open spec fn deque_pushes<T>(ops: Seq<DequeOp<T>>) -> nat
    decreases ops.len(),
{
    if ops.len() == 0 {
        0
    } else {
        (if ops[0] is PushFront || ops[0] is PushBack {
            1nat
        } else {
            0nat
        }) + deque_pushes(ops.drop_first())
    }
}

/// The number of pops, at either end, among `ops`, run on a deque that held
/// `s`, that found an element to return.
pub open spec fn deque_successful_pops<T>(s: Seq<T>, ops: Seq<DequeOp<T>>) -> nat
    decreases ops.len(),
{
    if ops.len() == 0 {
        0
    } else {
        (if (ops[0] is PopFront || ops[0] is PopBack) && s.len() > 0 {
            1nat
        } else {
            0nat
        }) + deque_successful_pops(deque_step(s, ops[0]), ops.drop_first())
    }
}

/// After any run of calls the deque holds as many elements as it held before,
/// plus the pushes, minus the pops that returned a value.
pub proof fn lemma_deque_count<T>(s: Seq<T>, ops: Seq<DequeOp<T>>)
    ensures
        deque_run(s, ops).len() == s.len() + deque_pushes(ops) - deque_successful_pops(s, ops),
    decreases ops.len(),
{
    if ops.len() > 0 {
        lemma_deque_count(deque_step(s, ops[0]), ops.drop_first());
    }
}

/// Popping the only element, at either end, leaves a deque on which both
/// `front` and `back` find nothing.
pub proof fn lemma_last_pop_clears_both_ends<T>(s: Seq<T>)
    requires
        s.len() == 1,
    ensures
        deque_step(s, DequeOp::PopFront).len() == 0,
        deque_step(s, DequeOp::PopBack).len() == 0,
{
}

/// What is written through `front_mut` or `back_mut` is what `front` or
/// `back` reads next, and the other elements are untouched.
pub proof fn lemma_boundary_mut_visible<T>(s: Seq<T>, x: T)
    requires
        s.len() > 0,
    ensures
        s.update(0, x)[0] == x,
        s.update(0, x).drop_first() == s.drop_first(),
        s.update(s.len() - 1, x).last() == x,
        s.update(s.len() - 1, x).drop_last() == s.drop_last(),
{
    assert(s.update(0, x).drop_first() =~= s.drop_first());
    assert(s.update(s.len() - 1, x).drop_last() =~= s.drop_last());
}

} // verus!
