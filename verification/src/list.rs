//! An ordered, mutable sequence of owned elements.
//!
//! The elements live in an arena (`Vec<Option<Node<T>>>`) and are addressed
//! by stable integer handles; each node links forward to its successor by
//! handle.  The sequence keeps a cached handle to its last element, so
//! appending is constant-time, and removal from the front is constant-time.
//! Removal from the back walks from the front to find the predecessor of the
//! last element.  Identity of elements is handle equality, never equality of
//! values: two equal values at different positions are never confused.
//!
//! The cached tail handle is part of the well-formedness invariant
//! [`List::wf`]: every structural mutation (append, front or back removal,
//! splice) re-establishes that it names the true last element.

use vstd::prelude::*;

verus! {

/// One element of a [`List`]: a value and the handle of its successor.
///
/// Nodes live inside a list's arena; the `next` handle is only meaningful to
/// the list that owns the node.  A `List` never adopts nodes built outside
/// of it, so the handle cannot be used to confuse a list's own links.
pub struct Node<T> {
    /// The value carried by this element.
    pub data: T,
    /// The handle of the element that follows this one, if any.
    pub next: Option<usize>,
}

impl<T> Node<T> {
    /// A fresh element that is not linked to any successor.
    pub fn new(data: T) -> (node: Node<T>)
        ensures
            node.data == data,
            node.next is None,
    {
        Node { data, next: None }
    }

    /// Overwrites the element's value in place; its link is untouched.
    pub fn replace(&mut self, data: T)
        ensures
            final(self).data == data,
            final(self).next == old(self).next,
    {
        self.data = data;
    }
}

/// Pigeonhole: a sequence of distinct values, each below `n`, has at most
/// `n` elements.
proof fn lemma_distinct_below(s: Seq<usize>, n: int)
    requires
        forall|i: int, j: int|
            0 <= i < s.len() && 0 <= j < s.len() && i != j ==> s[i] != s[j],
        forall|i: int| 0 <= i < s.len() ==> (#[trigger] s[i]) < n,
        0 <= n,
    ensures
        s.len() <= n,
    decreases n,
{
    if n == 0 {
        if s.len() > 0 {
            assert(s[0] < 0);  // contradiction
        }
    } else if exists|k: int| 0 <= k < s.len() && s[k] == n - 1 {
        let k = choose|k: int| 0 <= k < s.len() && s[k] == n - 1;
        let t = s.remove(k);
        assert forall|i: int| 0 <= i < t.len() implies (#[trigger] t[i]) < n - 1 by {
            if i < k {
                assert(t[i] == s[i]);
            } else {
                assert(t[i] == s[i + 1]);
            }
        }
        assert forall|i: int, j: int|
            0 <= i < t.len() && 0 <= j < t.len() && i != j implies t[i] != t[j] by {
            let si = if i < k { i } else { i + 1 };
            let sj = if j < k { j } else { j + 1 };
            assert(t[i] == s[si] && t[j] == s[sj]);
        }
        lemma_distinct_below(t, n - 1);
    } else {
        assert forall|i: int| 0 <= i < s.len() implies (#[trigger] s[i]) < n - 1 by {
            assert(s[i] != n - 1);
        }
        lemma_distinct_below(s, n - 1);
    }
}

/// Equal prefixes of length `m` agree on every shorter prefix.
proof fn lemma_take_prefix(a: Seq<usize>, b: Seq<usize>, m: int, k: int)
    requires
        0 <= k <= m,
        m <= a.len(),
        m <= b.len(),
        a.take(m) == b.take(m),
    ensures
        a.take(k) == b.take(k),
{
    assert forall|x: int| 0 <= x < k implies a[x] == b[x] by {
        assert(a.take(m)[x] == a[x]);
        assert(b.take(m)[x] == b[x]);
    }
    assert(a.take(k) =~= b.take(k));
}

/// Law: appending a value and then removing from the back returns exactly
/// that value and leaves the sequence in its prior state.  [`List::push`]
/// turns a sequence `s` into `s.push(v)`; [`List::pop_tail`] on the result
/// is then guaranteed to return `Some(v)` and leave `s`: its contract
/// returns the view's last element and leaves its `drop_last`, which this
/// law resolves.
pub proof fn lemma_append_then_remove_back<T>(s: Seq<T>, v: T)
    ensures
        s.push(v).len() > 0,
        s.push(v).last() == v,
        s.push(v).drop_last() == s,
{
    assert(s.push(v).drop_last() =~= s);
}

/// An ordered sequence of owned elements, viewed as a `Seq<T>`.
pub struct List<T> {
    nodes: Vec<Option<Node<T>>>,
    head: Option<usize>,
    tail: Option<usize>,
    links: Ghost<Seq<usize>>,
}

impl<T> View for List<T> {
    type V = Seq<T>;

    closed spec fn view(&self) -> Seq<T> {
        self.links@.map(|i: int, h: usize| self.nodes@[h as int]->0.data)
    }
}

impl<T> List<T> {
    /// The handles of the live elements, in sequence order.  A handle is the
    /// identity of an element: it stays the same across mutations elsewhere
    /// in the sequence.
    pub closed spec fn handles(&self) -> Seq<usize> {
        self.links@
    }

    /// Well-formedness: the handle order names distinct slots of the arena,
    /// each live slot is occupied, the forward links agree with the order,
    /// and the cached head and tail handles name the true first and last
    /// elements.
    pub closed spec fn wf(&self) -> bool {
        let ord = self.links@;
        &&& forall|i: int| 0 <= i < ord.len() ==> (#[trigger] ord[i]) < self.nodes@.len()
        &&& forall|i: int, j: int|
            0 <= i < ord.len() && 0 <= j < ord.len() && i != j ==> ord[i] != ord[j]
        &&& self.head == (if ord.len() > 0 {
            Some(ord[0])
        } else {
            None::<usize>
        })
        &&& self.tail == (if ord.len() > 0 {
            Some(ord[ord.len() - 1])
        } else {
            None::<usize>
        })
        &&& forall|i: int|
            0 <= i < ord.len() ==> (#[trigger] self.nodes@[ord[i] as int]) is Some
        &&& forall|i: int|
            0 <= i < ord.len() ==> (#[trigger] self.nodes@[ord[i] as int])->0.next == (if i + 1
                < ord.len() {
                Some(ord[i + 1])
            } else {
                None::<usize>
            })
    }

    /// There are as many handles as elements.
    pub proof fn lemma_handles_len(&self)
        ensures
            self.handles().len() == self@.len(),
    {
    }

    /// The number of elements fits in `usize`: the handles are distinct
    /// indices into one arena, whose length is a `usize`.
    pub proof fn lemma_len_bound(&self)
        requires
            self.wf(),
        ensures
            self@.len() <= usize::MAX,
            self.handles().len() <= usize::MAX,
    {
        broadcast use vstd::std_specs::vec::axiom_spec_len;

        assert(self.nodes@.len() == vstd::std_specs::vec::spec_vec_len(&self.nodes));
        lemma_distinct_below(self.links@, self.nodes@.len() as int);
    }

    /// Handles are distinct, so a handle found at a position is found
    /// nowhere else: `index_of` returns exactly that position.
    pub proof fn lemma_handle_index(&self, i: int)
        requires
            self.wf(),
            0 <= i < self.handles().len(),
        ensures
            self.handles().contains(self.handles()[i]),
            self.handles().index_of(self.handles()[i]) == i,
    {
        assert(self.handles()[i] == self.handles()[i]);  // witness for contains
    }

    /// An empty sequence.
    pub fn new() -> (l: List<T>)
        ensures
            l.wf(),
            l@ == Seq::<T>::empty(),
            l.handles() == Seq::<usize>::empty(),
    {
        let l = List { nodes: Vec::new(), head: None, tail: None, links: Ghost(Seq::empty()) };
        proof {
            assert(l@ =~= Seq::<T>::empty());
        }
        l
    }

    /// The number of elements.
    pub fn len(&self) -> (n: usize)
        requires
            self.wf(),
        ensures
            n == self@.len(),
    {
        proof {
            self.lemma_handles_len();
            self.lemma_len_bound();
        }
        let mut n: usize = 0;
        let mut cur = self.head;
        let ghost mut i: int = 0;
        while cur.is_some()
            invariant
                self.wf(),
                self.handles().len() <= usize::MAX,
                0 <= i <= self.handles().len(),
                n == i,
                cur == (if i < self.handles().len() {
                    Some(self.handles()[i])
                } else {
                    None::<usize>
                }),
            decreases self.handles().len() - i,
        {
            let h = cur.unwrap();
            match &self.nodes[h] {
                Some(node) => {
                    cur = node.next;
                }
                None => {
                    proof {
                        assert(false);
                    }
                }
            }
            n = n + 1;
            proof {
                i = i + 1;
            }
        }
        n
    }

    /// Appends a value at the end; constant-time through the cached tail
    /// handle, which afterwards names the new element.
    pub fn push(&mut self, data: T)
        requires
            old(self).wf(),
        ensures
            final(self).wf(),
            final(self)@ == old(self)@.push(data),
            final(self).handles().len() == old(self).handles().len() + 1,
            final(self).handles().drop_last() == old(self).handles(),
            !old(self).handles().contains(final(self).handles().last()),
    {
        let h = self.nodes.len();
        self.nodes.push(Some(Node::new(data)));
        match self.tail {
            Some(t) => {
                match &mut self.nodes[t] {
                    Some(node) => {
                        node.next = Some(h);
                    }
                    None => {
                        proof {
                            assert(false);
                        }
                    }
                }
            }
            None => {
                self.head = Some(h);
            }
        }
        self.tail = Some(h);
        proof {
            self.links@ = self.links@.push(h);
            assert(final(self).handles().drop_last() =~= old(self).handles());
            assert(final(self)@ =~= old(self)@.push(data));
        }
    }

    /// The handle of the successor of the live element at position `i`,
    /// read from the arena.
    fn next_of(&self, cur: usize, Ghost(i): Ghost<int>) -> (nxt: usize)
        requires
            self.wf(),
            0 <= i < self.handles().len() - 1,
            self.handles()[i] == cur,
        ensures
            nxt == self.handles()[i + 1],
    {
        match &self.nodes[cur] {
            Some(node) => match node.next {
                Some(x) => x,
                None => unreached(),
            },
            None => unreached(),
        }
    }

    /// The cached handle of the last element, or nothing when the sequence
    /// is empty.
    pub fn tail_handle(&self) -> (r: Option<usize>)
        requires
            self.wf(),
        ensures
            r == (if self@.len() > 0 {
                Some(self.handles().last())
            } else {
                None::<usize>
            }),
    {
        self.tail
    }

    /// A reference to the value of the live element with handle `h`.
    pub fn get(&self, h: usize) -> (r: &T)
        requires
            self.wf(),
            self.handles().contains(h),
        ensures
            *r == self@[self.handles().index_of(h)],
    {
        proof {
            let i = self.handles().index_of(h);
            assert(0 <= i < self.handles().len() && self.handles()[i] == h);
        }
        match &self.nodes[h] {
            Some(node) => &node.data,
            None => unreached(),
        }
    }

    /// Inserts a value immediately after the live element with handle `h`.
    /// The new element gets a fresh handle; every existing handle keeps its
    /// element.  When `h` is the last element, the cached tail handle is
    /// moved to the new element.
    pub fn insert_after(&mut self, h: usize, data: T) -> (nh: usize)
        requires
            old(self).wf(),
            old(self).handles().contains(h),
        ensures
            final(self).wf(),
            ({
                let i = old(self).handles().index_of(h);
                &&& final(self)@ == old(self)@.insert(i + 1, data)
                &&& final(self).handles().len() == old(self).handles().len() + 1
                &&& final(self).handles().take(i + 1) == old(self).handles().take(i + 1)
                &&& final(self).handles().skip(i + 2) == old(self).handles().skip(i + 1)
                &&& final(self).handles()[i + 1] == nh
                &&& !old(self).handles().contains(nh)
            }),
    {
        let ghost i = old(self).handles().index_of(h);
        proof {
            assert(0 <= i < self.handles().len() && self.handles()[i] == h);
            self.lemma_len_bound();
        }
        let nh = self.nodes.len();
        let successor = match &self.nodes[h] {
            Some(node) => node.next,
            None => unreached(),
        };
        self.nodes.push(Some(Node { data, next: successor }));
        match &mut self.nodes[h] {
            Some(node) => {
                node.next = Some(nh);
            }
            None => {
                proof {
                    assert(false);
                }
            }
        }
        let is_tail = match self.tail {
            Some(t) => t == h,
            None => false,
        };
        if is_tail {
            self.tail = Some(nh);
        }
        proof {
            if i == self.links@.len() - 1 {
                assert(is_tail);
            } else {
                assert(!is_tail);
            }
            self.links@ = self.links@.insert(i + 1, nh);
            assert(final(self).handles().take(i + 1) =~= old(self).handles().take(i + 1));
            assert(final(self).handles().skip(i + 2) =~= old(self).handles().skip(i + 1));
            assert(final(self)@ =~= old(self)@.insert(i + 1, data));
        }
        nh
    }

    /// Splice-replace: the live element with handle `h` takes the donor's
    /// first value, and the donor's remaining elements are welded in
    /// immediately after it, reconnecting to whatever originally followed
    /// `h`.  The donor is consumed.  When the donor is empty the splice is a
    /// no-op and the element keeps its value.  When `h` is the last element,
    /// the cached tail handle is recomputed to name the donor's last
    /// element.  Handle `h` and every other existing handle keep their
    /// elements; the welded-in elements get fresh handles.
    pub fn replace_with_list(&mut self, h: usize, donor: List<T>)
        requires
            old(self).wf(),
            donor.wf(),
            old(self).handles().contains(h),
        ensures
            final(self).wf(),
            donor@.len() == 0 ==> final(self)@ == old(self)@ && final(self).handles() == old(
                self).handles(),
            donor@.len() > 0 ==> ({
                let i = old(self).handles().index_of(h);
                &&& final(self)@ == old(self)@.take(i) + donor@ + old(self)@.skip(i + 1)
                &&& final(self).handles().len() == old(self).handles().len() + donor@.len() - 1
                &&& final(self).handles().take(i + 1) == old(self).handles().take(i + 1)
                &&& final(self).handles().skip(i + donor@.len() as int) == old(
                    self).handles().skip(i + 1)
            }),
    {
        let ghost i = old(self).handles().index_of(h);
        let ghost dview = donor@;
        proof {
            assert(0 <= i < self.handles().len() && self.handles()[i] == h);
        }
        let mut donor = donor;
        match donor.pop() {
            None => {}
            Some(first) => {
                match &mut self.nodes[h] {
                    Some(node) => {
                        node.replace(first);
                    }
                    None => {
                        proof {
                            assert(false);
                        }
                    }
                }
                proof {
                    assert(self@ =~= old(self)@.take(i) + dview.take(1) + old(self)@.skip(
                        i + 1));
                }
                let mut at = h;
                let ghost mut c: int = 1;
                loop
                    invariant
                        self.wf(),
                        donor.wf(),
                        0 <= i < old(self).handles().len(),
                        1 <= c <= dview.len(),
                        donor@ == dview.skip(c),
                        self.handles().len() == old(self).handles().len() + c - 1,
                        self.handles().take(i + 1) == old(self).handles().take(i + 1),
                        self.handles().skip(i + c) == old(self).handles().skip(i + 1),
                        self.handles()[i + c - 1] == at,
                        self@ == old(self)@.take(i) + dview.take(c) + old(self)@.skip(i + 1),
                    ensures
                        self.wf(),
                        c == dview.len(),
                        self.handles().len() == old(self).handles().len() + c - 1,
                        self.handles().take(i + 1) == old(self).handles().take(i + 1),
                        self.handles().skip(i + c) == old(self).handles().skip(i + 1),
                        self@ == old(self)@.take(i) + dview.take(c) + old(self)@.skip(i + 1),
                    decreases dview.len() - c,
                {
                    match donor.pop() {
                        None => {
                            proof {
                                assert(dview.skip(c).len() == 0);
                            }
                            break ;
                        }
                        Some(v) => {
                            proof {
                                self.lemma_handle_index(i + c - 1);
                                assert(dview.skip(c)[0] == dview[c]);
                                assert(dview.skip(c).drop_first() =~= dview.skip(c + 1));
                            }
                            let ghost before = *self;
                            at = self.insert_after(at, v);
                            proof {
                                lemma_take_prefix(
                                    self.handles(),
                                    before.handles(),
                                    i + c,
                                    i + 1,
                                );
                                assert(self.handles().skip(i + c + 1) =~= old(
                                    self).handles().skip(i + 1));
                                assert(dview.take(c).push(v) =~= dview.take(c + 1));
                                assert(self@ =~= old(self)@.take(i) + dview.take(c + 1) + old(
                                    self)@.skip(i + 1));
                                c = c + 1;
                            }
                        }
                    }
                }
                proof {
                    assert(dview.take(c) =~= dview);
                }
            }
        }
    }

    /// Removes and returns the last element.  Because elements link only
    /// forward, this walks from the front to find the predecessor of the
    /// last element, except when the sequence has exactly one element.
    /// Afterwards the cached tail handle names the new last element, or the
    /// empty marker when the sequence became empty.
    pub fn pop_tail(&mut self) -> (r: Option<T>)
        requires
            old(self).wf(),
        ensures
            final(self).wf(),
            old(self)@.len() == 0 ==> r is None && final(self)@ == old(self)@
                && final(self).handles() == old(self).handles(),
            old(self)@.len() > 0 ==> r == Some(old(self)@.last())
                && final(self)@ == old(self)@.drop_last()
                && final(self).handles() == old(self).handles().drop_last(),
    {
        proof {
            self.lemma_len_bound();
        }
        let (h, t) = match (self.head, self.tail) {
            (Some(h), Some(t)) => (h, t),
            _ => {
                return None;
            },
        };
        if h == t {
            // Exactly one element: the handles are distinct, so the first
            // and last can only coincide at length one.
            assert(self.links@.len() == 1);
            let node = self.nodes[h].take();
            match node {
                Some(node) => {
                    self.head = None;
                    self.tail = None;
                    proof {
                        self.links@ = self.links@.drop_last();
                        assert(final(self)@ =~= old(self)@.drop_last());
                    }
                    Some(node.data)
                }
                None => unreached(),
            }
        } else {
            let ghost n = self.links@.len();
            assert(n >= 2);
            let mut cur = h;
            let ghost mut i: int = 0;
            let mut nxt = self.next_of(cur, Ghost(0));
            while nxt != t
                invariant
                    self.wf(),
                    self.links@.len() == n,
                    n >= 2,
                    self.handles().len() <= usize::MAX,
                    0 <= i < n - 1,
                    cur == self.links@[i],
                    nxt == self.links@[i + 1],
                    t == self.links@[n - 1],
                decreases n - 1 - i,
            {
                cur = nxt;
                proof {
                    i = i + 1;
                    // `nxt != t` ruled out position n - 1, so i + 1 is
                    // still in range.
                    assert(i < n - 1);
                }
                nxt = self.next_of(cur, Ghost(i));
            }
            proof {
                // nxt == t pins the position: handles are distinct.
                assert(i + 1 == n - 1);
            }
            let node = self.nodes[t].take();
            match node {
                Some(node) => {
                    match &mut self.nodes[cur] {
                        Some(pred) => {
                            pred.next = None;
                        }
                        None => {
                            proof {
                                assert(false);
                            }
                        }
                    }
                    self.tail = Some(cur);
                    proof {
                        self.links@ = self.links@.drop_last();
                        assert(final(self)@ =~= old(self)@.drop_last());
                    }
                    Some(node.data)
                }
                None => unreached(),
            }
        }
    }

    /// Removes and returns the first element; constant-time.  Returns
    /// nothing when the sequence is empty.
    pub fn pop(&mut self) -> (r: Option<T>)
        requires
            old(self).wf(),
        ensures
            final(self).wf(),
            old(self)@.len() == 0 ==> r is None && final(self)@ == old(self)@
                && final(self).handles() == old(self).handles(),
            old(self)@.len() > 0 ==> r == Some(old(self)@[0])
                && final(self)@ == old(self)@.drop_first()
                && final(self).handles() == old(self).handles().drop_first(),
    {
        match self.head {
            None => None,
            Some(h) => {
                let node = self.nodes[h].take();
                match node {
                    Some(node) => {
                        self.head = node.next;
                        if node.next.is_none() {
                            self.tail = None;
                        }
                        proof {
                            self.links@ = self.links@.drop_first();
                            assert(final(self)@ =~= old(self)@.drop_first());
                        }
                        Some(node.data)
                    }
                    None => unreached(),
                }
            }
        }
    }
    /// A fresh read-only pass over the sequence, starting at the front.
    pub fn iter(&self) -> (it: ListIter<'_, T>)
        requires
            self.wf(),
        ensures
            it.valid(),
            it.list() == *self,
            it.pos() == 0,
    {
        ListIter { list: self, cur: self.head, pos: Ghost(0) }
    }

    /// A cursor for a single mutating pass, starting at the front.  The
    /// cursor holds no borrow of the sequence: between two `next` calls the
    /// caller may mutate the sequence through the handle the cursor yielded.
    pub fn iter_mut(&self) -> (it: ListMutIter)
        requires
            self.wf(),
        ensures
            it.valid_for(self),
            it.pos_in(self) == 0,
    {
        proof {
            if self.links@.len() > 0 {
                self.lemma_handle_index(0);
            }
        }
        ListMutIter { cur: self.head }
    }

    /// Consumes the sequence, yielding its values from the front.
    pub fn into_iter(self) -> (it: ListIntoIter<T>)
        requires
            self.wf(),
        ensures
            it.wf(),
            it.remaining() == self@,
    {
        ListIntoIter { list: self }
    }

    /// Law: removing from the front until the sequence is empty yields the
    /// values in their original insertion order.
    pub fn into_vec(self) -> (v: Vec<T>)
        requires
            self.wf(),
        ensures
            v@ == self@,
    {
        let mut l = self;
        let mut v: Vec<T> = Vec::new();
        loop
            invariant
                l.wf(),
                v@ + l@ == self@,
            ensures
                v@ == self@,
            decreases l@.len(),
        {
            match l.pop() {
                Some(x) => {
                    v.push(x);
                    proof {
                        assert(v@ + l@ =~= self@);
                    }
                }
                None => {
                    proof {
                        assert(v@ =~= self@);
                    }
                    break ;
                }
            }
        }
        v
    }
}

/// A read-only iterator over a [`List`]; a fresh call of [`List::iter`]
/// starts a fresh pass from the front.
pub struct ListIter<'a, T> {
    list: &'a List<T>,
    cur: Option<usize>,
    pos: Ghost<int>,
}

impl<'a, T> ListIter<'a, T> {
    /// The list being walked.
    pub closed spec fn list(&self) -> List<T> {
        *self.list
    }

    /// How many elements have been yielded.
    pub closed spec fn pos(&self) -> int {
        self.pos@
    }

    /// The iterator's cursor agrees with its position in the list.
    pub closed spec fn valid(&self) -> bool {
        &&& self.list.wf()
        &&& 0 <= self.pos@ <= self.list.handles().len()
        &&& self.cur == (if self.pos@ < self.list.handles().len() {
            Some(self.list.handles()[self.pos@])
        } else {
            None::<usize>
        })
    }

    /// Yields a reference to the next element, or nothing at the end.
    pub fn next(&mut self) -> (r: Option<&'a T>)
        requires
            old(self).valid(),
        ensures
            final(self).valid(),
            final(self).list() == old(self).list(),
            (r is Some) == (old(self).pos() < old(self).list()@.len()),
            r is Some ==> *r->0 == old(self).list()@[old(self).pos()]
                && final(self).pos() == old(self).pos() + 1,
            r is None ==> final(self).pos() == old(self).pos(),
    {
        match self.cur {
            None => None,
            Some(h) => {
                match &self.list.nodes[h] {
                    Some(node) => {
                        self.cur = node.next;
                        proof {
                            self.pos@ = self.pos@ + 1;
                        }
                        Some(&node.data)
                    }
                    None => unreached(),
                }
            }
        }
    }
}

/// A cursor for one mutating pass over a [`List`].  It records only the
/// handle it will yield next, so the list itself stays free to be mutated
/// between `next` calls; identity of elements is handle equality.
pub struct ListMutIter {
    cur: Option<usize>,
}

impl ListMutIter {
    /// The cursor stands at a live handle of `l`, or at the end.
    pub closed spec fn valid_for<T>(&self, l: &List<T>) -> bool {
        match self.cur {
            Some(h) => l.handles().contains(h),
            None => true,
        }
    }

    /// The position the cursor stands at in `l`.
    pub closed spec fn pos_in<T>(&self, l: &List<T>) -> int {
        match self.cur {
            Some(h) => l.handles().index_of(h),
            None => l.handles().len() as int,
        }
    }

    /// Yields the handle of the next element and steps over it.  The
    /// successor handle is recorded now: a splice performed through the
    /// yielded handle inserts elements *behind* it, and the pass resumes at
    /// whatever originally followed it, skipping the spliced-in content.
    pub fn next<T>(&mut self, l: &List<T>) -> (r: Option<usize>)
        requires
            l.wf(),
            old(self).valid_for(l),
        ensures
            final(self).valid_for(l),
            (r is Some) == (old(self).pos_in(l) < l@.len()),
            r is Some ==> r->0 == l.handles()[old(self).pos_in(l)] && l.handles().contains(r->0)
                && final(self).pos_in(l) == old(self).pos_in(l) + 1,
            r is None ==> final(self).pos_in(l) == old(self).pos_in(l),
    {
        match self.cur {
            None => None,
            Some(h) => {
                let ghost p = l.handles().index_of(h);
                proof {
                    assert(0 <= p < l.handles().len() && l.handles()[p] == h);
                }
                match &l.nodes[h] {
                    Some(node) => {
                        self.cur = node.next;
                        proof {
                            if p + 1 < l.handles().len() {
                                l.lemma_handle_index(p + 1);
                            }
                        }
                        Some(h)
                    }
                    None => unreached(),
                }
            }
        }
    }

    /// After a mutation of the list, the cursor is still valid provided the
    /// whole suffix of handles it had yet to visit kept its order: the
    /// cursor then stands at that suffix's new position.
    pub proof fn lemma_revalidate<T>(&self, l0: &List<T>, l1: &List<T>, p0: int, p1: int)
        requires
            l0.wf(),
            l1.wf(),
            self.valid_for(l0),
            self.pos_in(l0) == p0,
            0 <= p0 <= l0.handles().len(),
            0 <= p1 <= l1.handles().len(),
            l1.handles().skip(p1) == l0.handles().skip(p0),
        ensures
            self.valid_for(l1),
            self.pos_in(l1) == p1,
    {
        match self.cur {
            None => {
                assert(l0.handles().len() == p0);
                assert(l1.handles().skip(p1).len() == 0);
            }
            Some(h) => {
                let s0 = l0.handles();
                let s1 = l1.handles();
                assert(0 <= p0 < s0.len() && s0[p0] == h);
                assert(s0.skip(p0).len() == s0.len() - p0);
                assert(s1.skip(p1).len() == s1.len() - p1);
                assert(p1 < s1.len());
                assert(s0.skip(p0)[0] == s0[p0 + 0]);
                assert(s1.skip(p1)[0] == s1[p1 + 0]);
                assert(s1[p1] == h);
                l1.lemma_handle_index(p1);
            }
        }
    }
}

/// A consuming iterator over a [`List`]: yields owned values from the front.
pub struct ListIntoIter<T> {
    list: List<T>,
}

impl<T> ListIntoIter<T> {
    /// The values not yet yielded, in order.
    pub closed spec fn remaining(&self) -> Seq<T> {
        self.list@
    }

    /// The inner list is still well-formed.
    pub closed spec fn wf(&self) -> bool {
        self.list.wf()
    }

    /// Yields the next value, or nothing at the end.
    pub fn next(&mut self) -> (r: Option<T>)
        requires
            old(self).wf(),
        ensures
            final(self).wf(),
            old(self).remaining().len() == 0 ==> r is None
                && final(self).remaining() == old(self).remaining(),
            old(self).remaining().len() > 0 ==> r == Some(old(self).remaining()[0])
                && final(self).remaining() == old(self).remaining().drop_first(),
    {
        self.list.pop()
    }
}

} // verus!
