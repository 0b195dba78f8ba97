//! A singly linked stack of boxed nodes that keeps its own element count.
use vstd::prelude::*;
use vstd::std_specs::cmp::PartialEqSpec;

verus! {

/// One cell of a [`LinkedList`]: a value and the rest of the chain.
pub struct Node<T> {
    value: T,
    next: Option<Box<Node<T>>>,
}

/// The values of a chain of nodes, from the given link to its end.
pub closed spec fn chain_values<T>(link: Option<Box<Node<T>>>) -> Seq<T>
    decreases link,
{
    match link {
        None => Seq::empty(),
        Some(node) => seq![node.value] + chain_values(node.next),
    }
}

impl<T> Node<T> {
    /// The value stored in this node.
    pub closed spec fn spec_value(&self) -> T {
        self.value
    }

    /// The values of this node and of every node after it.
    pub closed spec fn spec_values(&self) -> Seq<T> {
        seq![self.value] + chain_values(self.next)
    }

    /// Makes a node holding `value` in front of the chain `next`.
    pub fn new(value: T, next: Option<Box<Node<T>>>) -> (node: Node<T>)
        ensures
            node.spec_value() == value,
            node.spec_values() == seq![value] + chain_values(next),
    {
        Node { value: value, next: next }
    }
}

/// A last-in first-out list. Its view is the sequence of its values,
/// the most recently pushed first.
pub struct LinkedList<T> {
    head: Option<Box<Node<T>>>,
    size: usize,
}

impl<T> View for LinkedList<T> {
    type V = Seq<T>;

    closed spec fn view(&self) -> Seq<T> {
        chain_values(self.head)
    }
}

impl<T> LinkedList<T> {
    /// The stored count agrees with the number of nodes.
    pub closed spec fn wf(&self) -> bool {
        self.size == self@.len()
    }

    /// An empty list.
    pub fn new() -> (list: LinkedList<T>)
        ensures
            list.wf(),
            list@ == Seq::<T>::empty(),
    {
        LinkedList { head: None, size: 0 }
    }

    /// The number of values in the list.
    pub fn get_size(&self) -> (n: usize)
        requires
            self.wf(),
        ensures
            n == self@.len(),
    {
        self.size
    }

    /// Whether the list holds no value.
    pub fn is_empty(&self) -> (b: bool)
        requires
            self.wf(),
        ensures
            b == (self@.len() == 0),
    {
        self.size == 0
    }

    /// Puts `value` in front of the list.
    pub fn push(&mut self, value: T)
        requires
            old(self).wf(),
            old(self)@.len() < usize::MAX,
        ensures
            final(self).wf(),
            final(self)@ == seq![value] + old(self)@,
    {
        let new_node = Box::new(Node::new(value, self.head.take()));
        self.head = Some(new_node);
        self.size += 1;
    }

    /// Takes the front value out of the list; `None`, with the list left as
    /// it was, when the list is empty.
    pub fn pop(&mut self) -> (r: Option<T>)
        requires
            old(self).wf(),
        ensures
            final(self).wf(),
            old(self)@.len() == 0 ==> r is None && final(self)@ == old(self)@,
            old(self)@.len() > 0 ==> r == Some(old(self)@[0]) && final(self)@
                == old(self)@.drop_first(),
    {
        match self.head.take() {
            None => None,
            Some(head) => {
                let node = *head;
                let Node { value, next } = node;
                self.head = next;
                self.size -= 1;
                Some(value)
            },
        }
    }

    /// Empties the list one node at a time, so that no node is freed while
    /// the rest of the chain still hangs from it: a long list is released
    /// without deep recursion.
    pub fn clear(&mut self)
        requires
            old(self).wf(),
        ensures
            final(self).wf(),
            final(self)@ == Seq::<T>::empty(),
    {
        while self.size > 0
            invariant
                self.wf(),
            decreases self@.len(),
        {
            self.pop();
        }
        assert(self@ =~= Seq::<T>::empty());
    }

    /// References to the values of the list, front first.
    pub fn values(&self) -> (r: Vec<&T>)
        ensures
            r@.len() == self@.len(),
            forall|i: int| 0 <= i < self@.len() ==> *r@[i] == self@[i],
    {
        let mut out: Vec<&T> = Vec::new();
        let mut current = &self.head;
        loop
            invariant
                out@.len() + chain_values(*current).len() == self@.len(),
                chain_values(*current) == self@.skip(out@.len() as int),
                forall|i: int| 0 <= i < out@.len() ==> *out@[i] == self@[i],
            ensures
                out@.len() == self@.len(),
                forall|i: int| 0 <= i < out@.len() ==> *out@[i] == self@[i],
            decreases chain_values(*current).len(),
        {
            match current {
                Some(node) => {
                    proof {
                        lemma_skip_step(self@, out@.len() as int);
                    }
                    out.push(&node.value);
                    current = &node.next;
                },
                None => {
                    break ;
                },
            }
        }
        out
    }
}

/// Last in, first out: popping right after pushing `v` gives back `v` and
/// leaves the list as it was before the push.
pub proof fn law_pop_undoes_push<T>(before: Seq<T>, v: T)
    ensures
        (seq![v] + before).len() > 0,
        (seq![v] + before)[0] == v,
        (seq![v] + before).drop_first() == before,
        (seq![v] + before).len() == before.len() + 1,
{
    assert((seq![v] + before).drop_first() =~= before);
}

/// The texts joined into one, each preceded by a single space.
pub open spec fn space_prefixed(parts: Seq<Seq<char>>) -> Seq<char>
    decreases parts.len(),
{
    if parts.len() == 0 {
        Seq::empty()
    } else {
        space_prefixed(parts.drop_last()) + seq![' '] + parts.last()
    }
}

/// `text` is what `T`'s `Display` renders for `t`.
pub open spec fn displays_as<T: core::fmt::Display>(t: T, text: Seq<char>) -> bool {
    exists|s: String| vstd::string::to_string_from_display_ensures::<T>(&t, s) && s@ == text
}

impl<T: core::fmt::Display> LinkedList<T> {
    /// The rendering of the values, front first, each preceded by a space.
    pub fn fmt(&self) -> (r: String)
        ensures
            exists|parts: Seq<Seq<char>>|
                {
                    &&& parts.len() == self@.len()
                    &&& forall|i: int| 0 <= i < parts.len() ==> displays_as(self@[i], #[trigger] parts[i])
                    &&& r@ == space_prefixed(parts)
                },
    {
        let mut result = String::new();
        let mut current = &self.head;
        let ghost mut parts: Seq<Seq<char>> = Seq::empty();
        loop
            invariant
                parts.len() + chain_values(*current).len() == self@.len(),
                chain_values(*current) == self@.skip(parts.len() as int),
                forall|i: int| 0 <= i < parts.len() ==> displays_as(self@[i], #[trigger] parts[i]),
                result@ == space_prefixed(parts),
            ensures
                parts.len() == self@.len(),
                forall|i: int| 0 <= i < parts.len() ==> displays_as(self@[i], #[trigger] parts[i]),
                result@ == space_prefixed(parts),
            decreases chain_values(*current).len(),
        {
            match current {
                Some(node) => {
                    proof {
                        lemma_skip_step(self@, parts.len() as int);
                    }
                    let text = node.value.to_string();
                    result.append(" ");
                    result.append(text.as_str());
                    proof {
                        reveal_strlit(" ");
                        let k = parts.len() as int;
                        let new_parts = parts.push(text@);
                        assert(new_parts.drop_last() =~= parts);
                        assert(displays_as(self@[k], text@));
                        assert forall|i: int| 0 <= i < new_parts.len() implies displays_as(
                            self@[i],
                            #[trigger] new_parts[i],
                        ) by {
                            if i < k {
                                assert(new_parts[i] == parts[i]);
                            }
                        }
                        parts = new_parts;
                    }
                    current = &node.next;
                },
                None => {
                    break ;
                },
            }
        }
        result
    }
}

/// Dropping one more value from the front of a suffix.
proof fn lemma_skip_step<T>(s: Seq<T>, k: int)
    requires
        0 <= k < s.len(),
    ensures
        s.skip(k)[0] == s[k],
        s.skip(k).drop_first() == s.skip(k + 1),
{
    assert(s.skip(k).drop_first() =~= s.skip(k + 1));
}

impl<T: Clone> Clone for LinkedList<T> {
    /// A list of clones of the values, in the same order.
    fn clone(&self) -> (r: Self)
        ensures
            r.wf(),
            r@.len() == self@.len(),
            forall|i: int| 0 <= i < self@.len() ==> cloned::<T>(self@[i], #[trigger] r@[i]),
    {
        let mut new_list = LinkedList { head: None, size: 0 };
        let mut arr: Vec<T> = Vec::new();
        let mut current = &self.head;
        loop
            invariant
                arr@.len() + chain_values(*current).len() == self@.len(),
                chain_values(*current) == self@.skip(arr@.len() as int),
                forall|i: int| 0 <= i < arr@.len() ==> cloned::<T>(self@[i], #[trigger] arr@[i]),
            ensures
                arr@.len() == self@.len(),
                forall|i: int| 0 <= i < arr@.len() ==> cloned::<T>(self@[i], #[trigger] arr@[i]),
            decreases chain_values(*current).len(),
        {
            match current {
                Some(node) => {
                    proof {
                        lemma_skip_step(self@, arr@.len() as int);
                    }
                    arr.push(node.value.clone());
                    current = &node.next;
                },
                None => {
                    break ;
                },
            }
        }
        let total = arr.len();
        let ghost all = arr@;
        while arr.len() > 0
            invariant
                new_list.wf(),
                arr@.len() <= all.len(),
                arr@ == all.take(arr@.len() as int),
                new_list@ == all.skip(arr@.len() as int),
                all.len() == total,
            decreases arr@.len(),
        {
            let k = arr.len() - 1;
            let v = arr.pop().unwrap();
            proof {
                assert(v == all[k as int]);
                assert(seq![v] + all.skip(k + 1) =~= all.skip(k as int));
                assert(arr@ =~= all.take(k as int));
            }
            new_list.push(v);
        }
        assert(new_list@ =~= all);
        new_list
    }
}

/// Whether two value sequences agree, by `T`'s own equality, at every
/// position that both of them have.
pub open spec fn agree_on_common_prefix<T: PartialEq>(a: Seq<T>, b: Seq<T>) -> bool {
    forall|i: int| 0 <= i < a.len() && i < b.len() ==> (#[trigger] a[i]).eq_spec(&b[i])
}

impl<T: PartialEq> PartialEq for LinkedList<T> {
    /// Equal counts, and equal values position by position.
    fn eq(&self, other: &Self) -> (r: bool) {
        if self.size != other.size {
            return false;
        }
        let mut current1 = &self.head;
        let mut current2 = &other.head;
        let ghost mut k: int = 0;
        loop
            invariant
                0 <= k <= self@.len(),
                0 <= k <= other@.len(),
                chain_values(*current1) == self@.skip(k),
                chain_values(*current2) == other@.skip(k),
                chain_values(*current1).len() == self@.len() - k,
                chain_values(*current2).len() == other@.len() - k,
                self.size == other.size,
                T::obeys_eq_spec() ==> agree_on_common_prefix(self@.take(k), other@.take(k)),
            ensures
                T::obeys_eq_spec() ==> agree_on_common_prefix(self@, other@),
                self.size == other.size,
            decreases self@.len() - k,
        {
            match current1 {
                Some(node1) => match current2 {
                    Some(node2) => {
                        proof {
                            lemma_skip_step(self@, k);
                            lemma_skip_step(other@, k);
                        }
                        if node1.value != node2.value {
                            return false;
                        }
                        current1 = &node1.next;
                        current2 = &node2.next;
                        proof {
                            if T::obeys_eq_spec() {
                                lemma_agree_extend(self@, other@, k);
                            }
                            k = k + 1;
                        }
                    },
                    None => {
                        proof {
                            if T::obeys_eq_spec() {
                                lemma_agree_complete(self@, other@, k);
                            }
                        }
                        break ;
                    },
                },
                None => {
                    proof {
                        if T::obeys_eq_spec() {
                            lemma_agree_complete(self@, other@, k);
                        }
                    }
                    break ;
                },
            }
        }
        true
    }
}

/// Agreement on the first `k` positions extends by one when position `k`
/// agrees.
proof fn lemma_agree_extend<T: PartialEq>(a: Seq<T>, b: Seq<T>, k: int)
    requires
        0 <= k < a.len(),
        k < b.len(),
        agree_on_common_prefix(a.take(k), b.take(k)),
        a[k].eq_spec(&b[k]),
    ensures
        agree_on_common_prefix(a.take(k + 1), b.take(k + 1)),
{
    assert forall|i: int| 0 <= i < a.take(k + 1).len() && i < b.take(k + 1).len() implies (
    #[trigger] a.take(k + 1)[i]).eq_spec(&b.take(k + 1)[i]) by {
        if i < k {
            assert(a.take(k)[i] == a.take(k + 1)[i]);
            assert(b.take(k)[i] == b.take(k + 1)[i]);
        }
    }
}

/// Agreement up to the end of the shorter sequence is agreement on the
/// common prefix.
proof fn lemma_agree_complete<T: PartialEq>(a: Seq<T>, b: Seq<T>, k: int)
    requires
        0 <= k <= a.len(),
        k <= b.len(),
        k == a.len() || k == b.len(),
        agree_on_common_prefix(a.take(k), b.take(k)),
    ensures
        agree_on_common_prefix(a, b),
{
    assert forall|i: int| 0 <= i < a.len() && i < b.len() implies (#[trigger] a[i]).eq_spec(
        &b[i],
    ) by {
        assert(a.take(k)[i] == a[i]);
        assert(b.take(k)[i] == b[i]);
    }
}

impl<T: PartialEq> vstd::std_specs::cmp::PartialEqSpecImpl for LinkedList<T> {
    open spec fn obeys_eq_spec() -> bool {
        T::obeys_eq_spec()
    }

    closed spec fn eq_spec(&self, other: &Self) -> bool {
        self.size == other.size && agree_on_common_prefix(self@, other@)
    }
}

impl<T: PartialEq> LinkedList<T> {
    /// For well-formed lists, `==` holds exactly when the lists have the same
    /// length and agree, by `T`'s equality, at every position.
    pub proof fn lemma_eq_spec(&self, other: &Self)
        requires
            self.wf(),
            other.wf(),
        ensures
            PartialEqSpec::eq_spec(self, other) <==> (self@.len() == other@.len() && forall|i: int|
                0 <= i < self@.len() ==> (#[trigger] self@[i]).eq_spec(&other@[i])),
    {
    }
}

} // verus!
