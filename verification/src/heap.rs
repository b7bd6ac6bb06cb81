//! The queue of the wavefront: a binary heap that hands out a cell of least
//! value first.

use crate::scalar::Scalar;
use vstd::multiset::Multiset;
use vstd::prelude::*;

verus! {

/// A grid cell together with a value that it had when it entered the queue.
#[derive(Clone, Copy, Debug)]
pub struct Cell {
    pub u: Scalar,
    pub index: (usize, usize),
}

impl Cell {
    pub fn new(u: Scalar, index: (usize, usize)) -> (cell: Cell)
        ensures
            cell.u == u,
            cell.index == index,
    {
        Cell { u, index }
    }

    /// By what the queue orders its cells: the place of the value among the
    /// numbers.
    pub open spec fn key(self) -> int {
        self.u.ordinal_spec()
    }
}

/// Where the parent of the node at `i` stands.
pub open spec fn parent(i: int) -> int {
    (i - 1) / 2
}

/// No node of `s` has a lesser key than its parent, but for the node at
/// `hole`, which is not held against its parent.
pub open spec fn ordered_but(s: Seq<Cell>, hole: int) -> bool {
    forall|i: int| 1 <= i < s.len() && i != hole ==> s[parent(i)].key() <= (#[trigger] s[i]).key()
}

/// No node of `s` has a lesser key than its parent, but for the children of
/// the node at `hole`, which are not held against it.
pub open spec fn ordered_below(s: Seq<Cell>, hole: int) -> bool {
    forall|i: int|
        1 <= i < s.len() && parent(i) != hole ==> s[parent(i)].key() <= (#[trigger] s[i]).key()
}

/// No node of `s` has a lesser key than its parent.
pub open spec fn heap_ordered(s: Seq<Cell>) -> bool {
    forall|i: int| 1 <= i < s.len() ==> s[parent(i)].key() <= (#[trigger] s[i]).key()
}

/// In a heap the root has the least key.
pub proof fn lemma_root_is_least(s: Seq<Cell>, i: int)
    requires
        heap_ordered(s),
        0 <= i < s.len(),
    ensures
        s[0].key() <= s[i].key(),
    decreases i,
{
    if i > 0 {
        lemma_root_is_least(s, parent(i));
    }
}

/// Exchanging two nodes leaves the same cells.
proof fn lemma_exchange(s: Seq<Cell>, i: int, j: int)
    requires
        0 <= i < s.len(),
        0 <= j < s.len(),
    ensures
        s.update(i, s[j]).update(j, s[i]).to_multiset() == s.to_multiset(),
{
    broadcast use vstd::seq_lib::to_multiset_update;
    broadcast use vstd::seq_lib::to_multiset_contains;
    broadcast use vstd::multiset::group_multiset_axioms;

    let t = s.update(i, s[j]);
    assert(t.to_multiset() == s.to_multiset().insert(s[j]).remove(s[i]));
    assert(t.update(j, s[i]).to_multiset() == t.to_multiset().insert(s[i]).remove(t[j]));
    assert(s.contains(s[i]));
    assert(s.contains(s[j]));
    assert(s.update(i, s[j]).update(j, s[i]).to_multiset() =~= s.to_multiset());
}

/// Moves the node at `start` up until its parent has no greater key.
fn sift_up(v: &mut Vec<Cell>, start: usize)
    requires
        start < old(v).len(),
        ordered_but(old(v)@, start as int),
        forall|i: int|
            1 <= i < old(v).len() && parent(i) == start && start > 0 ==> old(v)@[parent(
                start as int,
            )].key() <= (#[trigger] old(v)@[i]).key(),
    ensures
        heap_ordered(final(v)@),
        final(v)@.to_multiset() == old(v)@.to_multiset(),
        final(v).len() == old(v).len(),
{
    let mut pos: usize = start;
    while pos > 0
        invariant
            pos < v.len(),
            v.len() == old(v).len(),
            v@.to_multiset() == old(v)@.to_multiset(),
            ordered_but(v@, pos as int),
            forall|i: int|
                1 <= i < v.len() && parent(i) == pos && pos > 0 ==> v@[parent(pos as int)].key() <= (
                #[trigger] v@[i]).key(),
        ensures
            heap_ordered(v@),
        decreases pos,
    {
        let up: usize = (pos - 1) / 2;
        let child = v[pos];
        let above = v[up];
        if above.u.ordinal() <= child.u.ordinal() {
            assert(heap_ordered(v@));
            break ;
        }
        proof {
            lemma_exchange(v@, pos as int, up as int);
        }
        let ghost before = v@;
        v.set(pos, above);
        v.set(up, child);
        assert forall|i: int| 1 <= i < v.len() && i != up implies v@[parent(i)].key() <= (
        #[trigger] v@[i]).key() by {
            if i == pos {
            } else if parent(i) == pos {
                assert(before[parent(pos as int)].key() <= before[i].key());
            } else if parent(i) == up {
                assert(before[parent(i)].key() <= before[i].key());
            } else {
                assert(before[parent(i)].key() <= before[i].key());
            }
        }
        assert forall|i: int| 1 <= i < v.len() && parent(i) == up && up > 0 implies v@[parent(
            up as int,
        )].key() <= (#[trigger] v@[i]).key() by {
            assert(before[parent(up as int)].key() <= before[up as int].key());
            if i == pos {
            } else {
                assert(before[parent(i)].key() <= before[i].key());
            }
        }
        pos = up;
    }
}

/// Moves the root down until neither of its children has a lesser key.
fn sift_down(v: &mut Vec<Cell>)
    requires
        ordered_below(old(v)@, 0),
    ensures
        heap_ordered(final(v)@),
        final(v)@.to_multiset() == old(v)@.to_multiset(),
        final(v).len() == old(v).len(),
{
    let n: usize = v.len();
    let mut pos: usize = 0;
    loop
        invariant
            n == v.len(),
            v.len() == old(v).len(),
            pos < n || n == 0,
            v@.to_multiset() == old(v)@.to_multiset(),
            ordered_below(v@, pos as int),
            forall|i: int|
                1 <= i < v.len() && parent(i) == pos && pos > 0 ==> v@[parent(pos as int)].key() <= (
                #[trigger] v@[i]).key(),
        ensures
            heap_ordered(v@),
            v@.to_multiset() == old(v)@.to_multiset(),
            v.len() == old(v).len(),
        decreases n - pos,
    {
        if pos >= n / 2 {
            // No child: 2 * pos + 1 >= n.
            break ;
        }
        let left: usize = 2 * pos + 1;
        let right: usize = left + 1;
        let mut least: usize = left;
        if right < n && v[right].u.ordinal() < v[left].u.ordinal() {
            least = right;
        }
        let node = v[pos];
        let below = v[least];
        if node.u.ordinal() <= below.u.ordinal() {
            assert forall|i: int| 1 <= i < v.len() implies v@[parent(i)].key() <= (
            #[trigger] v@[i]).key() by {
                if parent(i) == pos {
                    assert(i == left || i == right);
                }
            }
            break ;
        }
        proof {
            lemma_exchange(v@, pos as int, least as int);
        }
        let ghost before = v@;
        v.set(pos, below);
        v.set(least, node);
        assert forall|i: int| 1 <= i < v.len() && parent(i) != least implies v@[parent(i)].key()
            <= (#[trigger] v@[i]).key() by {
            if parent(i) == pos {
                assert(i == left || i == right);
            } else if i == pos {
                assert(before[parent(pos as int)].key() <= before[least as int].key());
            } else {
                assert(before[parent(i)].key() <= before[i].key());
            }
        }
        assert forall|i: int| 1 <= i < v.len() && parent(i) == least && least > 0 implies v@[parent(
            least as int,
        )].key() <= (#[trigger] v@[i]).key() by {
            assert(before[parent(i)].key() <= before[i].key());
        }
        pos = least;
    }
}

/// A queue of cells by value, least first.
pub struct MinHeap {
    data: Vec<Cell>,
}

impl MinHeap {
    #[verifier::type_invariant]
    spec fn ordered(self) -> bool {
        heap_ordered(self.data@)
    }

    /// The cells in the queue, each as often as it was pushed and not yet
    /// popped.
    pub closed spec fn view(&self) -> Multiset<Cell> {
        self.data@.to_multiset()
    }

    pub fn new() -> (heap: MinHeap)
        ensures
            heap@ == Multiset::<Cell>::empty(),
    {
        let heap = MinHeap { data: Vec::new() };
        assert(heap.data@.to_multiset() =~= Multiset::<Cell>::empty()) by {
            broadcast use vstd::seq_lib::to_multiset_len;
            broadcast use vstd::multiset::group_multiset_axioms;

            assert(heap.data@.to_multiset().len() == 0);
        }
        heap
    }

    pub fn len(&self) -> (n: usize)
        ensures
            n == self@.len(),
    {
        proof {
            vstd::seq_lib::to_multiset_len(self.data@);
        }
        self.data.len()
    }

    pub fn is_empty(&self) -> (r: bool)
        ensures
            r == (self@.len() == 0),
    {
        proof {
            vstd::seq_lib::to_multiset_len(self.data@);
        }
        self.data.len() == 0
    }

    /// Adds `cell` to the queue.
    pub fn push(&mut self, cell: Cell)
        ensures
            final(self)@ == old(self)@.insert(cell),
    {
        proof {
            use_type_invariant(&*self);
            vstd::seq_lib::to_multiset_build(self.data@, cell);
        }
        let mut data = Vec::new();
        std::mem::swap(&mut data, &mut self.data);
        data.push(cell);
        let last: usize = data.len() - 1;
        sift_up(&mut data, last);
        self.data = data;
    }

    /// Takes a cell of least value from the queue, if the queue holds any.
    /// Which one of several with that value is taken is not fixed.
    pub fn pop(&mut self) -> (popped: Option<Cell>)
        ensures
            match popped {
                None => old(self)@.len() == 0 && final(self)@ == old(self)@,
                Some(cell) => {
                    &&& old(self)@.contains(cell)
                    &&& final(self)@ == old(self)@.remove(cell)
                    &&& forall|other: Cell| #[trigger]
                        old(self)@.contains(other) ==> cell.key() <= other.key()
                },
            },
    {
        proof {
            use_type_invariant(&*self);
            vstd::seq_lib::to_multiset_len(self.data@);
        }
        if self.data.len() == 0 {
            return None;
        }
        let ghost before = self.data@;
        let mut data = Vec::new();
        std::mem::swap(&mut data, &mut self.data);
        let top = data.swap_remove(0);
        proof {
            broadcast use vstd::seq_lib::to_multiset_contains;
            broadcast use vstd::seq_lib::to_multiset_remove;
            broadcast use vstd::multiset::group_multiset_axioms;

            let last = before.len() - 1;
            // What is left is the old sequence with its root taken away, up to order.
            lemma_exchange(before, 0, last);
            let exchanged = before.update(0, before[last]).update(last, before[0]);
            assert(data@ =~= exchanged.remove(last));
            assert(exchanged[last] == top);
            assert(data@.to_multiset() == before.to_multiset().remove(top));
            assert(before.contains(top));
            assert forall|other: Cell| #[trigger]
                before.to_multiset().contains(other) implies top.key() <= other.key() by {
                assert(before.contains(other));
                let i = choose|i: int| 0 <= i < before.len() && before[i] == other;
                lemma_root_is_least(before, i);
            }
            assert forall|i: int| 1 <= i < data.len() && parent(i) != 0 implies data@[parent(
                i,
            )].key() <= (#[trigger] data@[i]).key() by {
                assert(before[parent(i)].key() <= before[i].key());
            }
        }
        sift_down(&mut data);
        self.data = data;
        Some(top)
    }
}

} // verus!
