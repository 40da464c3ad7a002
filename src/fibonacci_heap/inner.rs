//! The heap proper: an arena of nodes threaded into a root ring and child rings.
use vstd::prelude::*;
use vstd::set_lib::*;

use crate::fibonacci_heap::element::{
    FibHeapRef, FibonacciHeapElement, FibonacciHeapElementInner, SiblingLinks,
};
use crate::fibonacci_heap::error::HeapReferenceError;
use crate::fibonacci_heap::ring::{
    is_ring, lemma_ring_frame, lemma_rotate, make_singleton, only_links_of,
    remove_from_ring, rotate, rotated_index, splice_left,
};
use crate::fibonacci_heap::{FibonacciHeap, HeapKey};

verus! {

/// `h` names an entry of `m` whose key is no greater than any other key of `m`.
pub open spec fn is_min_entry<K: HeapKey, T>(m: Map<FibHeapRef, (K, T)>, h: FibHeapRef) -> bool {
    &&& m.contains_key(h)
    &&& forall|g: FibHeapRef| #[trigger] m.contains_key(g) ==> m[h].0.key_rank() <= m[g].0.key_rank()
}

/// A sequence of distinct indices below `n` has at most `n` members.
proof fn lemma_distinct_below(s: Seq<usize>, n: usize)
    requires
        s.no_duplicates(),
        forall|j: int| 0 <= j < s.len() ==> #[trigger] s[j] < n,
    ensures
        s.len() <= n,
{
    s.unique_seq_to_set();
    let r = Set::<usize>::range(0, n);
    <usize as FiniteRange>::range_properties(0, n);
    assert(s.to_set().subset_of(r)) by {
        assert forall|x: usize| s.to_set().contains(x) implies r.contains(x) by {
            let j = choose|j: int| 0 <= j < s.len() && s[j] == x;
        }
    }
    lemma_len_subset(s.to_set(), r);
}

/// Rewriting the sibling links of nodes that all hang from `owner` leaves
/// every other ring of the arena intact.
proof fn lemma_rings_kept(
    ls: Seq<SiblingLinks>,
    ls2: Seq<SiblingLinks>,
    tree: Seq<FibonacciHeapElementInner>,
    touched: Seq<usize>,
    owner: Option<usize>,
    roots: Seq<usize>,
    kids: Seq<Seq<usize>>,
)
    requires
        only_links_of(ls, ls2, touched),
        forall|j: int| 0 <= j < touched.len() ==> tree[#[trigger] touched[j] as int].parent == owner,
        forall|j: int| 0 <= j < roots.len() ==> tree[#[trigger] roots[j] as int].parent is None,
        forall|i: int, j: int|
            0 <= i < kids.len() && 0 <= j < kids[i].len() ==> tree[#[trigger] kids[i][j] as int].parent
                == Some(i as usize),
        roots.len() > 0 ==> is_ring(ls, roots),
        forall|i: int| 0 <= i < kids.len() && kids[i].len() > 0 ==> is_ring(ls, #[trigger] kids[i]),
    ensures
        owner is Some && roots.len() > 0 ==> is_ring(ls2, roots),
        forall|i: int|
            0 <= i < kids.len() && Some(i as usize) != owner && kids[i].len() > 0 ==> is_ring(
                ls2,
                #[trigger] kids[i],
            ),
{
    if owner is Some && roots.len() > 0 {
        assert forall|j: int| 0 <= j < roots.len() implies (#[trigger] ls2[roots[j] as int]).left
            == ls[roots[j] as int].left && ls2[roots[j] as int].right == ls[roots[j] as int].right by {
            if touched.contains(roots[j]) {
                let k = choose|k: int| 0 <= k < touched.len() && touched[k] == roots[j];
                assert(tree[touched[k] as int].parent == owner);
            }
        }
        lemma_ring_frame(ls, ls2, roots);
    }
    assert forall|i: int|
        0 <= i < kids.len() && Some(i as usize) != owner && kids[i].len() > 0 implies is_ring(
        ls2,
        #[trigger] kids[i],
    ) by {
        let s = kids[i];
        assert forall|j: int| 0 <= j < s.len() implies (#[trigger] ls2[s[j] as int]).left
            == ls[s[j] as int].left && ls2[s[j] as int].right == ls[s[j] as int].right by {
            assert(tree[kids[i][j] as int].parent == Some(i as usize));
            if touched.contains(s[j]) {
                let k = choose|k: int| 0 <= k < touched.len() && touched[k] == s[j];
                assert(tree[touched[k] as int].parent == owner);
            }
        }
        lemma_ring_frame(ls, ls2, s);
    }
}

/// Slot `i` holds a live node.
spec fn live<K, T>(slots: Seq<FibonacciHeapElement<K, T>>, i: int) -> bool {
    0 <= i < slots.len() && slots[i].entry is Some
}

/// The rank of the key of the node at slot `i`.
spec fn rank<K: HeapKey, T>(slots: Seq<FibonacciHeapElement<K, T>>, i: int) -> int {
    slots[i].entry.unwrap().0.key_rank()
}

/// The handle of the node at slot `i`.
spec fn handle<K, T>(slots: Seq<FibonacciHeapElement<K, T>>, i: int) -> FibHeapRef {
    FibHeapRef { index: i as usize, stamp: slots[i].stamp }
}

/// `contents` lists exactly the live slots, under their handles, and every
/// live stamp is below `next_stamp`.
spec fn contents_ok<K, T>(
    slots: Seq<FibonacciHeapElement<K, T>>,
    contents: Map<FibHeapRef, (K, T)>,
    next_stamp: nat,
) -> bool {
    &&& contents.dom().finite()
    &&& forall|h: FibHeapRef| #[trigger]
        contents.contains_key(h) ==> {
            &&& live(slots, h.index as int)
            &&& slots[h.index as int].stamp == h.stamp
            &&& contents[h] == slots[h.index as int].entry.unwrap()
        }
    &&& forall|i: int| #[trigger]
        live(slots, i) ==> contents.contains_key(handle(slots, i)) && slots[i].stamp < next_stamp
}

/// `free` lists distinct dead slots.
spec fn free_ok<K, T>(slots: Seq<FibonacciHeapElement<K, T>>, free: Seq<usize>) -> bool {
    &&& free.no_duplicates()
    &&& forall|j: int|
        0 <= j < free.len() ==> (#[trigger] free[j]) < slots.len() && !live(slots, free[j] as int)
}

/// The members of the root ring are live and parentless, and so is no other
/// node but possibly `x`.
spec fn roots_ok<K, T>(
    slots: Seq<FibonacciHeapElement<K, T>>,
    tree: Seq<FibonacciHeapElementInner>,
    roots: Seq<usize>,
    x: int,
) -> bool {
    &&& forall|j: int|
        0 <= j < roots.len() ==> live(slots, #[trigger] roots[j] as int) && tree[roots[j] as int].parent
            is None && roots[j] != x
    &&& forall|i: int|
        live(slots, i) && (#[trigger] tree[i]).parent is None && i != x ==> roots.contains(i as usize)
}

/// Each slot's child ring matches its degree and child link.
spec fn kid_rings_ok(
    tree: Seq<FibonacciHeapElementInner>,
    sib: Seq<SiblingLinks>,
    kids: Seq<Seq<usize>>,
) -> bool {
    forall|i: int|
        0 <= i < kids.len() ==> {
            &&& (#[trigger] kids[i]).len() == tree[i].degree
            &&& (tree[i].child is None <==> kids[i].len() == 0)
            &&& (tree[i].child is Some ==> kids[i][0] == tree[i].child.unwrap())
            &&& kids[i].len() > 0 ==> is_ring(sib, kids[i])
        }
}

/// The members of each child ring are live and name their parent.
spec fn kid_members_ok<K, T>(
    slots: Seq<FibonacciHeapElement<K, T>>,
    tree: Seq<FibonacciHeapElementInner>,
    kids: Seq<Seq<usize>>,
) -> bool {
    forall|i: int, j: int|
        0 <= i < kids.len() && 0 <= j < kids[i].len() ==> live(slots, #[trigger] kids[i][j] as int)
            && tree[kids[i][j] as int].parent == Some(i as usize)
}

/// Every live child sits in its parent's child ring, with a key no smaller
/// and a rank strictly smaller than its parent's.
spec fn parents_ok<K: HeapKey, T>(
    slots: Seq<FibonacciHeapElement<K, T>>,
    tree: Seq<FibonacciHeapElementInner>,
    kids: Seq<Seq<usize>>,
    height: Seq<nat>,
    hbound: nat,
) -> bool {
    &&& forall|i: int|
        live(slots, i) && (#[trigger] tree[i]).parent is Some ==> {
            let p = tree[i].parent.unwrap() as int;
            &&& live(slots, p)
            &&& kids[p].contains(i as usize)
            &&& rank(slots, p) <= rank(slots, i)
            &&& height[i] < height[p]
        }
    &&& forall|i: int| live(slots, i) ==> #[trigger] height[i] <= hbound
}

/// While `ov` is being moved into a heap whose contents were `ow`: `cur` keeps
/// every entry of `ow`, `moved` sends each moved handle of `ov` to its new
/// handle in `cur`, and `back` sends each new handle back to where it came from.
#[verifier::opaque]
spec fn tracked_ok<K, T>(
    cur: Map<FibHeapRef, (K, T)>,
    ow: Map<FibHeapRef, (K, T)>,
    ov: Map<FibHeapRef, (K, T)>,
    moved: Map<FibHeapRef, FibHeapRef>,
    back: Map<FibHeapRef, FibHeapRef>,
    start: nat,
) -> bool {
    &&& forall|h: FibHeapRef| #[trigger] ow.contains_key(h) ==> cur.contains_key(h) && cur[h] == ow[h]
    &&& forall|g: FibHeapRef| #[trigger]
        moved.contains_key(g) ==> cur.contains_key(moved[g]) && !ow.contains_key(moved[g])
            && cur[moved[g]] == ov[g]
    &&& forall|h: FibHeapRef| #[trigger]
        cur.contains_key(h) && !ow.contains_key(h) ==> start <= h.stamp && back.contains_key(h)
            && ov.contains_key(back[h]) && cur[h] == ov[back[h]]
}

proof fn lemma_tracked_start<K, T>(
    ow: Map<FibHeapRef, (K, T)>,
    ov: Map<FibHeapRef, (K, T)>,
    start: nat,
)
    ensures
        tracked_ok(ow, ow, ov, Map::empty(), Map::empty(), start),
{
    reveal(tracked_ok);
}

proof fn lemma_tracked_step<K, T>(
    cur: Map<FibHeapRef, (K, T)>,
    ow: Map<FibHeapRef, (K, T)>,
    ov: Map<FibHeapRef, (K, T)>,
    moved: Map<FibHeapRef, FibHeapRef>,
    back: Map<FibHeapRef, FibHeapRef>,
    start: nat,
    g: FibHeapRef,
    h: FibHeapRef,
)
    requires
        tracked_ok(cur, ow, ov, moved, back, start),
        !cur.contains_key(h),
        start <= h.stamp,
        ov.contains_key(g),
    ensures
        tracked_ok(cur.insert(h, ov[g]), ow, ov, moved.insert(g, h), back.insert(h, g), start),
{
    reveal(tracked_ok);
    let post = cur.insert(h, ov[g]);
    assert forall|gg: FibHeapRef| #[trigger] moved.insert(g, h).contains_key(gg) implies post.contains_key(
        moved.insert(g, h)[gg],
    ) && !ow.contains_key(moved.insert(g, h)[gg]) && post[moved.insert(g, h)[gg]] == ov[gg] by {
        if gg != g {
            assert(cur.contains_key(moved[gg]));
        }
    }
}

proof fn lemma_tracked_end<K, T>(
    cur: Map<FibHeapRef, (K, T)>,
    ow: Map<FibHeapRef, (K, T)>,
    ov: Map<FibHeapRef, (K, T)>,
    moved: Map<FibHeapRef, FibHeapRef>,
    back: Map<FibHeapRef, FibHeapRef>,
    start: nat,
)
    requires
        tracked_ok(cur, ow, ov, moved, back, start),
        forall|g: FibHeapRef| #[trigger] ov.contains_key(g) ==> moved.contains_key(g),
    ensures
        forall|h: FibHeapRef| #[trigger]
            ow.contains_key(h) ==> cur.contains_key(h) && cur[h] == ow[h],
        forall|g: FibHeapRef| #[trigger]
            moved.contains_key(g) ==> cur.contains_key(moved[g]) && cur[moved[g]] == ov[g],
        forall|h: FibHeapRef| #[trigger]
            cur.contains_key(h) && !ow.contains_key(h) ==> start <= h.stamp && exists|g: FibHeapRef| #[trigger]
                ov.contains_key(g) && cur[h] == ov[g],
        forall|g: FibHeapRef| #[trigger]
            ov.contains_key(g) ==> exists|h: FibHeapRef| #[trigger]
                cur.contains_key(h) && !ow.contains_key(h) && cur[h] == ov[g],
{
    reveal(tracked_ok);
    assert forall|g: FibHeapRef| #[trigger] ov.contains_key(g) implies exists|h: FibHeapRef| #[trigger]
        cur.contains_key(h) && !ow.contains_key(h) && cur[h] == ov[g] by {
        let h = moved[g];
        assert(cur.contains_key(h));
    }
    assert forall|h: FibHeapRef| #[trigger]
        cur.contains_key(h) && !ow.contains_key(h) implies start <= h.stamp && exists|g: FibHeapRef| #[trigger]
            ov.contains_key(g) && cur[h] == ov[g] by {
        assert(ov.contains_key(back[h]));
    }
}

/// A mergeable priority queue over keys `K` with payloads `T`.
///
/// Nodes live in an arena of slots; every structural link is a slot index.
/// The roots form one sibling ring, the children of each node another, and
/// `h_min` names a root of least key. Removed slots are recycled through
/// `free`; a slot's stamp changes on every reuse, so a handle on a removed
/// node never matches again.
pub struct FibonacciHeapInner<K, T> {
    slots: Vec<FibonacciHeapElement<K, T>>,
    tree: Vec<FibonacciHeapElementInner>,
    sib: Vec<SiblingLinks>,
    free: Vec<usize>,
    h_min: Option<usize>,
    size: usize,
    next_stamp: usize,
    name: String,
    /// What the heap holds, by handle.
    contents: Ghost<Map<FibHeapRef, (K, T)>>,
    /// The root ring, read from `h_min`.
    roots: Ghost<Seq<usize>>,
    /// For each slot, its child ring, read from its `child` link.
    kids: Ghost<Seq<Seq<usize>>>,
    /// A rank that grows strictly from every child to its parent.
    height: Ghost<Seq<nat>>,
    /// An upper bound of every rank.
    hbound: Ghost<nat>,
}

impl<K: HeapKey, T> FibonacciHeapInner<K, T> {
    /// The entries of the heap, by handle.
    pub closed spec fn view(&self) -> Map<FibHeapRef, (K, T)> {
        self.contents@
    }

    /// The handle of the current minimum.
    pub closed spec fn min_ref(&self) -> FibHeapRef {
        handle(self.slots@, self.roots@[0] as int)
    }

    /// Every handle ever issued by this heap has a stamp below this bound.
    pub closed spec fn stamp_bound(&self) -> nat {
        self.next_stamp as nat
    }

    /// `h` was issued by this heap and its node has been removed since.
    pub open spec fn retired(&self, h: FibHeapRef) -> bool {
        h.stamp < self.stamp_bound() && !self@.contains_key(h)
    }

    closed spec fn shape_ok(&self) -> bool {
        &&& self.tree.len() == self.slots.len()
        &&& self.sib.len() == self.slots.len()
        &&& self.kids@.len() == self.slots.len()
        &&& self.height@.len() == self.slots.len()
        &&& self.slots.len() <= self.next_stamp
        &&& self.size + self.free.len() <= self.slots.len()
        &&& self.contents@.len() == self.size
    }

    /// Everything but the position of the minimum, with `x` allowed to be a
    /// live parentless node outside the root ring.
    closed spec fn wf_except(&self, x: int) -> bool {
        &&& self.shape_ok()
        &&& contents_ok(self.slots@, self.contents@, self.next_stamp as nat)
        &&& free_ok(self.slots@, self.free@)
        &&& self.roots@.len() > 0 ==> is_ring(self.sib@, self.roots@)
        &&& roots_ok(self.slots@, self.tree@, self.roots@, x)
        &&& kid_rings_ok(self.tree@, self.sib@, self.kids@)
        &&& kid_members_ok(self.slots@, self.tree@, self.kids@)
        &&& parents_ok(self.slots@, self.tree@, self.kids@, self.height@, self.hbound@)
    }

    closed spec fn wf_core(&self) -> bool {
        &&& self.wf_except(-1)
        &&& (self.roots@.len() == 0 <==> self.size == 0)
    }

    closed spec fn wf_min(&self) -> bool {
        &&& self.h_min == if self.roots@.len() > 0 {
            Some(self.roots@[0])
        } else {
            None
        }
        &&& forall|j: int|
            0 <= j < self.roots@.len() ==> rank(self.slots@, self.roots@[0] as int) <= rank(
                self.slots@,
                #[trigger] self.roots@[j] as int,
            )
    }

    /// The heap's internal invariant: rings, tree links, heap order and the
    /// position of the minimum are all consistent with its entries.
    pub closed spec fn wf(&self) -> bool {
        &&& self.wf_core()
        &&& self.wf_min()
    }

    /// Every live node's key is at least the least key of the root ring.
    proof fn lemma_below_min(&self, i: int)
        requires
            self.wf(),
            live(self.slots@, i),
        ensures
            rank(self.slots@, self.roots@[0] as int) <= rank(self.slots@, i),
        decreases self.hbound@ - self.height@[i],
    {
        if self.tree@[i].parent is None {
            assert(self.roots@.contains(i as usize));
            let j = choose|j: int| 0 <= j < self.roots@.len() && self.roots@[j] == i as usize;
            assert(rank(self.slots@, self.roots@[0] as int) <= rank(
                self.slots@,
                self.roots@[j] as int,
            ));
        } else {
            let p = self.tree@[i].parent.unwrap() as int;
            assert(self.height@[p] <= self.hbound@);
            self.lemma_below_min(p);
        }
    }

    /// The minimum handle names an entry of least key.
    pub proof fn lemma_min_ref(&self)
        requires
            self.wf(),
        ensures
            self@.len() > 0 ==> is_min_entry(self@, self.min_ref()),
            self@.len() == 0 <==> self@ == Map::<FibHeapRef, (K, T)>::empty(),
    {
        if self@.len() > 0 {
            let r = self.roots@[0] as int;
            assert(live(self.slots@, r));
            assert forall|g: FibHeapRef| #[trigger]
                self@.contains_key(g) implies self@[self.min_ref()].0.key_rank()
                <= self@[g].0.key_rank() by {
                self.lemma_below_min(g.index as int);
            }
        }
        if self@.len() == 0 {
            assert(self@ =~= Map::<FibHeapRef, (K, T)>::empty());
        }
    }

    /// The handle of the parent of the node behind `h`, if it has one.
    pub closed spec fn parent_of(&self, h: FibHeapRef) -> Option<FibHeapRef> {
        match self.tree@[h.index as int].parent {
            Some(p) => Some(handle(self.slots@, p as int)),
            None => None,
        }
    }

    /// Heap order: every entry with a parent has a key no smaller than its
    /// parent's, and that parent is itself an entry of the heap.
    pub proof fn lemma_heap_order(&self)
        requires
            self.wf(),
        ensures
            forall|h: FibHeapRef| #[trigger]
                self@.contains_key(h) && self.parent_of(h) is Some ==> {
                    let q = self.parent_of(h).unwrap();
                    &&& self@.contains_key(q)
                    &&& self@[q].0.key_rank() <= self@[h].0.key_rank()
                },
    {
        assert forall|h: FibHeapRef| #[trigger]
            self@.contains_key(h) && self.parent_of(h) is Some implies {
            let q = self.parent_of(h).unwrap();
            &&& self@.contains_key(q)
            &&& self@[q].0.key_rank() <= self@[h].0.key_rank()
        } by {
            let i = h.index as int;
            assert(live(self.slots@, i));
            assert(self.tree@[i].parent is Some);
            let p = self.tree@[i].parent.unwrap() as int;
            assert(live(self.slots@, p));
        }
    }

    /// A handle that this heap issued and whose node has been removed names
    /// no entry.
    pub proof fn lemma_retired_is_absent(&self, h: FibHeapRef)
        requires
            self.retired(h),
        ensures
            !self@.contains_key(h),
    {
    }

    /// After an entry's key is lowered below every key of the heap, that
    /// entry is the minimum, so it is the one the next extraction returns.
    pub proof fn lemma_decreased_below_min(
        before: &Self,
        after: &Self,
        h: FibHeapRef,
        key: K,
    )
        requires
            before.wf(),
            after.wf(),
            before@.contains_key(h),
            key.key_rank() < before@[before.min_ref()].0.key_rank(),
            after@ == before@.insert(h, (key, before@[h].1)),
        ensures
            after.min_ref() == h,
            after@[after.min_ref()] == (key, before@[h].1),
    {
        before.lemma_min_ref();
        after.lemma_min_ref();
        assert(after@.contains_key(h));
        let m = after.min_ref();
        if m != h {
            assert(before@.contains_key(m));
            assert(after@[m] == before@[m]);
        }
    }

    /// An empty heap called `name`.
    pub fn new(name: &str) -> (r: Self)
        ensures
            r.wf(),
            r@ == Map::<FibHeapRef, (K, T)>::empty(),
            r.stamp_bound() == 0,
    {
        FibonacciHeapInner {
            slots: Vec::new(),
            tree: Vec::new(),
            sib: Vec::new(),
            free: Vec::new(),
            h_min: None,
            size: 0,
            next_stamp: 0,
            name: name.to_string(),
            contents: Ghost(Map::empty()),
            roots: Ghost(Seq::empty()),
            kids: Ghost(Seq::empty()),
            height: Ghost(Seq::empty()),
            hbound: Ghost(0),
        }
    }

    /// The heap's name.
    pub fn name(&self) -> &str {
        self.name.as_str()
    }

    /// The number of entries.
    pub fn len(&self) -> (r: usize)
        requires
            self.wf(),
        ensures
            r == self@.len(),
    {
        self.size
    }

    /// Whether the heap holds no entry.
    pub fn empty(&self) -> (r: bool)
        requires
            self.wf(),
        ensures
            r == (self@.len() == 0),
    {
        self.size == 0
    }

    /// The key of live node `i`.
    fn key_at(&self, i: usize) -> (r: &K)
        requires
            live(self.slots@, i as int),
        ensures
            r.key_rank() == rank(self.slots@, i as int),
    {
        &self.slots[i].entry.as_ref().unwrap().0
    }

    /// Whether live node `a` has a strictly smaller key than live node `b`.
    fn less(&self, a: usize, b: usize) -> (r: bool)
        requires
            live(self.slots@, a as int),
            live(self.slots@, b as int),
        ensures
            r == (rank(self.slots@, a as int) < rank(self.slots@, b as int)),
    {
        !self.key_at(b).key_le(self.key_at(a))
    }

    /// Puts the live, parentless node `x` into the root ring, just left of
    /// `anchor`, the first root.
    fn add_root(&mut self, x: usize, anchor: Option<usize>)
        requires
            old(self).wf_except(x as int),
            old(self).size > 0,
            live(old(self).slots@, x as int),
            old(self).tree@[x as int].parent is None,
            anchor == if old(self).roots@.len() > 0 {
                Some(old(self).roots@[0])
            } else {
                None
            },
        ensures
            final(self).wf_core(),
            final(self).roots@ == if old(self).roots@.len() == 0 {
                seq![x]
            } else {
                old(self).roots@.push(x)
            },
            only_links_of(old(self).sib@, final(self).sib@, final(self).roots@),
            final(self).slots == old(self).slots,
            final(self).tree == old(self).tree,
            final(self).contents == old(self).contents,
            final(self).kids == old(self).kids,
            final(self).height == old(self).height,
            final(self).hbound == old(self).hbound,
            final(self).free == old(self).free,
            final(self).h_min == old(self).h_min,
            final(self).size == old(self).size,
            final(self).next_stamp == old(self).next_stamp,
    {
        let ghost ls = self.sib@;
        let ghost rs = self.roots@;
        if anchor.is_none() {
            make_singleton(&mut self.sib, x);
            proof {
                self.roots@ = seq![x];
            }
        } else {
            assert(!rs.contains(x)) by {
                if rs.contains(x) {
                    let j = choose|j: int| 0 <= j < rs.len() && rs[j] == x;
                }
            }
            splice_left(&mut self.sib, anchor.unwrap(), x, self.roots);
            proof {
                self.roots@ = rs.push(x);
            }
        }
        let ghost nr = self.roots@;
        proof {
            assert forall|j: int| 0 <= j < nr.len() implies self.tree@[#[trigger] nr[j] as int].parent
                is None && live(self.slots@, nr[j] as int) && nr[j] != -1 by {
                if j < rs.len() {
                    assert(nr[j] == rs[j]);
                } else {
                    assert(nr[j] == x);
                }
            }
            lemma_rings_kept(ls, self.sib@, self.tree@, nr, None, rs, self.kids@);
            assert forall|i: int|
                live(self.slots@, i) && (#[trigger] self.tree@[i]).parent is None && i != -1 implies nr.contains(
                i as usize,
            ) by {
                if i == x {
                    assert(nr[nr.len() - 1] == x);
                } else {
                    assert(rs.contains(i as usize));
                    let j = choose|j: int| 0 <= j < rs.len() && rs[j] == i as usize;
                    assert(nr[j] == rs[j]);
                }
            }
        }
    }

    /// Stores `key` and `data` in a free slot (reusing one if possible) as a
    /// detached node with a fresh stamp, and returns the slot.
    fn alloc_node(&mut self, key: K, data: T) -> (i: usize)
        requires
            old(self).wf_core(),
            old(self).next_stamp < usize::MAX,
        ensures
            final(self).wf_except(i as int),
            live(final(self).slots@, i as int),
            !live(old(self).slots@, i as int),
            final(self).tree@[i as int].parent is None,
            handle(final(self).slots@, i as int) == (FibHeapRef { index: i, stamp: old(self).next_stamp }),
            final(self).contents@ == old(self).contents@.insert(
                handle(final(self).slots@, i as int),
                (key, data),
            ),
            !old(self).contents@.contains_key(handle(final(self).slots@, i as int)),
            rank(final(self).slots@, i as int) == key.key_rank(),
            final(self).size == old(self).size + 1,
            final(self).next_stamp == old(self).next_stamp + 1,
            final(self).roots == old(self).roots,
            final(self).h_min == old(self).h_min,
            final(self).slots.len() >= old(self).slots.len(),
            forall|j: int|
                0 <= j < old(self).slots.len() && j != i ==> #[trigger] final(self).slots@[j]
                    == old(self).slots@[j],
    {
        let ghost old_slots = self.slots@;
        let ghost old_free = self.free@;
        let ghost entry = (key, data);
        let stamp = self.next_stamp;
        let i: usize;
        if self.free.len() > 0 {
            i = self.free.pop().unwrap();
            assert(old_free[old_free.len() - 1] == i);
            self.slots[i] = FibonacciHeapElement::new(key, data, stamp);
            self.tree[i] = FibonacciHeapElementInner::new();
            self.sib[i] = SiblingLinks::new(i);
            proof {
                self.kids@ = self.kids@.update(i as int, Seq::empty());
                self.height@ = self.height@.update(i as int, 0);
                assert forall|j: int| 0 <= j < self.free.len() implies (#[trigger] self.free@[j])
                    < self.slots.len() && !live(self.slots@, self.free@[j] as int) by {
                    assert(self.free@[j] == old_free[j]);
                    assert(old_free[j] != old_free[old_free.len() - 1]);
                }
            }
        } else {
            i = self.slots.len();
            self.slots.push(FibonacciHeapElement::new(key, data, stamp));
            self.tree.push(FibonacciHeapElementInner::new());
            self.sib.push(SiblingLinks::new(i));
            proof {
                self.kids@ = self.kids@.push(Seq::empty());
                self.height@ = self.height@.push(0);
                assert forall|j: int| 0 <= j < self.free.len() implies (#[trigger] self.free@[j])
                    < self.slots.len() && !live(self.slots@, self.free@[j] as int) by {
                    assert(self.free@[j] == old_free[j]);
                }
            }
        }
        self.next_stamp = stamp + 1;
        self.size = self.size + 1;
        proof {
            let h = handle(self.slots@, i as int);
            assert(!old(self).contents@.contains_key(h));
            self.contents@ = self.contents@.insert(h, entry);
            assert(contents_ok(self.slots@, self.contents@, self.next_stamp as nat)) by {
                assert forall|g: FibHeapRef| #[trigger] self.contents@.contains_key(g) implies {
                    &&& live(self.slots@, g.index as int)
                    &&& self.slots@[g.index as int].stamp == g.stamp
                    &&& self.contents@[g] == self.slots@[g.index as int].entry.unwrap()
                } by {
                    if g != h {
                        assert(old(self).contents@.contains_key(g));
                    }
                }
                assert forall|k: int| #[trigger] live(self.slots@, k) implies self.contents@.contains_key(
                    handle(self.slots@, k),
                ) && self.slots@[k].stamp < self.next_stamp by {
                    if k != i {
                        assert(live(old_slots, k));
                    }
                }
            }
            assert(kid_members_ok(self.slots@, self.tree@, self.kids@)) by {
                assert forall|a: int, b: int|
                    0 <= a < self.kids@.len() && 0 <= b < self.kids@[a].len() implies live(
                    self.slots@,
                    #[trigger] self.kids@[a][b] as int,
                ) && self.tree@[self.kids@[a][b] as int].parent == Some(a as usize) by {
                    assert(a != i);
                    assert(live(old_slots, old(self).kids@[a][b] as int));
                }
            }
            assert(parents_ok(self.slots@, self.tree@, self.kids@, self.height@, self.hbound@)) by {
                assert forall|k: int|
                    live(self.slots@, k) && (#[trigger] self.tree@[k]).parent is Some implies {
                    let p = self.tree@[k].parent.unwrap() as int;
                    &&& live(self.slots@, p)
                    &&& self.kids@[p].contains(k as usize)
                    &&& rank(self.slots@, p) <= rank(self.slots@, k)
                    &&& self.height@[k] < self.height@[p]
                } by {
                    assert(k != i);
                    assert(live(old_slots, k));
                    let p = self.tree@[k].parent.unwrap() as int;
                    assert(p != i);
                }
                assert forall|k: int| live(self.slots@, k) implies #[trigger] self.height@[k]
                    <= self.hbound@ by {
                    if k != i {
                        assert(live(old_slots, k));
                    }
                }
            }
            assert(roots_ok(self.slots@, self.tree@, self.roots@, i as int)) by {
                assert forall|j: int| 0 <= j < self.roots@.len() implies live(
                    self.slots@,
                    #[trigger] self.roots@[j] as int,
                ) && self.tree@[self.roots@[j] as int].parent is None && self.roots@[j] != i by {
                    assert(live(old_slots, self.roots@[j] as int));
                }
                assert forall|k: int|
                    live(self.slots@, k) && (#[trigger] self.tree@[k]).parent is None && k != i implies self.roots@.contains(
                    k as usize,
                ) by {
                    assert(live(old_slots, k));
                }
            }
            assert(kid_rings_ok(self.tree@, self.sib@, self.kids@)) by {
                assert forall|a: int| 0 <= a < self.kids@.len() implies {
                    &&& (#[trigger] self.kids@[a]).len() == self.tree@[a].degree
                    &&& (self.tree@[a].child is None <==> self.kids@[a].len() == 0)
                    &&& (self.tree@[a].child is Some ==> self.kids@[a][0]
                        == self.tree@[a].child.unwrap())
                    &&& self.kids@[a].len() > 0 ==> is_ring(self.sib@, self.kids@[a])
                } by {
                    if a != i && self.kids@[a].len() > 0 {
                        let s = self.kids@[a];
                        assert forall|b: int| 0 <= b < s.len() implies (#[trigger] s[b]) != i by {
                            assert(live(old_slots, old(self).kids@[a][b] as int));
                        }
                        assert(is_ring(old(self).sib@, s));
                        lemma_ring_frame(old(self).sib@, self.sib@, s);
                    }
                }
            }
            if self.roots@.len() > 0 {
                assert forall|b: int| 0 <= b < self.roots@.len() implies (#[trigger] self.roots@[b]) != i by {
                    assert(live(old_slots, self.roots@[b] as int));
                }
                lemma_ring_frame(old(self).sib@, self.sib@, self.roots@);
            }
        }
        i
    }

    /// Adds `key` with payload `data` and returns the handle of its node. On a
    /// tie with the current minimum, the minimum stays where it is.
    pub fn insert(&mut self, key: K, data: T) -> (r: FibHeapRef)
        requires
            old(self).wf(),
            old(self).stamp_bound() < usize::MAX,
        ensures
            final(self).wf(),
            r.stamp == old(self).stamp_bound(),
            !old(self)@.contains_key(r),
            final(self)@ == old(self)@.insert(r, (key, data)),
            final(self).stamp_bound() == old(self).stamp_bound() + 1,
            final(self)@.len() == old(self)@.len() + 1,
            forall|g: FibHeapRef| old(self).retired(g) ==> #[trigger] final(self).retired(g),
            final(self).min_ref() == if old(self)@.len() == 0 || key.key_rank() < old(
                self,
            )@[old(self).min_ref()].0.key_rank() {
                r
            } else {
                old(self).min_ref()
            },
    {
        let ghost old_slots = self.slots@;
        proof {
            if self@.len() > 0 {
                assert(live(self.slots@, self.roots@[0] as int));
            }
        }
        let anchor = self.h_min;
        let i = self.alloc_node(key, data);
        self.add_root(i, anchor);
        let ghost rs = self.roots@;
        match anchor {
            None => {
                self.h_min = Some(i);
            },
            Some(m) => {
                assert(m != i);
                if self.less(i, m) {
                    self.h_min = Some(i);
                    proof {
                        let n = rs.len() as int;
                        lemma_rotate(self.sib@, rs, n - 1);
                        self.roots@ = rotate(rs, n - 1);
                        assert forall|j: int| 0 <= j < n implies rank(self.slots@, i as int) <= rank(
                            self.slots@,
                            #[trigger] self.roots@[j] as int,
                        ) by {
                            let k = rotated_index(j, n - 1, n);
                            assert(self.roots@[j] == rs[k]);
                            if k < n - 1 {
                                assert(rs[k] == old(self).roots@[k]);
                                assert(rank(old_slots, old(self).roots@[0] as int) <= rank(old_slots, old(self).roots@[k] as int));
                                assert(old(self).roots@[k] != i);
                            }
                        }
                        assert(rs[n - 1] == i);
                        assert(self.roots@.len() > 0);
                    }
                } else {
                    proof {
                        assert forall|j: int| 0 <= j < rs.len() implies rank(
                            self.slots@,
                            rs[0] as int,
                        ) <= rank(self.slots@, #[trigger] rs[j] as int) by {
                            if j < rs.len() - 1 {
                                assert(rs[j] == old(self).roots@[j]);
                                assert(old(self).roots@[j] != i);
                                assert(rank(old_slots, old(self).roots@[0] as int) <= rank(old_slots, old(self).roots@[j] as int));
                            }
                        }
                    }
                }
            },
        }
        FibHeapRef::from_elem(&self.slots[i], i)
    }

    /// Sets the mark of live node `y`; the mark takes part in no invariant.
    fn set_mark(&mut self, y: usize, mark: bool)
        requires
            old(self).wf(),
            y < old(self).slots.len(),
        ensures
            final(self).wf(),
            final(self).tree@ == old(self).tree@.update(
                y as int,
                FibonacciHeapElementInner { mark, ..old(self).tree@[y as int] },
            ),
            final(self).slots == old(self).slots,
            final(self).sib == old(self).sib,
            final(self).contents == old(self).contents,
            final(self).roots == old(self).roots,
            final(self).kids == old(self).kids,
            final(self).height == old(self).height,
            final(self).hbound == old(self).hbound,
            final(self).free == old(self).free,
            final(self).h_min == old(self).h_min,
            final(self).size == old(self).size,
            final(self).next_stamp == old(self).next_stamp,
    {
        self.tree[y].mark = mark;
        proof {
            assert forall|i: int| 0 <= i < self.tree@.len() implies (#[trigger] self.tree@[i]).parent
                == old(self).tree@[i].parent && self.tree@[i].child == old(self).tree@[i].child
                && self.tree@[i].degree == old(self).tree@[i].degree by {}
            assert(roots_ok(self.slots@, self.tree@, self.roots@, -1)) by {
                assert forall|j: int| 0 <= j < self.roots@.len() implies live(
                    self.slots@,
                    #[trigger] self.roots@[j] as int,
                ) && self.tree@[self.roots@[j] as int].parent is None && self.roots@[j] != -1 by {}
                assert forall|i: int|
                    live(self.slots@, i) && (#[trigger] self.tree@[i]).parent is None && i != -1 implies self.roots@.contains(
                    i as usize,
                ) by {
                    assert(old(self).tree@[i].parent is None);
                }
            }
            assert(kid_members_ok(self.slots@, self.tree@, self.kids@)) by {
                assert forall|a: int, b: int|
                    0 <= a < self.kids@.len() && 0 <= b < self.kids@[a].len() implies live(
                    self.slots@,
                    #[trigger] self.kids@[a][b] as int,
                ) && self.tree@[self.kids@[a][b] as int].parent == Some(a as usize) by {}
            }
            assert(parents_ok(self.slots@, self.tree@, self.kids@, self.height@, self.hbound@)) by {
                assert forall|k: int|
                    live(self.slots@, k) && (#[trigger] self.tree@[k]).parent is Some implies {
                    let p = self.tree@[k].parent.unwrap() as int;
                    &&& live(self.slots@, p)
                    &&& self.kids@[p].contains(k as usize)
                    &&& rank(self.slots@, p) <= rank(self.slots@, k)
                    &&& self.height@[k] < self.height@[p]
                } by {
                    assert(old(self).tree@[k].parent is Some);
                }
            }
            assert(kid_rings_ok(self.tree@, self.sib@, self.kids@)) by {
                assert forall|a: int| 0 <= a < self.kids@.len() implies {
                    &&& (#[trigger] self.kids@[a]).len() == self.tree@[a].degree
                    &&& (self.tree@[a].child is None <==> self.kids@[a].len() == 0)
                    &&& (self.tree@[a].child is Some ==> self.kids@[a][0]
                        == self.tree@[a].child.unwrap())
                    &&& self.kids@[a].len() > 0 ==> is_ring(self.sib@, self.kids@[a])
                } by {
                    assert(old(self).kids@[a] == self.kids@[a]);
                }
            }
        }
    }

    /// Unlinks the live non-root node `x` from its parent's child ring and
    /// clears its parent link and mark, leaving it outside every ring.
    fn detach(&mut self, x: usize)
        requires
            old(self).wf(),
            live(old(self).slots@, x as int),
            old(self).tree@[x as int].parent is Some,
        ensures
            final(self).wf_except(x as int),
            final(self).wf_min(),
            final(self).size > 0,
            final(self).roots == old(self).roots,
            final(self).slots == old(self).slots,
            final(self).contents == old(self).contents,
            final(self).height == old(self).height,
            final(self).hbound == old(self).hbound,
            final(self).free == old(self).free,
            final(self).h_min == old(self).h_min,
            final(self).size == old(self).size,
            final(self).next_stamp == old(self).next_stamp,
            final(self).tree@[x as int].parent is None,
            final(self).tree@[x as int].degree == old(self).tree@[x as int].degree,
            final(self).tree@[old(self).tree@[x as int].parent.unwrap() as int].degree == old(
                self,
            ).tree@[old(self).tree@[x as int].parent.unwrap() as int].degree - 1,
            forall|i: int|
                0 <= i < final(self).tree@.len() && i != x ==> (#[trigger] final(self).tree@[i]).parent
                    == old(self).tree@[i].parent,
    {
        let ghost old_tree = self.tree@;
        let ghost old_sib = self.sib@;
        let ghost old_kids = self.kids@;
        let ghost roots0 = self.roots@;
        let p = self.tree[x].parent.unwrap();
        let ghost ks = self.kids@[p as int];
        let ghost n = ks.len() as int;
        assert(ks.contains(x));
        let ghost k = choose|k: int| 0 <= k < n && ks[k] == x;
        proof {
            lemma_rotate(self.sib@, ks, k);
        }
        let ghost rk = rotate(ks, k);
        let r = self.sib[x].right;
        assert(old_sib[rk[0] as int].right == rk[crate::fibonacci_heap::ring::succ(0, n)]);
        remove_from_ring(&mut self.sib, x, Ghost(rk));
        let d = self.tree[p].degree;
        self.tree[p].degree = d - 1;
        if d > 1 {
            self.tree[p].child = Some(r);
        } else {
            self.tree[p].child = None;
        }
        self.tree[x].parent = None;
        self.tree[x].mark = false;
        let ghost rest = rk.subrange(1, n);
        proof {
            self.kids@ = self.kids@.update(p as int, rest);
            assert forall|j: int| 0 <= j < rk.len() implies old_tree[#[trigger] rk[j] as int].parent
                == Some(p) by {
                assert(ks.contains(rk[j]));
                let jj = choose|jj: int| 0 <= jj < n && ks[jj] == rk[j];
                assert(old_tree[old_kids[p as int][jj] as int].parent == Some(p));
            }
            lemma_rings_kept(old_sib, self.sib@, old_tree, rk, Some(p), roots0, old_kids);
            assert(x != p);
            assert(roots_ok(self.slots@, self.tree@, self.roots@, x as int)) by {
                assert forall|j: int| 0 <= j < self.roots@.len() implies live(
                    self.slots@,
                    #[trigger] self.roots@[j] as int,
                ) && self.tree@[self.roots@[j] as int].parent is None && self.roots@[j] != x by {
                    assert(old_tree[self.roots@[j] as int].parent is None);
                }
                assert forall|i: int|
                    live(self.slots@, i) && (#[trigger] self.tree@[i]).parent is None && i != x implies self.roots@.contains(
                    i as usize,
                ) by {
                    assert(old_tree[i].parent is None);
                }
            }
            assert(kid_members_ok(self.slots@, self.tree@, self.kids@)) by {
                assert forall|a: int, b: int|
                    0 <= a < self.kids@.len() && 0 <= b < self.kids@[a].len() implies live(
                    self.slots@,
                    #[trigger] self.kids@[a][b] as int,
                ) && self.tree@[self.kids@[a][b] as int].parent == Some(a as usize) by {
                    if a == p {
                        assert(self.kids@[a][b] == rk[b + 1]);
                        assert(rk[b + 1] != rk[0]);
                        assert(old_tree[rk[b + 1] as int].parent == Some(p));
                        assert(ks.contains(rk[b + 1]));
                        let jj = choose|jj: int| 0 <= jj < n && ks[jj] == rk[b + 1];
                        assert(live(self.slots@, old_kids[p as int][jj] as int));
                    } else {
                        assert(old_tree[old_kids[a][b] as int].parent == Some(a as usize));
                        assert(old_kids[a][b] != x);
                    }
                }
            }
            assert(parents_ok(self.slots@, self.tree@, self.kids@, self.height@, self.hbound@)) by {
                assert forall|i: int|
                    live(self.slots@, i) && (#[trigger] self.tree@[i]).parent is Some implies {
                    let q = self.tree@[i].parent.unwrap() as int;
                    &&& live(self.slots@, q)
                    &&& self.kids@[q].contains(i as usize)
                    &&& rank(self.slots@, q) <= rank(self.slots@, i)
                    &&& self.height@[i] < self.height@[q]
                } by {
                    assert(i != x);
                    assert(old_tree[i].parent == self.tree@[i].parent);
                    let q = self.tree@[i].parent.unwrap() as int;
                    assert(old_kids[q].contains(i as usize));
                    if q == p {
                        assert(rk.contains(i as usize));
                        let jj = choose|jj: int| 0 <= jj < n && rk[jj] == i as usize;
                        assert(jj != 0);
                        assert(rest[jj - 1] == i as usize);
                    }
                }
            }
            assert(kid_rings_ok(self.tree@, self.sib@, self.kids@)) by {
                assert forall|a: int| 0 <= a < self.kids@.len() implies {
                    &&& (#[trigger] self.kids@[a]).len() == self.tree@[a].degree
                    &&& (self.tree@[a].child is None <==> self.kids@[a].len() == 0)
                    &&& (self.tree@[a].child is Some ==> self.kids@[a][0]
                        == self.tree@[a].child.unwrap())
                    &&& self.kids@[a].len() > 0 ==> is_ring(self.sib@, self.kids@[a])
                } by {
                    if a == p {
                        if d > 1 {
                            assert(rest[0] == rk[1]);
                        }
                    } else {
                        assert(old_kids[a] == self.kids@[a]);
                    }
                }
            }
            assert(roots0.len() > 0);
        }
    }

    /// Detaches the live non-root node `x` from its parent and makes it a
    /// root, unmarked, at the end of the root ring. The minimum stays put.
    fn cut(&mut self, x: usize)
        requires
            old(self).wf(),
            live(old(self).slots@, x as int),
            old(self).tree@[x as int].parent is Some,
        ensures
            final(self).wf(),
            final(self).roots@ == old(self).roots@.push(x),
            final(self).slots == old(self).slots,
            final(self).contents == old(self).contents,
            final(self).height == old(self).height,
            final(self).hbound == old(self).hbound,
            final(self).free == old(self).free,
            final(self).h_min == old(self).h_min,
            final(self).size == old(self).size,
            final(self).next_stamp == old(self).next_stamp,
            final(self).tree@[x as int].parent is None,
            final(self).tree@[x as int].degree == old(self).tree@[x as int].degree,
            final(self).tree@[old(self).tree@[x as int].parent.unwrap() as int].degree == old(
                self,
            ).tree@[old(self).tree@[x as int].parent.unwrap() as int].degree - 1,
            forall|i: int|
                0 <= i < final(self).tree@.len() && i != x ==> (#[trigger] final(self).tree@[i]).parent
                    == old(self).tree@[i].parent,
    {
        proof {
            self.lemma_below_min(x as int);
        }
        let ghost roots0 = self.roots@;
        let anchor = self.h_min;
        self.detach(x);
        self.add_root(x, anchor);
        proof {
            let nr = self.roots@;
            assert forall|j: int| 0 <= j < nr.len() implies rank(self.slots@, nr[0] as int) <= rank(
                self.slots@,
                #[trigger] nr[j] as int,
            ) by {
                if j < roots0.len() {
                    assert(nr[j] == roots0[j]);
                } else {
                    assert(nr[j] == x);
                }
            }
        }
    }

    /// Walks up from the live node `y0`, cutting each marked ancestor and
    /// marking the first unmarked one that is not a root.
    fn cascading_cut(&mut self, y0: usize)
        requires
            old(self).wf(),
            live(old(self).slots@, y0 as int),
        ensures
            final(self).wf(),
            final(self).slots == old(self).slots,
            final(self).contents == old(self).contents,
            final(self).h_min == old(self).h_min,
            final(self).next_stamp == old(self).next_stamp,
            final(self).roots@.len() > 0 && final(self).roots@[0] == old(self).roots@[0],
            forall|i: int|
                0 <= i < final(self).tree@.len() && old(self).tree@[i].parent is None ==> (#[trigger] final(self).tree@[i]).parent is None,
    {
        let mut y = y0;
        loop
            invariant
                self.wf(),
                live(self.slots@, y as int),
                self.slots == old(self).slots,
                self.contents == old(self).contents,
                self.h_min == old(self).h_min,
                self.next_stamp == old(self).next_stamp,
                self.roots@.len() > 0 && self.roots@[0] == old(self).roots@[0],
                forall|i: int|
                    0 <= i < self.tree@.len() && old(self).tree@[i].parent is None ==> (#[trigger] self.tree@[i]).parent is None,
            decreases self.hbound@ - self.height@[y as int],
        {
            match self.tree[y].parent {
                None => {
                    break;
                },
                Some(p) => {
                    if !self.tree[y].mark {
                        self.set_mark(y, true);
                        break;
                    } else {
                        proof {
                            assert(self.height@[p as int] <= self.hbound@);
                        }
                        self.cut(y);
                        y = p;
                    }
                },
            }
        }
    }

    /// Whether `key` ranks strictly below the key of live node `b`.
    fn key_less(&self, key: &K, b: usize) -> (r: bool)
        requires
            live(self.slots@, b as int),
        ensures
            r == (key.key_rank() < rank(self.slots@, b as int)),
    {
        !self.key_at(b).key_le(key)
    }

    /// Whether the heap has a live node behind handle `h`.
    fn is_current(&self, h: &FibHeapRef) -> (r: bool)
        requires
            self.wf(),
        ensures
            r == self@.contains_key(*h),
            r ==> live(self.slots@, h.index as int) && handle(self.slots@, h.index as int) == *h,
    {
        let r = h.index < self.slots.len() && self.slots[h.index].entry.is_some()
            && self.slots[h.index].stamp == h.stamp;
        proof {
            if r {
                assert(live(self.slots@, h.index as int));
                assert(handle(self.slots@, h.index as int) == *h);
            }
        }
        r
    }

    /// Replaces the key of live node `x` by the no greater `key`, where the
    /// new key still respects `x`'s parent.
    fn set_key(&mut self, x: usize, key: K)
        requires
            old(self).wf_core(),
            live(old(self).slots@, x as int),
            key.key_rank() <= rank(old(self).slots@, x as int),
            old(self).tree@[x as int].parent is Some ==> rank(
                old(self).slots@,
                old(self).tree@[x as int].parent.unwrap() as int,
            ) <= key.key_rank(),
        ensures
            final(self).wf_core(),
            final(self).contents@ == old(self).contents@.insert(
                handle(old(self).slots@, x as int),
                (key, old(self).contents@[handle(old(self).slots@, x as int)].1),
            ),
            live(final(self).slots@, x as int),
            rank(final(self).slots@, x as int) == key.key_rank(),
            forall|i: int|
                0 <= i < final(self).slots.len() && i != x ==> #[trigger] final(self).slots@[i]
                    == old(self).slots@[i],
            forall|i: int|
                0 <= i < old(self).slots.len() ==> #[trigger] handle(final(self).slots@, i) == handle(
                    old(self).slots@,
                    i,
                ),
            final(self).slots.len() == old(self).slots.len(),
            final(self).tree == old(self).tree,
            final(self).sib == old(self).sib,
            final(self).roots == old(self).roots,
            final(self).h_min == old(self).h_min,
            final(self).next_stamp == old(self).next_stamp,
    {
        let ghost old_slots = self.slots@;
        let ghost h = handle(old_slots, x as int);
        let ghost ks = key;
        assert(self.contents@.contains_key(h));
        let e = self.slots[x].entry.take().unwrap();
        let data = e.1;
        let ghost d = data;
        self.slots[x].entry = Some((key, data));
        proof {
            self.contents@ = self.contents@.insert(h, (ks, d));
            assert forall|i: int| #[trigger] live(self.slots@, i) == live(old_slots, i) by {}
            assert forall|i: int| 0 <= i < old_slots.len() implies #[trigger] handle(self.slots@, i)
                == handle(old_slots, i) by {}
            assert(contents_ok(self.slots@, self.contents@, self.next_stamp as nat)) by {
                assert forall|g: FibHeapRef| #[trigger] self.contents@.contains_key(g) implies {
                    &&& live(self.slots@, g.index as int)
                    &&& self.slots@[g.index as int].stamp == g.stamp
                    &&& self.contents@[g] == self.slots@[g.index as int].entry.unwrap()
                } by {
                    assert(old(self).contents@.contains_key(g));
                    assert(live(old_slots, g.index as int));
                }
                assert forall|k: int| #[trigger] live(self.slots@, k) implies self.contents@.contains_key(
                    handle(self.slots@, k),
                ) && self.slots@[k].stamp < self.next_stamp by {
                    assert(live(old_slots, k));
                }
            }
            assert(free_ok(self.slots@, self.free@)) by {
                assert forall|j: int| 0 <= j < self.free.len() implies (#[trigger] self.free@[j])
                    < self.slots.len() && !live(self.slots@, self.free@[j] as int) by {
                    assert(!live(old_slots, self.free@[j] as int));
                }
            }
            assert(roots_ok(self.slots@, self.tree@, self.roots@, -1)) by {
                assert forall|j: int| 0 <= j < self.roots@.len() implies live(
                    self.slots@,
                    #[trigger] self.roots@[j] as int,
                ) && self.tree@[self.roots@[j] as int].parent is None && self.roots@[j] != -1 by {
                    assert(live(old_slots, self.roots@[j] as int));
                }
                assert forall|i: int|
                    live(self.slots@, i) && (#[trigger] self.tree@[i]).parent is None && i != -1 implies self.roots@.contains(
                    i as usize,
                ) by {
                    assert(live(old_slots, i));
                }
            }
            assert(kid_members_ok(self.slots@, self.tree@, self.kids@)) by {
                assert forall|a: int, b: int|
                    0 <= a < self.kids@.len() && 0 <= b < self.kids@[a].len() implies live(
                    self.slots@,
                    #[trigger] self.kids@[a][b] as int,
                ) && self.tree@[self.kids@[a][b] as int].parent == Some(a as usize) by {
                    assert(live(old_slots, self.kids@[a][b] as int));
                }
            }
            assert(parents_ok(self.slots@, self.tree@, self.kids@, self.height@, self.hbound@)) by {
                assert forall|k: int|
                    live(self.slots@, k) && (#[trigger] self.tree@[k]).parent is Some implies {
                    let p = self.tree@[k].parent.unwrap() as int;
                    &&& live(self.slots@, p)
                    &&& self.kids@[p].contains(k as usize)
                    &&& rank(self.slots@, p) <= rank(self.slots@, k)
                    &&& self.height@[k] < self.height@[p]
                } by {
                    assert(live(old_slots, k));
                    let p = self.tree@[k].parent.unwrap() as int;
                    assert(live(old_slots, p));
                    if p == x {
                        assert(rank(old_slots, p) <= rank(old_slots, k));
                    }
                }
                assert forall|k: int| live(self.slots@, k) implies #[trigger] self.height@[k]
                    <= self.hbound@ by {
                    assert(live(old_slots, k));
                }
            }
        }
    }

    /// Lowers the key of the node behind `h` to `key`. Fails with
    /// `StaleHandle` when that node has been removed and with
    /// `KeyIncreaseRejected` when `key` is greater than its current key;
    /// the heap is then left as it was. The node becomes the minimum when
    /// its new key is below the old minimum.
    pub fn decrease_key(&mut self, h: &FibHeapRef, key: K) -> (r: Result<(), HeapReferenceError>)
        requires
            old(self).wf(),
        ensures
            final(self).wf(),
            final(self).stamp_bound() == old(self).stamp_bound(),
            final(self)@.len() == old(self)@.len(),
            forall|g: FibHeapRef| old(self).retired(g) ==> #[trigger] final(self).retired(g),
            !old(self)@.contains_key(*h) ==> r == Err::<(), _>(HeapReferenceError::StaleHandle)
                && final(self)@ == old(self)@,
            old(self)@.contains_key(*h) && key.key_rank() > old(self)@[*h].0.key_rank() ==> r == Err::<
                (),
                _,
            >(HeapReferenceError::KeyIncreaseRejected) && final(self)@ == old(self)@,
            old(self)@.contains_key(*h) && key.key_rank() <= old(self)@[*h].0.key_rank() ==> {
                &&& r is Ok
                &&& final(self)@ == old(self)@.insert(*h, (key, old(self)@[*h].1))
                &&& final(self).min_ref() == if key.key_rank() < old(self)@[old(
                    self,
                ).min_ref()].0.key_rank() {
                    *h
                } else {
                    old(self).min_ref()
                }
            },
    {
        if !self.is_current(h) {
            return Err(HeapReferenceError::StaleHandle);
        }
        let x = h.index;
        if !key.key_le(self.key_at(x)) {
            return Err(HeapReferenceError::KeyIncreaseRejected);
        }
        let ghost m0 = self.roots@[0];
        let ghost old_slots = self.slots@;
        proof {
            self.lemma_min_ref();
        }
        match self.tree[x].parent {
            Some(p) => {
                if self.key_less(&key, p) {
                    self.cut(x);
                    self.cascading_cut(p);
                }
            },
            None => {},
        }
        assert(self.roots@[0] == m0);
        proof {
            if self.tree@[x as int].parent is Some {
                let p = self.tree@[x as int].parent.unwrap() as int;
                assert(rank(self.slots@, p) <= key.key_rank());
            }
        }
        self.set_key(x, key);
        let m = self.h_min.unwrap();
        let ghost rs = self.roots@;
        if self.tree[x].parent.is_none() && x != m && self.less(x, m) {
            self.h_min = Some(x);
            proof {
                assert(rs.contains(x));
                let k = choose|k: int| 0 <= k < rs.len() && rs[k] == x;
                lemma_rotate(self.sib@, rs, k);
                self.roots@ = rotate(rs, k);
                let n = rs.len() as int;
                assert forall|j: int| 0 <= j < n implies rank(self.slots@, x as int) <= rank(
                    self.slots@,
                    #[trigger] self.roots@[j] as int,
                ) by {
                    let kk = rotated_index(j, k, n);
                    assert(self.roots@[j] == rs[kk]);
                    if rs[kk] != x {
                        assert(rank(self.slots@, rs[kk] as int) == rank(old_slots, rs[kk] as int));
                    }
                }
            }
        } else {
            proof {
                assert forall|j: int| 0 <= j < rs.len() implies rank(self.slots@, rs[0] as int) <= rank(
                    self.slots@,
                    #[trigger] rs[j] as int,
                ) by {
                    if rs[j] != x {
                        assert(rank(self.slots@, rs[j] as int) == rank(old_slots, rs[j] as int));
                    }
                }
            }
        }
        Ok(())
    }

    /// Makes root `y` a child of root `x`, whose key is no greater. Root `x`
    /// is left first in the root ring.
    fn link(&mut self, y: usize, x: usize)
        requires
            old(self).wf_core(),
            old(self).roots@.contains(y),
            old(self).roots@.contains(x),
            x != y,
            rank(old(self).slots@, x as int) <= rank(old(self).slots@, y as int),
        ensures
            final(self).wf_core(),
            final(self).roots@[0] == x,
            forall|z: usize| #[trigger]
                final(self).roots@.contains(z) <==> old(self).roots@.contains(z) && z != y,
            final(self).tree@[x as int].degree == old(self).tree@[x as int].degree + 1,
            forall|k: int|
                0 <= k < final(self).tree@.len() && k != x ==> (#[trigger] final(self).tree@[k]).degree
                    == old(self).tree@[k].degree,
            final(self).slots == old(self).slots,
            final(self).contents == old(self).contents,
            final(self).free == old(self).free,
            final(self).h_min == old(self).h_min,
            final(self).size == old(self).size,
            final(self).next_stamp == old(self).next_stamp,
    {
        let ghost old_tree = self.tree@;
        let ghost old_sib = self.sib@;
        let ghost old_kids = self.kids@;
        let ghost rs = self.roots@;
        let ghost n = rs.len() as int;
        let ghost k = choose|k: int| 0 <= k < n && rs[k] == y;
        proof {
            lemma_rotate(self.sib@, rs, k);
        }
        let ghost ry = rotate(rs, k);
        remove_from_ring(&mut self.sib, y, Ghost(ry));
        let ghost sib1 = self.sib@;
        let ghost roots1 = ry.subrange(1, n);
        proof {
            assert forall|j: int| 0 <= j < ry.len() implies old_tree[#[trigger] ry[j] as int].parent
                is None by {
                assert(rs.contains(ry[j]));
                let jj = choose|jj: int| 0 <= jj < n && rs[jj] == ry[j];
            }
            lemma_rings_kept(old_sib, sib1, old_tree, ry, None, rs, old_kids);
            assert(ry.contains(x));
            let jx = choose|jx: int| 0 <= jx < n && ry[jx] == x;
            assert(jx != 0);
            assert(roots1[jx - 1] == x);
            assert(n > 1);
            assert(old_tree[x as int].parent is None);
            assert(old_tree[y as int].parent is None);
        }
        self.tree[y].parent = Some(x);
        self.tree[y].mark = false;
        let ghost tree1 = self.tree@;
        let ghost kx = old_kids[x as int];
        proof {
            assert(!kx.contains(y)) by {
                if kx.contains(y) {
                    let j = choose|j: int| 0 <= j < kx.len() && kx[j] == y;
                    assert(old_tree[old_kids[x as int][j] as int].parent == Some(x));
                }
            }
            assert forall|j: int| 0 <= j < kx.len() implies #[trigger] kx[j] < self.slots.len() by {
                assert(live(self.slots@, old_kids[x as int][j] as int));
            }
            assert(kx.push(y).no_duplicates()) by {
                assert forall|a: int, b: int|
                    0 <= a < kx.len() + 1 && 0 <= b < kx.len() + 1 && a != b implies kx.push(y)[a]
                    != kx.push(y)[b] by {
                    if a < kx.len() && b < kx.len() {
                    } else if a < kx.len() {
                        assert(kx.contains(kx[a]));
                    } else {
                        assert(kx.contains(kx[b]));
                    }
                }
            }
            lemma_distinct_below(kx.push(y), self.slots.len());
        }
        match self.tree[x].child {
            None => {
                self.tree[x].child = Some(y);
                proof {
                    assert(kx.len() == 0);
                    assert(seq![y][0] == y);
                    assert(crate::fibonacci_heap::ring::is_ring(self.sib@, seq![y]));
                }
            },
            Some(c) => {
                assert(kx[0] == c);
                assert(kx.len() > 0);
                splice_left(&mut self.sib, c, y, Ghost(kx));
            },
        }
        let dx = self.tree[x].degree;
        self.tree[x].degree = dx + 1;
        let ghost nkx = kx.push(y);
        proof {
            if kx.len() == 0 {
                assert(nkx =~= seq![y]);
            }
            self.kids@ = old_kids.update(x as int, nkx);
            let hx = if self.height@[x as int] > self.height@[y as int] {
                self.height@[x as int]
            } else {
                self.height@[y as int] + 1
            };
            self.hbound@ = self.hbound@ + 1;
            self.height@ = self.height@.update(x as int, hx);
            if kx.len() > 0 {
                assert forall|j: int| 0 <= j < nkx.len() implies tree1[#[trigger] nkx[j] as int].parent
                    == Some(x) by {
                    if j < kx.len() {
                        assert(nkx[j] == old_kids[x as int][j]);
                    }
                }
                lemma_rings_kept(sib1, self.sib@, tree1, nkx, Some(x), roots1, old_kids.update(
                    x as int,
                    Seq::empty(),
                ));
            }
            let nr = if roots1[0] == x {
                roots1
            } else {
                let jx = choose|jx: int| 0 <= jx < roots1.len() && roots1[jx] == x;
                lemma_rotate(self.sib@, roots1, jx);
                rotate(roots1, jx)
            };
            self.roots@ = nr;
            assert(is_ring(self.sib@, roots1));
            assert forall|z: usize| #[trigger] nr.contains(z) <==> rs.contains(z) && z != y by {
                if roots1.contains(z) {
                    let j = choose|j: int| 0 <= j < roots1.len() && roots1[j] == z;
                    assert(ry[j + 1] == z);
                    assert(ry[0] != ry[j + 1]);
                }
                if rs.contains(z) && z != y {
                    assert(ry.contains(z));
                    let j = choose|j: int| 0 <= j < n && ry[j] == z;
                    assert(j != 0);
                    assert(roots1[j - 1] == z);
                }
            }
            assert(roots_ok(self.slots@, self.tree@, self.roots@, -1)) by {
                assert forall|j: int| 0 <= j < nr.len() implies live(
                    self.slots@,
                    #[trigger] nr[j] as int,
                ) && self.tree@[nr[j] as int].parent is None && nr[j] != -1 by {
                    assert(nr.contains(nr[j]));
                    assert(rs.contains(nr[j]));
                    let jj = choose|jj: int| 0 <= jj < n && rs[jj] == nr[j];
                }
                assert forall|i: int|
                    live(self.slots@, i) && (#[trigger] self.tree@[i]).parent is None && i != -1 implies nr.contains(
                    i as usize,
                ) by {
                    assert(old_tree[i].parent is None);
                    assert(rs.contains(i as usize));
                }
            }
            assert(kid_members_ok(self.slots@, self.tree@, self.kids@)) by {
                assert forall|a: int, b: int|
                    0 <= a < self.kids@.len() && 0 <= b < self.kids@[a].len() implies live(
                    self.slots@,
                    #[trigger] self.kids@[a][b] as int,
                ) && self.tree@[self.kids@[a][b] as int].parent == Some(a as usize) by {
                    if a == x {
                        if b < kx.len() {
                            assert(self.kids@[a][b] == old_kids[x as int][b]);
                        }
                    } else {
                        assert(old_tree[old_kids[a][b] as int].parent == Some(a as usize));
                    }
                }
            }
            assert(parents_ok(self.slots@, self.tree@, self.kids@, self.height@, self.hbound@)) by {
                assert forall|i: int|
                    live(self.slots@, i) && (#[trigger] self.tree@[i]).parent is Some implies {
                    let q = self.tree@[i].parent.unwrap() as int;
                    &&& live(self.slots@, q)
                    &&& self.kids@[q].contains(i as usize)
                    &&& rank(self.slots@, q) <= rank(self.slots@, i)
                    &&& self.height@[i] < self.height@[q]
                } by {
                    if i == y {
                        assert(nkx[kx.len() as int] == y);
                    } else {
                        assert(old_tree[i].parent == self.tree@[i].parent);
                        let q = self.tree@[i].parent.unwrap() as int;
                        assert(old_kids[q].contains(i as usize));
                        if q == x {
                            let j = choose|j: int| 0 <= j < kx.len() && kx[j] == i as usize;
                            assert(nkx[j] == i as usize);
                        }
                    }
                }
                assert forall|i: int| live(self.slots@, i) implies #[trigger] self.height@[i]
                    <= self.hbound@ by {}
            }
            assert(kid_rings_ok(self.tree@, self.sib@, self.kids@)) by {
                assert forall|a: int| 0 <= a < self.kids@.len() implies {
                    &&& (#[trigger] self.kids@[a]).len() == self.tree@[a].degree
                    &&& (self.tree@[a].child is None <==> self.kids@[a].len() == 0)
                    &&& (self.tree@[a].child is Some ==> self.kids@[a][0]
                        == self.tree@[a].child.unwrap())
                    &&& self.kids@[a].len() > 0 ==> is_ring(self.sib@, self.kids@[a])
                } by {
                    if a == x {
                        if kx.len() > 0 {
                            assert(nkx[0] == kx[0]);
                        }
                    } else {
                        assert(old_kids[a] == self.kids@[a]);
                        if kx.len() > 0 {
                            assert(old_kids.update(x as int, Seq::empty())[a] == old_kids[a]);
                        }
                    }
                }
            }
        }
    }

    /// The roots in ring order, read once around from `anchor`, the first root.
    fn collect_roots(&self, anchor: usize) -> (r: Vec<usize>)
        requires
            self.wf_core(),
            self.roots@.len() > 0,
            anchor == self.roots@[0],
        ensures
            r@ == self.roots@,
    {
        let ghost rs = self.roots@;
        let ghost n = rs.len() as int;
        let mut v: Vec<usize> = Vec::new();
        let mut cur = anchor;
        loop
            invariant
                self.wf_core(),
                rs == self.roots@,
                n == rs.len(),
                n > 0,
                anchor == rs[0],
                v.len() < n,
                v@ == rs.subrange(0, v.len() as int),
                cur == rs[v.len() as int],
            decreases n - v.len(),
        {
            v.push(cur);
            let nx = self.sib[cur].right;
            let ghost j = v.len() - 1;
            assert(self.sib@[rs[j] as int].right == rs[crate::fibonacci_heap::ring::succ(j, n)]);
            if nx == anchor {
                proof {
                    if j + 1 < n {
                        assert(rs[j + 1] != rs[0]);
                    }
                }
                assert(v@ =~= rs);
                return v;
            }
            cur = nx;
        }
    }

    /// A root of least key, found by walking the root ring from `anchor`.
    fn min_root(&self, anchor: usize) -> (r: usize)
        requires
            self.wf_core(),
            self.roots@.len() > 0,
            anchor == self.roots@[0],
        ensures
            self.roots@.contains(r),
            forall|j: int|
                0 <= j < self.roots@.len() ==> rank(self.slots@, r as int) <= rank(
                    self.slots@,
                    #[trigger] self.roots@[j] as int,
                ),
    {
        let v = self.collect_roots(anchor);
        let mut best = v[0];
        let mut i: usize = 1;
        assert(live(self.slots@, self.roots@[0] as int));
        while i < v.len()
            invariant
                self.wf_core(),
                v@ == self.roots@,
                1 <= i <= v.len(),
                self.roots@.contains(best),
                forall|j: int|
                    0 <= j < i ==> rank(self.slots@, best as int) <= rank(
                        self.slots@,
                        #[trigger] self.roots@[j] as int,
                    ),
            decreases v.len() - i,
        {
            let c = v[i];
            assert(live(self.slots@, self.roots@[i as int] as int));
            assert(live(self.slots@, best as int)) by {
                let j = choose|j: int| 0 <= j < self.roots@.len() && self.roots@[j] == best;
            }
            if self.less(c, best) {
                best = c;
            }
            i = i + 1;
        }
        best
    }

    /// Merges roots of equal degree until all degrees differ, then makes a
    /// root of least key the minimum. When two roots of equal key merge, the
    /// one being carried along stays on top; among roots of equal least key,
    /// the first met from `anchor` becomes the minimum.
    fn consolidate(&mut self, anchor: usize)
        requires
            old(self).wf_core(),
            old(self).roots@.len() > 0,
            anchor == old(self).roots@[0],
        ensures
            final(self).wf(),
            final(self).slots == old(self).slots,
            final(self).contents == old(self).contents,
            final(self).next_stamp == old(self).next_stamp,
    {
        let list = self.collect_roots(anchor);
        let mut table: Vec<Option<usize>> = Vec::new();
        let mut idx: usize = 0;
        let mut anchor = anchor;
        while idx < list.len()
            invariant
                self.wf_core(),
                self.slots == old(self).slots,
                self.contents == old(self).contents,
                self.next_stamp == old(self).next_stamp,
                list@.no_duplicates(),
                0 <= idx <= list.len(),
                self.roots@.len() > 0,
                anchor == self.roots@[0],
                forall|k: int| idx <= k < list.len() ==> self.roots@.contains(#[trigger] list@[k]),
                forall|d: int|
                    0 <= d < table.len() && (#[trigger] table@[d]) is Some ==> {
                        &&& self.roots@.contains(table@[d].unwrap())
                        &&& self.tree@[table@[d].unwrap() as int].degree == d
                        &&& list@.subrange(0, idx as int).contains(table@[d].unwrap())
                    },
            decreases list.len() - idx,
        {
            let mut x = list[idx];
            let ghost pre = list@.subrange(0, idx as int + 1);
            assert(self.roots@.contains(x));
            assert(live(self.slots@, x as int)) by {
                let j = choose|j: int| 0 <= j < self.roots@.len() && self.roots@[j] == x;
            }
            let mut d = self.tree[x].degree;
            assert(pre.contains(x)) by {
                assert(pre[idx as int] == x);
            }
            while d < table.len() && table[d].is_some()
                invariant
                    self.wf_core(),
                    self.slots == old(self).slots,
                    self.contents == old(self).contents,
                    self.next_stamp == old(self).next_stamp,
                    list@.no_duplicates(),
                    0 <= idx < list.len(),
                    pre == list@.subrange(0, idx as int + 1),
                    self.roots@.len() > 0,
                    anchor == self.roots@[0],
                    self.roots@.contains(x),
                    pre.contains(x),
                    self.tree@[x as int].degree == d,
                    forall|k: int| idx < k < list.len() ==> self.roots@.contains(#[trigger] list@[k]),
                    forall|e: int|
                        0 <= e < table.len() && (#[trigger] table@[e]) is Some ==> {
                            &&& self.roots@.contains(table@[e].unwrap())
                            &&& self.tree@[table@[e].unwrap() as int].degree == e
                            &&& pre.contains(table@[e].unwrap())
                            &&& table@[e].unwrap() != x
                        },
                decreases table.len() - d,
            {
                let mut y = table[d].unwrap();
                assert(table@[d as int] is Some);
                assert(live(self.slots@, x as int)) by {
                    let j = choose|j: int| 0 <= j < self.roots@.len() && self.roots@[j] == x;
                }
                assert(live(self.slots@, y as int)) by {
                    let j = choose|j: int| 0 <= j < self.roots@.len() && self.roots@[j] == y;
                }
                if self.less(y, x) {
                    let t = x;
                    x = y;
                    y = t;
                }
                let ghost tree0 = self.tree@;
                let ghost roots0 = self.roots@;
                proof {
                    assert forall|k: int| idx < k < list.len() implies #[trigger] list@[k] != y by {
                        let j = choose|j: int| 0 <= j < pre.len() && pre[j] == y;
                        assert(list@[j] == y);
                    }
                }
                self.link(y, x);
                anchor = x;
                table[d] = None;
                d = d + 1;
                proof {
                    assert forall|e: int|
                        0 <= e < table.len() && (#[trigger] table@[e]) is Some implies {
                        &&& self.roots@.contains(table@[e].unwrap())
                        &&& self.tree@[table@[e].unwrap() as int].degree == e
                        &&& pre.contains(table@[e].unwrap())
                        &&& table@[e].unwrap() != x
                    } by {
                        let w = table@[e].unwrap();
                        assert(e != d - 1);
                        assert(tree0[w as int].degree == e);
                        assert(w != y);
                        assert(w != x);
                    }
                }
            }
            while table.len() <= d
                invariant
                    forall|e: int|
                        0 <= e < table.len() && (#[trigger] table@[e]) is Some ==> {
                            &&& self.roots@.contains(table@[e].unwrap())
                            &&& self.tree@[table@[e].unwrap() as int].degree == e
                            &&& pre.contains(table@[e].unwrap())
                            &&& table@[e].unwrap() != x
                        },
                decreases d + 1 - table.len(),
            {
                table.push(None);
            }
            table[d] = Some(x);
            idx = idx + 1;
            proof {
                assert(pre == list@.subrange(0, idx as int));
            }
        }
        let m = self.min_root(anchor);
        self.h_min = Some(m);
        proof {
            let rs = self.roots@;
            let k = choose|k: int| 0 <= k < rs.len() && rs[k] == m;
            lemma_rotate(self.sib@, rs, k);
            self.roots@ = rotate(rs, k);
            assert forall|j: int| 0 <= j < rs.len() implies rank(self.slots@, self.roots@[0] as int)
                <= rank(self.slots@, #[trigger] self.roots@[j] as int) by {
                assert(self.roots@[j] == rs[rotated_index(j, k, rs.len() as int)]);
            }
            assert(roots_ok(self.slots@, self.tree@, self.roots@, -1)) by {
                assert forall|j: int| 0 <= j < self.roots@.len() implies live(
                    self.slots@,
                    #[trigger] self.roots@[j] as int,
                ) && self.tree@[self.roots@[j] as int].parent is None && self.roots@[j] != -1 by {
                    assert(self.roots@[j] == rs[rotated_index(j, k, rs.len() as int)]);
                }
                assert forall|i: int|
                    live(self.slots@, i) && (#[trigger] self.tree@[i]).parent is None && i != -1 implies self.roots@.contains(
                    i as usize,
                ) by {
                    assert(rs.contains(i as usize));
                }
            }
        }
    }

    /// When `z` is the only root and has no children, it is the only live node.
    proof fn lemma_sole_root(&self, z: int, i: int)
        requires
            self.wf_core(),
            self.roots@ == seq![z as usize],
            self.kids@[z].len() == 0,
            0 <= z < self.slots.len(),
            live(self.slots@, i),
        ensures
            i == z,
        decreases self.hbound@ - self.height@[i],
    {
        if self.tree@[i].parent is None {
            assert(self.roots@.contains(i as usize));
        } else {
            let p = self.tree@[i].parent.unwrap() as int;
            assert(self.height@[p] <= self.hbound@);
            self.lemma_sole_root(z, p);
            assert(self.kids@[p].contains(i as usize));
        }
    }

    /// Removes root `z`: its children become roots, its slot is freed and the
    /// remaining roots are consolidated. Returns its key and payload.
    fn extract_root(&mut self, z: usize) -> (r: (K, T))
        requires
            old(self).wf(),
            live(old(self).slots@, z as int),
            old(self).tree@[z as int].parent is None,
        ensures
            final(self).wf(),
            r == old(self)@[handle(old(self).slots@, z as int)],
            old(self)@.contains_key(handle(old(self).slots@, z as int)),
            final(self)@ == old(self)@.remove(handle(old(self).slots@, z as int)),
            final(self).next_stamp == old(self).next_stamp,
    {
        while self.tree[z].child.is_some()
            invariant
                self.wf(),
                live(self.slots@, z as int),
                self.tree@[z as int].parent is None,
                self.slots == old(self).slots,
                self.contents == old(self).contents,
                self.next_stamp == old(self).next_stamp,
            decreases self.tree@[z as int].degree,
        {
            let c = self.tree[z].child.unwrap();
            assert(self.kids@[z as int][0] == c);
            self.cut(c);
        }
        let ghost s0 = *self;
        let ghost old_slots = self.slots@;
        let ghost old_tree = self.tree@;
        let ghost old_sib = self.sib@;
        let ghost old_free = self.free@;
        let ghost rs = self.roots@;
        let ghost n = rs.len() as int;
        let ghost h = handle(old_slots, z as int);
        assert(rs.contains(z));
        let ghost k = choose|k: int| 0 <= k < n && rs[k] == z;
        proof {
            lemma_rotate(self.sib@, rs, k);
        }
        let ghost rz = rotate(rs, k);
        let r = self.sib[z].right;
        assert(old_sib[rz[0] as int].right == rz[crate::fibonacci_heap::ring::succ(0, n)]);
        remove_from_ring(&mut self.sib, z, Ghost(rz));
        let e = self.slots[z].entry.take().unwrap();
        self.free.push(z);
        self.size = self.size - 1;
        let ghost rest = rz.subrange(1, n);
        proof {
            assert(self.contents@.contains_key(h));
            self.contents@ = self.contents@.remove(h);
            self.roots@ = rest;
            assert forall|j: int| 0 <= j < rz.len() implies old_tree[#[trigger] rz[j] as int].parent
                is None by {
                assert(rs.contains(rz[j]));
                let jj = choose|jj: int| 0 <= jj < n && rs[jj] == rz[j];
            }
            lemma_rings_kept(old_sib, self.sib@, old_tree, rz, None, rs, self.kids@);
            assert(!old_free.contains(z)) by {
                if old_free.contains(z) {
                    let j = choose|j: int| 0 <= j < old_free.len() && old_free[j] == z;
                }
            }
            assert forall|i: int| 0 <= i < self.slots.len() && i != z implies #[trigger] live(self.slots@, i)
                == live(old_slots, i) by {}
            assert(contents_ok(self.slots@, self.contents@, self.next_stamp as nat)) by {
                assert forall|g: FibHeapRef| #[trigger] self.contents@.contains_key(g) implies {
                    &&& live(self.slots@, g.index as int)
                    &&& self.slots@[g.index as int].stamp == g.stamp
                    &&& self.contents@[g] == self.slots@[g.index as int].entry.unwrap()
                } by {
                    assert(old(self).contents@.contains_key(g));
                    if g.index == z {
                        assert(g == h);
                    }
                }
                assert forall|i: int| #[trigger] live(self.slots@, i) implies self.contents@.contains_key(
                    handle(self.slots@, i),
                ) && self.slots@[i].stamp < self.next_stamp by {
                    assert(i != z);
                    assert(live(old_slots, i));
                    assert(handle(self.slots@, i) == handle(old_slots, i));
                }
            }
            assert(free_ok(self.slots@, self.free@)) by {
                assert forall|j: int| 0 <= j < self.free.len() implies (#[trigger] self.free@[j])
                    < self.slots.len() && !live(self.slots@, self.free@[j] as int) by {
                    if j < old_free.len() {
                        assert(self.free@[j] == old_free[j]);
                        assert(!live(old_slots, old_free[j] as int));
                    }
                }
                assert(self.free@.no_duplicates()) by {
                    assert forall|a: int, b: int|
                        0 <= a < self.free.len() && 0 <= b < self.free.len() && a != b implies self.free@[a]
                        != self.free@[b] by {
                        if a < old_free.len() && b < old_free.len() {
                        } else if a < old_free.len() {
                            assert(old_free.contains(self.free@[a]));
                        } else {
                            assert(old_free.contains(self.free@[b]));
                        }
                    }
                }
            }
            assert(roots_ok(self.slots@, self.tree@, self.roots@, -1)) by {
                assert forall|j: int| 0 <= j < rest.len() implies live(
                    self.slots@,
                    #[trigger] rest[j] as int,
                ) && self.tree@[rest[j] as int].parent is None && rest[j] != -1 by {
                    assert(rest[j] == rz[j + 1]);
                    assert(rz[j + 1] != rz[0]);
                    assert(rs.contains(rz[j + 1]));
                    let jj = choose|jj: int| 0 <= jj < n && rs[jj] == rz[j + 1];
                }
                assert forall|i: int|
                    live(self.slots@, i) && (#[trigger] self.tree@[i]).parent is None && i != -1 implies rest.contains(
                    i as usize,
                ) by {
                    assert(i != z);
                    assert(rz.contains(i as usize));
                    let jj = choose|jj: int| 0 <= jj < n && rz[jj] == i as usize;
                    assert(jj != 0);
                    assert(rest[jj - 1] == i as usize);
                }
            }
            assert(kid_members_ok(self.slots@, self.tree@, self.kids@)) by {
                assert forall|a: int, b: int|
                    0 <= a < self.kids@.len() && 0 <= b < self.kids@[a].len() implies live(
                    self.slots@,
                    #[trigger] self.kids@[a][b] as int,
                ) && self.tree@[self.kids@[a][b] as int].parent == Some(a as usize) by {
                    assert(live(old_slots, self.kids@[a][b] as int));
                    assert(self.kids@[a][b] != z);
                }
            }
            assert(parents_ok(self.slots@, self.tree@, self.kids@, self.height@, self.hbound@)) by {
                assert forall|i: int|
                    live(self.slots@, i) && (#[trigger] self.tree@[i]).parent is Some implies {
                    let q = self.tree@[i].parent.unwrap() as int;
                    &&& live(self.slots@, q)
                    &&& self.kids@[q].contains(i as usize)
                    &&& rank(self.slots@, q) <= rank(self.slots@, i)
                    &&& self.height@[i] < self.height@[q]
                } by {
                    assert(live(old_slots, i));
                    let q = self.tree@[i].parent.unwrap() as int;
                    if q == z {
                        assert(self.kids@[z as int].contains(i as usize));
                    }
                }
                assert forall|i: int| live(self.slots@, i) implies #[trigger] self.height@[i]
                    <= self.hbound@ by {
                    assert(live(old_slots, i));
                }
            }
            assert(kid_rings_ok(self.tree@, self.sib@, self.kids@));
            if n > 1 {
                assert(rest[0] == rz[1]);
                let r1 = rest[0];
                assert(live(self.slots@, r1 as int));
                assert(self.contents@.contains_key(handle(self.slots@, r1 as int)));
                if self.size == 0 {
                    self.contents@.dom().lemma_len0_is_empty();
                    assert(self.contents@.dom().contains(handle(self.slots@, r1 as int)));
                }
            } else {
                assert(rs =~= seq![z]) by {
                    assert(rs[0] == z);
                }
                assert forall|i: int| live(old_slots, i) implies i == z by {
                    s0.lemma_sole_root(z as int, i);
                }
                assert(self.contents@.dom() =~= Set::<FibHeapRef>::empty()) by {
                    assert forall|g: FibHeapRef| !self.contents@.dom().contains(g) by {
                        if self.contents@.dom().contains(g) {
                            assert(old(self).contents@.contains_key(g));
                            assert(live(old_slots, g.index as int));
                        }
                    }
                }
            }
        }
        if r != z {
            self.consolidate(r);
        } else {
            self.h_min = None;
        }
        (e.0, e.1)
    }

    /// Removes the minimum and returns its key and payload, or `EmptyHeap`.
    pub fn extract_min(&mut self) -> (r: Result<(K, T), HeapReferenceError>)
        requires
            old(self).wf(),
        ensures
            final(self).wf(),
            final(self).stamp_bound() == old(self).stamp_bound(),
            old(self)@.len() == 0 ==> r == Err::<(K, T), _>(HeapReferenceError::EmptyHeap)
                && final(self)@ == old(self)@,
            old(self)@.len() > 0 ==> {
                &&& is_min_entry(old(self)@, old(self).min_ref())
                &&& r == Ok::<(K, T), HeapReferenceError>(old(self)@[old(self).min_ref()])
                &&& final(self)@ == old(self)@.remove(old(self).min_ref())
                &&& final(self)@.len() == old(self)@.len() - 1
                &&& final(self).retired(old(self).min_ref())
            },
            forall|g: FibHeapRef| old(self).retired(g) ==> #[trigger] final(self).retired(g),
    {
        proof {
            self.lemma_min_ref();
        }
        match self.h_min {
            None => Err(HeapReferenceError::EmptyHeap),
            Some(m) => {
                assert(live(self.slots@, m as int));
                assert(self.slots@[m as int].stamp < self.next_stamp);
                Ok(self.extract_root(m))
            },
        }
    }

    /// Removes the node behind `h` and returns its key and payload, as if its
    /// key had been lowered below every other key and the minimum then
    /// extracted. Fails with `StaleHandle` when that node has been removed.
    pub fn delete(&mut self, h: &FibHeapRef) -> (r: Result<(K, T), HeapReferenceError>)
        requires
            old(self).wf(),
        ensures
            final(self).wf(),
            final(self).stamp_bound() == old(self).stamp_bound(),
            !old(self)@.contains_key(*h) ==> r == Err::<(K, T), _>(HeapReferenceError::StaleHandle)
                && final(self)@ == old(self)@,
            old(self)@.contains_key(*h) ==> {
                &&& r == Ok::<(K, T), HeapReferenceError>(old(self)@[*h])
                &&& final(self)@ == old(self)@.remove(*h)
                &&& final(self)@.len() == old(self)@.len() - 1
                &&& final(self).retired(*h)
            },
            forall|g: FibHeapRef| old(self).retired(g) ==> #[trigger] final(self).retired(g),
    {
        if !self.is_current(h) {
            return Err(HeapReferenceError::StaleHandle);
        }
        let x = h.index;
        match self.tree[x].parent {
            Some(p) => {
                self.cut(x);
                self.cascading_cut(p);
            },
            None => {},
        }
        Ok(self.extract_root(x))
    }

    /// Moves every entry of `other` into this heap under a fresh handle,
    /// `other`'s minimum first; `other` is consumed and its handles no longer
    /// apply. The minimum of the result is this heap's minimum unless
    /// `other`'s is strictly smaller.
    ///
    /// Each heap owns its own arena, so the entries of `other` are moved
    /// slot by slot and join the root ring as single-node trees; the next
    /// consolidation rebuilds larger trees from them.
    pub fn union(&mut self, other: FibonacciHeap<K, T>)
        requires
            old(self).wf(),
            other.wf(),
            old(self).stamp_bound() + other@.len() < usize::MAX,
        ensures
            final(self).wf(),
            final(self)@.len() == old(self)@.len() + other@.len(),
            final(self).stamp_bound() == old(self).stamp_bound() + other@.len(),
            forall|g: FibHeapRef| old(self).retired(g) ==> #[trigger] final(self).retired(g),
            forall|h: FibHeapRef| #[trigger]
                old(self)@.contains_key(h) ==> final(self)@.contains_key(h) && final(self)@[h] == old(
                    self,
                )@[h],
            forall|h: FibHeapRef| #[trigger]
                final(self)@.contains_key(h) && !old(self)@.contains_key(h) ==> old(
                    self,
                ).stamp_bound() <= h.stamp && exists|g: FibHeapRef| #[trigger]
                    other@.contains_key(g) && final(self)@[h] == other@[g],
            forall|g: FibHeapRef| #[trigger]
                other@.contains_key(g) ==> exists|h: FibHeapRef| #[trigger]
                    final(self)@.contains_key(h) && !old(self)@.contains_key(h) && final(self)@[h]
                        == other@[g],
            other@.len() == 0 ==> final(self).min_ref() == old(self).min_ref(),
            other@.len() > 0 ==> if old(self)@.len() > 0 && old(self)@[old(
                self,
            ).min_ref()].0.key_rank() <= other@[other.heap().min_ref()].0.key_rank() {
                final(self).min_ref() == old(self).min_ref()
            } else {
                final(self)@[final(self).min_ref()] == other@[other.heap().min_ref()]
            },
    {
        let mut o = other.into_inner();
        let ghost other_min = o.min_ref();
        let ghost old_min = self.min_ref();
        let ghost mut first = old_min;
        let ghost mut first_h = old_min;
        let ghost ov = o@;
        let ghost os = o.slots@;
        let ghost start = self.next_stamp as nat;
        let ghost ow = self@;
        let ghost mut moved: Map<FibHeapRef, FibHeapRef> = Map::empty();
        let ghost mut back: Map<FibHeapRef, FibHeapRef> = Map::empty();
        let ghost mut rest: Map<FibHeapRef, (K, T)> = ov;
        proof {
            o.lemma_min_ref();
            self.lemma_min_ref();
            lemma_tracked_start(ow, ov, start);
        }
        let mut skip = o.slots.len();
        match o.h_min {
            Some(m) => {
                let ghost g = handle(os, m as int);
                assert(live(os, m as int));
                let e = o.slots[m].entry.take().unwrap();
                assert(ov.contains_key(g));
                assert(rest.remove(g).len() == rest.len() - 1);
                let ghost pre = self@;
                let h = self.insert(e.0, e.1);
                proof {
                    lemma_tracked_step(pre, ow, ov, moved, back, start, g, h);
                    moved = moved.insert(g, h);
                    back = back.insert(h, g);
                    rest = rest.remove(g);
                    first = g;
                    first_h = h;
                    assert(g == other_min);
                    if ow.len() > 0 && ow[old_min].0.key_rank() <= ov[other_min].0.key_rank() {
                        assert(self.min_ref() == old_min);
                    } else {
                        assert(self.min_ref() == h);
                        assert(moved[g] == h);
                    }
                }
                skip = m;
            },
            None => {
                assert(ov.len() == 0);
            },
        }
        let ghost new_min = self.min_ref();
        let mut i: usize = 0;
        while i < o.slots.len()
            invariant
                self.wf(),
                o.slots.len() == os.len(),
                forall|j: int| i <= j < os.len() && j != skip ==> #[trigger] o.slots@[j] == os[j],
                rest.dom().finite(),
                forall|g: FibHeapRef| #[trigger]
                    rest.contains_key(g) <==> ov.contains_key(g) && g.index >= i && g.index != skip,
                forall|g: FibHeapRef| #[trigger] rest.contains_key(g) ==> rest[g] == ov[g],
                contents_ok(os, ov, o.next_stamp as nat),
                self@.len() + rest.len() == ow.len() + ov.len(),
                self.next_stamp + rest.len() == start + ov.len(),
                start <= self.next_stamp,
                start + ov.len() < usize::MAX,
                tracked_ok(self@, ow, ov, moved, back, start),
                forall|g: FibHeapRef| #[trigger]
                    ov.contains_key(g) ==> moved.contains_key(g) || rest.contains_key(g),
                self.min_ref() == new_min,
                ov.len() > 0 ==> moved.contains_key(first) && moved[first] == first_h
                    && first.index == skip && first == other_min,
                ov.len() > 0 ==> if ow.len() > 0 && ow.contains_key(old_min) && ow[old_min].0.key_rank()
                    <= ov[other_min].0.key_rank() {
                    new_min == old_min
                } else {
                    new_min == first_h
                },
                ov.len() == 0 ==> new_min == old_min,
                rest.len() > 0 ==> self@.len() > 0 && forall|g: FibHeapRef| #[trigger]
                    rest.contains_key(g) ==> self@[self.min_ref()].0.key_rank()
                        <= rest[g].0.key_rank(),
            decreases os.len() - i,
        {
            if i != skip && o.slots[i].entry.is_some() {
                let ghost g = handle(os, i as int);
                assert(live(os, i as int));
                assert(ov.contains_key(g));
                assert(rest.contains_key(g));
                assert(rest.remove(g).len() == rest.len() - 1);
                let e = o.slots[i].entry.take().unwrap();
                let ghost pre = self@;
                let h = self.insert(e.0, e.1);
                proof {
                    lemma_tracked_step(pre, ow, ov, moved, back, start, g, h);
                    moved = moved.insert(g, h);
                    back = back.insert(h, g);
                    rest = rest.remove(g);
                }
            } else {
                proof {
                    assert forall|g: FibHeapRef| #[trigger]
                        rest.contains_key(g) implies g.index >= i + 1 by {
                        if g.index == i {
                            assert(live(os, i as int));
                        }
                    }
                }
            }
            i = i + 1;
        }
        proof {
            assert(rest.dom() =~= Set::<FibHeapRef>::empty()) by {
                assert forall|g: FibHeapRef| !rest.dom().contains(g) by {
                    if rest.contains_key(g) {
                        assert(live(os, g.index as int));
                    }
                }
            }
            lemma_tracked_end(self@, ow, ov, moved, back, start);
            if ov.len() > 0 {
                if ow.len() > 0 && ow[old_min].0.key_rank() <= ov[other_min].0.key_rank() {
                    assert(self.min_ref() == old_min);
                } else {
                    assert(self.min_ref() == first_h);
                    assert(moved.contains_key(first));
                    assert(self@[moved[first]] == ov[first]);
                }
            }
        }
    }

    /// The key and payload of the minimum, or `EmptyHeap`.
    pub fn min(&self) -> (r: Result<(&K, &T), HeapReferenceError>)
        requires
            self.wf(),
        ensures
            self@.len() == 0 <==> r is Err,
            r is Err ==> r == Err::<(&K, &T), _>(HeapReferenceError::EmptyHeap),
            r is Ok ==> (*r->Ok_0.0, *r->Ok_0.1) == self@[self.min_ref()],
            r is Ok ==> forall|g: FibHeapRef| #[trigger]
                self@.contains_key(g) ==> r->Ok_0.0.key_rank() <= self@[g].0.key_rank(),
    {
        proof {
            self.lemma_min_ref();
        }
        match self.h_min {
            None => Err(HeapReferenceError::EmptyHeap),
            Some(i) => {
                assert(live(self.slots@, i as int));
                assert(self.contents@.contains_key(handle(self.slots@, i as int)));
                let e = self.slots[i].entry.as_ref().unwrap();
                Ok((&e.0, &e.1))
            },
        }
    }
}

} // verus!
