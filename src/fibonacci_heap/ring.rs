//! Circular doubly-linked sibling rings threaded through an arena of nodes.
//!
//! A ring is described by a sequence of arena indices: every member's `right`
//! link names the next member of the sequence and the last member's `right`
//! link names the first one (and the `left` links the other way round). All
//! operations here rewrite a bounded number of links and never walk a ring.
use vstd::prelude::*;

use crate::fibonacci_heap::element::SiblingLinks;

verus! {

/// Position after `j` in a cyclic sequence of length `n`.
pub open spec fn succ(j: int, n: int) -> int {
    if j + 1 < n {
        j + 1
    } else {
        0
    }
}

/// `s` rotated so that it starts at its `k`-th element.
pub open spec fn rotate(s: Seq<usize>, k: int) -> Seq<usize> {
    s.subrange(k, s.len() as int) + s.subrange(0, k)
}

/// Every member of `s` is an index into `ls`.
pub open spec fn in_arena(ls: Seq<SiblingLinks>, s: Seq<usize>) -> bool {
    forall|j: int| 0 <= j < s.len() ==> (#[trigger] s[j]) < ls.len()
}

/// Position before `j` in a cyclic sequence of length `n`.
pub open spec fn pred(j: int, n: int) -> int {
    if j == 0 {
        n - 1
    } else {
        j - 1
    }
}

/// The links of `ls` close `s` into a circular ring, in the order of `s`.
pub open spec fn is_ring(ls: Seq<SiblingLinks>, s: Seq<usize>) -> bool {
    &&& s.len() > 0
    &&& s.no_duplicates()
    &&& in_arena(ls, s)
    &&& forall|j: int|
        0 <= j < s.len() ==> {
            &&& (#[trigger] ls[s[j] as int]).right == s[succ(j, s.len() as int)]
            &&& ls[s[j] as int].left == s[pred(j, s.len() as int)]
        }
}

/// `ls2` agrees with `ls` on the ring links of every member of `s`.
pub open spec fn same_links_on(
    ls: Seq<SiblingLinks>,
    ls2: Seq<SiblingLinks>,
    s: Seq<usize>,
) -> bool {
    forall|j: int|
        0 <= j < s.len() ==> {
            &&& (#[trigger] ls2[s[j] as int]).left == ls[s[j] as int].left
            &&& ls2[s[j] as int].right == ls[s[j] as int].right
        }
}

/// `ls2` differs from `ls` at most in the links of members of `s`.
pub open spec fn only_links_of(ls: Seq<SiblingLinks>, ls2: Seq<SiblingLinks>, s: Seq<usize>) -> bool {
    &&& ls2.len() == ls.len()
    &&& forall|i: int| 0 <= i < ls.len() && !s.contains(i as usize) ==> #[trigger] ls2[i] == ls[i]
}

/// A ring stays a ring while none of its members' links change.
pub proof fn lemma_ring_frame(
    ls: Seq<SiblingLinks>,
    ls2: Seq<SiblingLinks>,
    s: Seq<usize>,
)
    requires
        is_ring(ls, s),
        ls2.len() >= ls.len(),
        same_links_on(ls, ls2, s),
    ensures
        is_ring(ls2, s),
{
}

/// Index in `s` of the `j`-th element of `rotate(s, k)`.
pub open spec fn rotated_index(j: int, k: int, n: int) -> int {
    if j + k < n {
        j + k
    } else {
        j + k - n
    }
}

proof fn lemma_rotate_index(s: Seq<usize>, k: int)
    requires
        0 <= k < s.len(),
    ensures
        rotate(s, k).len() == s.len(),
        forall|j: int|
            0 <= j < s.len() ==> #[trigger] rotate(s, k)[j] == s[rotated_index(j, k, s.len() as int)],
{
}

proof fn lemma_rotate_members(s: Seq<usize>, k: int)
    requires
        0 <= k < s.len(),
        s.no_duplicates(),
    ensures
        rotate(s, k).no_duplicates(),
        forall|x: usize| rotate(s, k).contains(x) <==> s.contains(x),
        rotate(s, k).to_set() == s.to_set(),
{
    let n = s.len() as int;
    let r = rotate(s, k);
    lemma_rotate_index(s, k);
    assert forall|x: usize| r.contains(x) <==> s.contains(x) by {
        if s.contains(x) {
            let i = choose|i: int| 0 <= i < n && s[i] == x;
            let j = if i >= k {
                i - k
            } else {
                i + n - k
            };
            assert(r[j] == s[rotated_index(j, k, n)]);
        }
        if r.contains(x) {
            let j = choose|j: int| 0 <= j < n && r[j] == x;
            assert(r[j] == s[rotated_index(j, k, n)]);
        }
    }
    assert(r.to_set() =~= s.to_set());
    assert forall|a: int, b: int| 0 <= a < n && 0 <= b < n && a != b implies r[a] != r[b] by {
        assert(r[a] == s[rotated_index(a, k, n)]);
        assert(r[b] == s[rotated_index(b, k, n)]);
    }
}

/// A ring read from another member is still a ring.
pub proof fn lemma_rotate(ls: Seq<SiblingLinks>, s: Seq<usize>, k: int)
    requires
        is_ring(ls, s),
        0 <= k < s.len(),
    ensures
        is_ring(ls, rotate(s, k)),
        rotate(s, k).len() == s.len(),
        rotate(s, k)[0] == s[k],
        rotate(s, k).to_set() == s.to_set(),
        forall|x: usize| rotate(s, k).contains(x) <==> s.contains(x),
{
    let n = s.len() as int;
    let r = rotate(s, k);
    lemma_rotate_index(s, k);
    lemma_rotate_members(s, k);
    assert(r[0] == s[rotated_index(0, k, n)]);
    assert forall|j: int| 0 <= j < n implies {
        &&& (#[trigger] ls[r[j] as int]).right == r[succ(j, n)]
        &&& ls[r[j] as int].left == r[pred(j, n)]
    } by {
        let i = rotated_index(j, k, n);
        assert(r[j] == s[i]);
        assert(r[succ(j, n)] == s[rotated_index(succ(j, n), k, n)]);
        assert(r[pred(j, n)] == s[rotated_index(pred(j, n), k, n)]);
        assert(ls[s[i] as int].right == s[succ(i, n)]);
    }
    assert(in_arena(ls, r)) by {
        assert forall|j: int| 0 <= j < n implies (#[trigger] r[j]) < ls.len() by {
            assert(r[j] == s[rotated_index(j, k, n)]);
        }
    }
}

/// Joining two disjoint sequences without repeats gives one without repeats.
pub proof fn lemma_concat_no_duplicates(s: Seq<usize>, t: Seq<usize>)
    requires
        s.no_duplicates(),
        t.no_duplicates(),
        s.disjoint(t),
    ensures
        (s + t).no_duplicates(),
        forall|x: usize| (s + t).contains(x) <==> s.contains(x) || t.contains(x),
{
    let st = s + t;
    let n = s.len() as int;
    assert forall|i: int, j: int| 0 <= i < st.len() && 0 <= j < st.len() && i != j implies st[i]
        != st[j] by {
        if i < n && j >= n {
            assert(s.contains(st[i]));
            assert(t.contains(st[j]));
        }
        if j < n && i >= n {
            assert(s.contains(st[j]));
            assert(t.contains(st[i]));
        }
    }
    assert forall|x: usize| st.contains(x) <==> s.contains(x) || t.contains(x) by {
        if st.contains(x) {
            let i = choose|i: int| 0 <= i < st.len() && st[i] == x;
            if i < n {
                assert(s[i] == x);
            } else {
                assert(t[i - n] == x);
            }
        }
        if s.contains(x) {
            let i = choose|i: int| 0 <= i < n && s[i] == x;
            assert(st[i] == x);
        }
        if t.contains(x) {
            let i = choose|i: int| 0 <= i < t.len() && t[i] == x;
            assert(st[n + i] == x);
        }
    }
}

/// The links after joining ring `t` into ring `s` to the left of `s[0]`.
proof fn lemma_merge(
    ls: Seq<SiblingLinks>,
    ls2: Seq<SiblingLinks>,
    s: Seq<usize>,
    t: Seq<usize>,
)
    requires
        is_ring(ls, s),
        is_ring(ls, t),
        s.disjoint(t),
        ls2.len() == ls.len(),
        forall|k: int|
            0 <= k < ls.len() ==> (#[trigger] ls2[k]).right == if k == s.last() {
                t[0]
            } else if k == t.last() {
                s[0]
            } else {
                ls[k].right
            },
        forall|k: int|
            0 <= k < ls.len() ==> (#[trigger] ls2[k]).left == if k == t[0] {
                s.last()
            } else if k == s[0] {
                t.last()
            } else {
                ls[k].left
            },
    ensures
        is_ring(ls2, s + t),
{
    let st = s + t;
    let n = s.len() as int;
    let m = t.len() as int;
    let q = st.len() as int;
    lemma_concat_no_duplicates(s, t);
    assert forall|j: int| 0 <= j < q implies {
        &&& (#[trigger] ls2[st[j] as int]).right == st[succ(j, q)]
        &&& ls2[st[j] as int].left == st[pred(j, q)]
    } by {
        if j < n {
            assert(st[j] == s[j]);
            assert(s.contains(s[j]));
            assert(ls[s[j] as int].right == s[succ(j, n)]);
            if j > 0 {
                assert(s[j] != s[0]);
            }
            if j < n - 1 {
                assert(s[j] != s[n - 1]);
            }
        } else {
            assert(st[j] == t[j - n]);
            assert(t.contains(t[j - n]));
            assert(ls[t[j - n] as int].right == t[succ(j - n, m)]);
            if j > n {
                assert(t[j - n] != t[0]);
            }
            if j < q - 1 {
                assert(t[j - n] != t[m - 1]);
            }
        }
    }
    assert(in_arena(ls2, st)) by {
        assert forall|j: int| 0 <= j < q implies (#[trigger] st[j]) < ls2.len() by {
            if j < n {
                assert(st[j] == s[j]);
            } else {
                assert(st[j] == t[j - n]);
            }
        }
    }
}

/// Sets both ring links of node `x`.
fn set_links(links: &mut Vec<SiblingLinks>, x: usize, left: usize, right: usize)
    requires
        x < old(links).len(),
    ensures
        final(links)@ == old(links)@.update(x as int, SiblingLinks { left, right }),
{
    links[x].left = left;
    links[x].right = right;
}

/// Splices the whole ring `t` (read from `b`) into the ring `s` (read from `a`),
/// just to the left of `a`. The joined ring reads `s` then `t`.
pub fn merge_rings(
    links: &mut Vec<SiblingLinks>,
    a: usize,
    b: usize,
    Ghost(s): Ghost<Seq<usize>>,
    Ghost(t): Ghost<Seq<usize>>,
)
    requires
        is_ring(old(links)@, s),
        is_ring(old(links)@, t),
        s[0] == a,
        t[0] == b,
        s.disjoint(t),
    ensures
        is_ring(final(links)@, s + t),
        only_links_of(old(links)@, final(links)@, s + t),
{
    let ghost ls = links@;
    let ghost n = s.len() as int;
    let ghost m = t.len() as int;
    let al = links[a].left;
    let bl = links[b].left;
    assert(ls[s[0] as int].left == s[pred(0, n)]);
    assert(ls[t[0] as int].left == t[pred(0, m)]);
    assert(s.contains(a) && s.contains(al) && t.contains(b) && t.contains(bl));
    links[al].right = b;
    links[b].left = al;
    links[bl].right = a;
    links[a].left = bl;
    proof {
        lemma_merge(ls, links@, s, t);
        lemma_concat_no_duplicates(s, t);
    }
}

/// Makes `x` a ring of its own, whatever its links were before.
pub fn make_singleton(links: &mut Vec<SiblingLinks>, x: usize)
    requires
        x < old(links).len(),
    ensures
        is_ring(final(links)@, seq![x]),
        only_links_of(old(links)@, final(links)@, seq![x]),
{
    set_links(links, x, x, x);
    assert(seq![x][0] == x);
}

/// Inserts the detached node `x` into the ring `s` just to the left of
/// `a == s[0]`; the old links of `x` are discarded. The ring then reads `s`
/// followed by `x`.
pub fn splice_left(
    links: &mut Vec<SiblingLinks>,
    a: usize,
    x: usize,
    Ghost(s): Ghost<Seq<usize>>,
)
    requires
        is_ring(old(links)@, s),
        s[0] == a,
        x < old(links).len(),
        !s.contains(x),
    ensures
        is_ring(final(links)@, s.push(x)),
        only_links_of(old(links)@, final(links)@, s.push(x)),
{
    let ghost ls0 = links@;
    make_singleton(links, x);
    assert(same_links_on(ls0, links@, s)) by {
        assert forall|j: int| 0 <= j < s.len() implies (#[trigger] links@[s[j] as int]) == ls0[s[
            j
        ] as int] by {
            assert(s[j] != x);
        }
    }
    proof {
        lemma_ring_frame(ls0, links@, s);
    }
    let ghost single = seq![x];
    let ghost ls1 = links@;
    merge_rings(links, a, x, Ghost(s), Ghost(single));
    assert(s + single =~= s.push(x));
    assert forall|i: int| 0 <= i < ls0.len() && !s.push(x).contains(i as usize) implies #[trigger] links@[i]
        == ls0[i] by {
        assert(s.push(x)[s.len() as int] == x);
        assert(i != x);
        assert(links@[i] == ls1[i]);
    }
}

/// Unlinks `x == s[0]` from its ring `s`; the rest of the ring stays a ring in
/// the same order and `x` is left as a ring of its own.
pub fn remove_from_ring(
    links: &mut Vec<SiblingLinks>,
    x: usize,
    Ghost(s): Ghost<Seq<usize>>,
)
    requires
        is_ring(old(links)@, s),
        s[0] == x,
    ensures
        s.len() > 1 ==> is_ring(final(links)@, s.subrange(1, s.len() as int)),
        final(links)@[x as int].left == x,
        final(links)@[x as int].right == x,
        only_links_of(old(links)@, final(links)@, s),
{
    let ghost ls = links@;
    let ghost n = s.len() as int;
    let l = links[x].left;
    let r = links[x].right;
    assert(ls[s[0] as int].left == s[pred(0, n)]);
    assert(ls[s[0] as int].right == s[succ(0, n)]);
    assert(n > 1 ==> s[1] != s[0]);
    assert(s.contains(x) && s.contains(l) && s.contains(r));
    if r != x {
        links[l].right = r;
        links[r].left = l;
    }
    set_links(links, x, x, x);
    if r != x {
        let ghost t = s.subrange(1, n);
        let ghost q = n - 1;
        assert forall|j: int| 0 <= j < q implies {
            &&& (#[trigger] links@[t[j] as int]).right == t[succ(j, q)]
            &&& links@[t[j] as int].left == t[pred(j, q)]
        } by {
            assert(t[j] == s[j + 1]);
            assert(ls[s[j + 1] as int].right == s[succ(j + 1, n)]);
            assert(ls[s[j + 1] as int].left == s[pred(j + 1, n)]);
            assert(s[j + 1] != x);
            if j > 0 {
                assert(s[j + 1] != s[1]);
            }
            if j < q - 1 {
                assert(s[j + 1] != s[n - 1]);
            }
        }
        assert(t.no_duplicates());
    }
}

} // verus!
