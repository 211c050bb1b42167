//! The process tree: live processes, their parents and their ordered
//! children, under `fork` and `exit`.
//!
//! Processes live in an arena indexed by identifier. The parent relation is a
//! lookup in that arena, so reparenting is a reassignment of keys.

use vstd::prelude::*;
use crate::names::{NameAllocator, ProcessId, ROOT};

verus! {

/// Where the children of an exiting process go.
#[derive(Clone, Copy, Debug, PartialEq, Eq, Structural)]
pub enum Reparent {
    /// Each direct child is attached to the exiting process's parent.
    Local,
    /// Every descendant is attached directly to the root.
    Root,
}

/// Why a single action was refused. None of these ends a run.
#[derive(Clone, Copy, Debug, PartialEq, Eq, Structural)]
pub enum ActionError {
    /// The process named is not live.
    UnknownProcess,
    /// The root process may not exit.
    CannotExitRoot,
    /// Only childless processes may exit, and this one has children.
    RejectedLeafExit,
}

/// `s` with every occurrence of `x` taken out.
pub open spec fn without(s: Seq<usize>, x: usize) -> Seq<usize>
    decreases s.len(),
{
    if s.len() == 0 {
        s
    } else if s.last() == x {
        without(s.drop_last(), x)
    } else {
        without(s.drop_last(), x).push(s.last())
    }
}

/// What taking `x` out of `s` keeps and loses.
pub proof fn lemma_without(s: Seq<usize>, x: usize)
    ensures
        forall|y: usize| #[trigger] without(s, x).contains(y) <==> (s.contains(y) && y != x),
        s.no_duplicates() ==> without(s, x).no_duplicates(),
        !s.contains(x) ==> without(s, x) == s,
    decreases s.len(),
{
    if s.len() > 0 {
        lemma_without(s.drop_last(), x);
        let w = without(s.drop_last(), x);
        assert forall|y: usize| #[trigger] without(s, x).contains(y) <==> (s.contains(y) && y != x) by {
            if s.contains(y) && y != x {
                let j = choose|j: int| 0 <= j < s.len() && s[j] == y;
                if j < s.len() - 1 {
                    assert(s.drop_last()[j] == y);
                    assert(w.contains(y));
                    let k = choose|k: int| 0 <= k < w.len() && w[k] == y;
                    if s.last() != x {
                        assert(without(s, x)[k] == y);
                    }
                } else {
                    assert(without(s, x)[w.len() as int] == y);
                }
            }
            if without(s, x).contains(y) {
                let k = choose|k: int| 0 <= k < without(s, x).len() && without(s, x)[k] == y;
                if k < w.len() {
                    assert(w[k] == y);
                    assert(w.contains(y));
                    let j = choose|j: int| 0 <= j < s.drop_last().len() && s.drop_last()[j] == y;
                    assert(s[j] == y);
                } else {
                    assert(s[s.len() - 1] == y);
                }
            }
        }
        if !s.contains(x) {
            assert(!s.drop_last().contains(x)) by {
                if s.drop_last().contains(x) {
                    let j = choose|j: int| 0 <= j < s.drop_last().len() && s.drop_last()[j] == x;
                    assert(s[j] == x);
                }
            }
            assert(s.drop_last().push(s.last()) =~= s);
        }
        if s.no_duplicates() {
            assert(s.drop_last().no_duplicates());
            if s.last() != x {
                assert(!s.drop_last().contains(s.last())) by {
                    if s.drop_last().contains(s.last()) {
                        let j = choose|j: int| 0 <= j < s.drop_last().len() && s.drop_last()[j] == s.last();
                        assert(s[j] == s[s.len() - 1]);
                    }
                }
                assert(!without(s.drop_last(), x).contains(s.last()));
                vstd::seq_lib::lemma_no_dup_in_concat(without(s.drop_last(), x), seq![s.last()]);
                assert(without(s.drop_last(), x) + seq![s.last()] =~= without(s, x));
            }
        }
    } else {
        assert(without(s, x) =~= Seq::<usize>::empty());
    }
}

/// A copy of `s` with every occurrence of `x` taken out.
fn without_vec(s: &Vec<ProcessId>, x: ProcessId) -> (r: Vec<ProcessId>)
    ensures
        r@ == without(s@, x),
{
    let mut r: Vec<ProcessId> = Vec::new();
    let mut i: usize = 0;
    while i < s.len()
        invariant
            i <= s.len(),
            r@ == without(s@.take(i as int), x),
        decreases s.len() - i,
    {
        assert(s@.take(i + 1).drop_last() =~= s@.take(i as int));
        if s[i] != x {
            r.push(s[i]);
        }
        i += 1;
    }
    assert(s@.take(s.len() as int) =~= s@);
    r
}

pub struct ProcessTree {
    /// `parents[p]`: the parent of live non-root process `p`.
    parents: Vec<ProcessId>,
    /// `children[p]`: the children of `p`, in the order they were attached.
    children: Vec<Vec<ProcessId>>,
    /// `live[p]`: whether process `p` is live.
    live: Vec<bool>,
    /// Hands out the identifier of the next forked process.
    names: NameAllocator,
}

impl ProcessTree {
    /// Number of identifiers allocated so far, the root included.
    pub closed spec fn allocated(&self) -> nat {
        self.live@.len()
    }

    /// Whether `p` is a live process.
    pub closed spec fn is_live(&self, p: int) -> bool {
        0 <= p < self.live@.len() && self.live@[p]
    }

    /// The parent of `p` (meaningful for live non-root processes).
    pub closed spec fn parent(&self, p: int) -> int {
        self.parents@[p] as int
    }

    /// The children of `p`, in order.
    pub closed spec fn kids(&self, p: int) -> Seq<ProcessId> {
        self.children@[p]@
    }

    /// Every live non-root process has a live parent with a smaller
    /// identifier, and appears among that parent's children. Since parents
    /// precede their children, the parent relation is acyclic and every chain
    /// of parents ends at the root.
    pub open spec fn parents_ok(&self) -> bool {
        forall|p: int|
            #![trigger self.is_live(p)]
            self.is_live(p) && p != ROOT ==> {
                &&& 0 <= self.parent(p) < p
                &&& self.is_live(self.parent(p))
                &&& self.kids(self.parent(p)).contains(p as usize)
            }
    }

    /// The children of a live process are live non-root processes whose
    /// parent it is, each listed once; a process that is not live has none.
    pub open spec fn children_ok(&self) -> bool {
        &&& forall|p: int, i: int|
            #![trigger self.kids(p)[i]]
            self.is_live(p) && 0 <= i < self.kids(p).len() ==> {
                &&& self.is_live(self.kids(p)[i] as int)
                &&& self.kids(p)[i] != ROOT
                &&& self.parent(self.kids(p)[i] as int) == p
            }
        &&& forall|p: int|
            #![trigger self.kids(p)]
            0 <= p < self.allocated() ==> {
                &&& self.kids(p).no_duplicates()
                &&& !self.is_live(p) ==> self.kids(p).len() == 0
            }
    }

    /// The tree's invariant. Identifiers at or beyond `allocated` were never
    /// handed out, so a fresh identifier is one no process, live or exited,
    /// ever had.
    pub closed spec fn wf(&self) -> bool {
        &&& self.parents@.len() == self.live@.len()
        &&& self.children@.len() == self.live@.len()
        &&& self.names.next == self.live@.len()
        &&& self.live@.len() >= 1
        &&& self.is_live(ROOT as int)
        &&& self.parents_ok()
        &&& self.children_ok()
    }

    /// A tree holding the root alone.
    pub fn new() -> (r: Self)
        ensures
            r.wf(),
            r.allocated() == 1,
            r.is_live(ROOT as int),
            r.kids(ROOT as int) == Seq::<ProcessId>::empty(),
    {
        let r = ProcessTree {
            parents: vec![ROOT],
            children: vec![Vec::new()],
            live: vec![true],
            names: NameAllocator::new(),
        };
        assert(r.kids(0) =~= Seq::<ProcessId>::empty());
        r
    }

    /// Whether `p` is a live process.
    pub fn is_alive(&self, p: ProcessId) -> (r: bool)
        requires
            self.wf(),
        ensures
            r == self.is_live(p as int),
    {
        p < self.live.len() && self.live[p]
    }

    /// Number of identifiers allocated so far.
    pub fn allocated_count(&self) -> (r: usize)
        requires
            self.wf(),
        ensures
            r == self.allocated(),
    {
        self.live.len()
    }

    /// The children of live process `p`, in order.
    pub fn children_of(&self, p: ProcessId) -> (r: &Vec<ProcessId>)
        requires
            self.wf(),
            self.is_live(p as int),
        ensures
            r@ == self.kids(p as int),
    {
        &self.children[p]
    }

    /// The parent of live non-root process `p`.
    pub fn parent_of(&self, p: ProcessId) -> (r: ProcessId)
        requires
            self.wf(),
            self.is_live(p as int),
            p != ROOT,
        ensures
            r == self.parent(p as int),
    {
        self.parents[p]
    }

    /// `after` is `self` once live process `parent` has forked: the next
    /// identifier is live, childless, and last among `parent`'s children;
    /// nothing else changed.
    pub open spec fn fork_result(&self, after: &Self, parent: int) -> bool {
        let c = self.allocated() as int;
        &&& forall|q: int| #[trigger] self.is_live(q) ==> 0 <= q < c
        &&& after.allocated() == c + 1
        &&& forall|q: int| #[trigger] after.is_live(q) == (self.is_live(q) || q == c)
        &&& after.parent(c) == parent
        &&& after.kids(c) == Seq::<ProcessId>::empty()
        &&& after.kids(parent) == self.kids(parent).push(c as usize)
        &&& forall|q: int| 0 <= q < c && q != parent ==> #[trigger] after.kids(q) == self.kids(q)
        &&& forall|q: int| 0 <= q < c ==> #[trigger] after.parent(q) == self.parent(q)
    }

    /// Creates a child of `parent`, named with the next identifier.
    pub fn fork(&mut self, parent: ProcessId) -> (r: Result<ProcessId, ActionError>)
        requires
            old(self).wf(),
            old(self).allocated() < usize::MAX,
        ensures
            final(self).wf(),
            !old(self).is_live(parent as int) ==> r == Err::<ProcessId, ActionError>(
                ActionError::UnknownProcess,
            ) && *final(self) == *old(self),
            old(self).is_live(parent as int) ==> r == Ok::<ProcessId, ActionError>(
                old(self).allocated() as usize,
            ) && old(self).fork_result(final(self), parent as int),
    {
        if !self.is_alive(parent) {
            return Err(ActionError::UnknownProcess);
        }
        let ghost old_tree = *self;
        let c = self.names.next_id();
        self.parents.push(parent);
        self.children.push(Vec::new());
        self.live.push(true);
        let mut siblings: Vec<ProcessId> = Vec::new();
        self.children.set_and_swap(parent, &mut siblings);
        siblings.push(c);
        self.children.set(parent, siblings);
        proof {
            assert(self.kids(c as int) =~= Seq::<ProcessId>::empty());
            assert forall|q: int| 0 <= q < c && q != parent implies #[trigger] self.kids(q)
                == old_tree.kids(q) by {}
            assert(old_tree.kids(parent as int).push(c) == self.kids(parent as int));
            assert(self.parents_ok()) by {
                assert forall|p: int| #[trigger] self.is_live(p) && p != ROOT implies {
                    &&& 0 <= self.parent(p) < p
                    &&& self.is_live(self.parent(p))
                    &&& self.kids(self.parent(p)).contains(p as usize)
                } by {
                    if p != c {
                        assert(old_tree.is_live(p));
                        let pp = old_tree.parent(p);
                        assert(old_tree.kids(pp).contains(p as usize));
                        if pp == parent {
                            let j = choose|j: int|
                                0 <= j < old_tree.kids(pp).len() && old_tree.kids(pp)[j] == p;
                            assert(self.kids(pp)[j] == p);
                        }
                    } else {
                        assert(self.kids(parent as int)[self.kids(parent as int).len() - 1]
                            == c);
                    }
                }
            }
            assert(self.children_ok()) by {
                assert forall|p: int, i: int|
                    self.is_live(p) && 0 <= i < self.kids(p).len() implies {
                    &&& self.is_live(#[trigger] self.kids(p)[i] as int)
                    &&& self.kids(p)[i] != ROOT
                    &&& self.parent(self.kids(p)[i] as int) == p
                } by {
                    if p == parent {
                        if i < old_tree.kids(p).len() {
                            assert(old_tree.kids(p)[i] == self.kids(p)[i]);
                        }
                    } else {
                        assert(old_tree.kids(p)[i] == self.kids(p)[i]);
                    }
                }
                assert forall|p: int| 0 <= p < self.allocated() implies {
                    &&& #[trigger] self.kids(p).no_duplicates()
                    &&& !self.is_live(p) ==> self.kids(p).len() == 0
                } by {
                    if p == parent {
                        assert forall|i: int| 0 <= i < old_tree.kids(p).len() implies
                            #[trigger] old_tree.kids(p)[i] != c by {
                            assert(old_tree.is_live(old_tree.kids(p)[i] as int));
                        }
                    }
                }
            }
        }
        Ok(c)
    }

    /// The subtree of `p` in pre-order: `p`, then the subtree of each child
    /// in child order.
    pub open spec fn subtree(&self, p: int) -> Seq<ProcessId>
        decreases self.allocated() - p, self.kids(p).len() + 1,
    {
        if 0 <= p < self.allocated() {
            seq![p as usize] + self.subtrees(self.kids(p), p)
        } else {
            seq![p as usize]
        }
    }

    /// The subtrees of the children `cs` of `p`, one after the other.
    pub open spec fn subtrees(&self, cs: Seq<ProcessId>, p: int) -> Seq<ProcessId>
        decreases self.allocated() - p, cs.len(),
    {
        if cs.len() == 0 {
            Seq::empty()
        } else {
            let c = cs.last() as int;
            self.subtrees(cs.drop_last(), p) + if p < c < self.allocated() {
                self.subtree(c)
            } else {
                Seq::empty()
            }
        }
    }

    /// Whether `a` lies on the chain of parents from `q` (`q` included).
    pub closed spec fn is_ancestor(&self, a: int, q: int) -> bool
        decreases q,
    {
        if q == a {
            true
        } else if q > a && q > 0 && self.is_live(q) && 0 <= self.parent(q) < q {
            self.is_ancestor(a, self.parent(q))
        } else {
            false
        }
    }

    proof fn lemma_ancestor_order(&self, a: int, q: int)
        ensures
            self.is_ancestor(a, q) ==> a <= q,
    {
    }

    proof fn lemma_ancestor_step(&self, c: int, p: int, q: int)
        requires
            self.wf(),
            self.is_live(c),
            c != ROOT,
            self.parent(c) == p,
            self.is_ancestor(c, q),
        ensures
            self.is_ancestor(p, q),
        decreases q,
    {
        assert(self.is_live(c));
        if q != c {
            self.lemma_ancestor_step(c, p, self.parent(q));
        } else {
            assert(self.is_ancestor(p, p));
        }
    }

    proof fn lemma_siblings_apart(&self, c1: int, c2: int, q: int)
        requires
            self.wf(),
            self.is_live(c1),
            self.is_live(c2),
            c1 != ROOT,
            c2 != ROOT,
            c1 != c2,
            self.parent(c1) == self.parent(c2),
        ensures
            !(self.is_ancestor(c1, q) && self.is_ancestor(c2, q)),
        decreases q,
    {
        assert(self.is_live(c1) && self.is_live(c2));
        if q != c1 && q != c2 && q > 0 && self.is_live(q) && 0 <= self.parent(q) < q {
            self.lemma_siblings_apart(c1, c2, self.parent(q));
        } else if q == c1 {
            self.lemma_ancestor_order(c2, self.parent(c2));
        } else if q == c2 {
            self.lemma_ancestor_order(c1, self.parent(c1));
        }
    }

    proof fn lemma_subtrees_member(&self, cs: Seq<ProcessId>, p: int, x: usize)
        requires
            self.subtrees(cs, p).contains(x),
        ensures
            exists|i: int|
                0 <= i < cs.len() && p < cs[i] < self.allocated() && #[trigger] self.subtree(
                    cs[i] as int,
                ).contains(x),
        decreases cs.len(),
    {
        if cs.len() > 0 {
            let c = cs.last() as int;
            let left = self.subtrees(cs.drop_last(), p);
            if left.contains(x) {
                self.lemma_subtrees_member(cs.drop_last(), p, x);
                let i = choose|i: int|
                    0 <= i < cs.drop_last().len() && p < cs.drop_last()[i] < self.allocated()
                        && #[trigger] self.subtree(cs.drop_last()[i] as int).contains(x);
                assert(cs[i] == cs.drop_last()[i]);
            } else {
                let j = choose|j: int|
                    0 <= j < self.subtrees(cs, p).len() && self.subtrees(cs, p)[j] == x;
                assert(self.subtrees(cs, p)[j] == self.subtrees(cs, p)[j]);
                if p < c < self.allocated() {
                    assert(self.subtree(c)[j - left.len()] == x);
                    assert(self.subtree(cs[cs.len() - 1] as int).contains(x));
                }
            }
        }
    }

    proof fn lemma_subtrees_holds(&self, cs: Seq<ProcessId>, p: int, i: int, x: usize)
        requires
            0 <= i < cs.len(),
            p < cs[i] < self.allocated(),
            self.subtree(cs[i] as int).contains(x),
        ensures
            self.subtrees(cs, p).contains(x),
        decreases cs.len(),
    {
        let left = self.subtrees(cs.drop_last(), p);
        if i < cs.len() - 1 {
            assert(cs.drop_last()[i] == cs[i]);
            self.lemma_subtrees_holds(cs.drop_last(), p, i, x);
            let j = choose|j: int| 0 <= j < left.len() && left[j] == x;
            assert(self.subtrees(cs, p)[j] == x);
        } else {
            let j = choose|j: int|
                0 <= j < self.subtree(cs[i] as int).len() && self.subtree(cs[i] as int)[j] == x;
            assert(self.subtrees(cs, p)[left.len() + j] == x);
        }
    }

    /// What a member `q` of the subtree of live `p` is: a live process at or
    /// after `p` with `p` among its ancestors, whose parent (when `q` is not
    /// `p`) is in the subtree too.
    pub proof fn lemma_subtree_member(&self, p: int, q: usize)
        requires
            self.wf(),
            self.is_live(p),
            self.subtree(p).contains(q),
        ensures
            self.is_live(q as int),
            p <= q,
            self.is_ancestor(p, q as int),
            q != p ==> q != ROOT && self.subtree(p).contains(self.parent(q as int) as usize),
        decreases self.allocated() - p,
    {
        if q != p {
            let rest = self.subtrees(self.kids(p), p);
            assert(rest.contains(q)) by {
                let j = choose|j: int| 0 <= j < self.subtree(p).len() && self.subtree(p)[j] == q as usize;
                assert(rest[j - 1] == q);
            }
            self.lemma_subtrees_member(self.kids(p), p, q);
            let i = choose|i: int|
                0 <= i < self.kids(p).len() && p < self.kids(p)[i] < self.allocated()
                    && #[trigger] self.subtree(self.kids(p)[i] as int).contains(q);
            let c = self.kids(p)[i] as int;
            self.lemma_subtree_member(c, q);
            self.lemma_ancestor_step(c, p, q as int);
            if q as int == c {
                assert(self.subtree(p)[0] == p);
            } else {
                let pq = self.parent(q as int) as usize;
                self.lemma_subtrees_holds(self.kids(p), p, i, pq);
                let j = choose|j: int| 0 <= j < rest.len() && rest[j] == pq;
                assert(self.subtree(p)[j + 1] == pq);
            }
        }
    }

    proof fn lemma_subtrees_distinct(&self, p: int, k: int)
        requires
            self.wf(),
            self.is_live(p),
            0 <= k <= self.kids(p).len(),
        ensures
            self.subtrees(self.kids(p).take(k), p).no_duplicates(),
        decreases self.allocated() - p, k,
    {
        let cs = self.kids(p).take(k);
        if k > 0 {
            assert(cs.drop_last() =~= self.kids(p).take(k - 1));
            self.lemma_subtrees_distinct(p, k - 1);
            let c = cs.last() as int;
            assert(c == self.kids(p)[k - 1]);
            let left = self.subtrees(cs.drop_last(), p);
            let right = self.subtree(c);
            self.lemma_subtree_distinct(c);
            assert forall|a: int, b: int| 0 <= a < left.len() && 0 <= b < right.len() implies left[a]
                != right[b] by {
                let x = left[a];
                if x == right[b] {
                    assert(left.contains(x));
                    self.lemma_subtrees_member(cs.drop_last(), p, x);
                    let i = choose|i: int|
                        0 <= i < cs.drop_last().len() && p < cs.drop_last()[i] < self.allocated()
                            && #[trigger] self.subtree(cs.drop_last()[i] as int).contains(x);
                    let c1 = cs.drop_last()[i] as int;
                    assert(c1 == self.kids(p)[i]);
                    self.lemma_subtree_member(c1, x);
                    assert(right.contains(x));
                    self.lemma_subtree_member(c, x);
                    assert(self.kids(p).no_duplicates());
                    self.lemma_siblings_apart(c1, c, x as int);
                }
            }
            vstd::seq_lib::lemma_no_dup_in_concat(left, right);
        } else {
            assert(self.subtrees(cs, p) =~= Seq::<usize>::empty());
        }
    }

    /// The subtree of a live process lists each member once.
    pub proof fn lemma_subtree_distinct(&self, p: int)
        requires
            self.wf(),
            self.is_live(p),
        ensures
            self.subtree(p).no_duplicates(),
        decreases self.allocated() - p, self.kids(p).len() + 1,
    {
        let rest = self.subtrees(self.kids(p), p);
        assert(self.kids(p).take(self.kids(p).len() as int) =~= self.kids(p));
        self.lemma_subtrees_distinct(p, self.kids(p).len() as int);
        assert forall|j: int| 0 <= j < rest.len() implies rest[j] != p by {
            let x = rest[j];
            assert(rest.contains(x));
            self.lemma_subtrees_member(self.kids(p), p, x);
            let i = choose|i: int|
                0 <= i < self.kids(p).len() && p < self.kids(p)[i] < self.allocated()
                    && #[trigger] self.subtree(self.kids(p)[i] as int).contains(x);
            self.lemma_subtree_member(self.kids(p)[i] as int, x);
        }
        vstd::seq_lib::lemma_no_dup_in_concat(seq![p as usize], rest);
    }

    fn collect_subtree(&self, p: ProcessId, out: &mut Vec<ProcessId>)
        requires
            self.wf(),
            self.is_live(p as int),
        ensures
            final(out)@ == old(out)@ + self.subtree(p as int),
        decreases self.allocated() - p,
    {
        out.push(p);
        let kids = &self.children[p];
        let ghost start = old(out)@;
        let mut i: usize = 0;
        while i < kids.len()
            invariant
                self.wf(),
                self.is_live(p as int),
                kids@ == self.kids(p as int),
                i <= kids.len(),
                out@ == start + seq![p] + self.subtrees(kids@.take(i as int), p as int),
            decreases kids.len() - i,
        {
            let c = kids[i];
            assert(self.is_live(self.kids(p as int)[i as int] as int));
            self.collect_subtree(c, out);
            assert(kids@.take(i + 1).drop_last() =~= kids@.take(i as int));
            i += 1;
        }
        assert(kids@.take(kids.len() as int) =~= kids@);
        assert(start + seq![p] + self.subtrees(kids@, p as int) =~= start + self.subtree(p as int));
    }

    /// The subtree of live process `p` in pre-order: `p` first, then the
    /// subtree of each child in child order.
    pub fn descendants(&self, p: ProcessId) -> (r: Vec<ProcessId>)
        requires
            self.wf(),
            self.is_live(p as int),
        ensures
            r@ == self.subtree(p as int),
            r@[0] == p,
            r@.no_duplicates(),
            forall|q: ProcessId| #[trigger] r@.contains(q) ==> self.is_live(q as int) && p <= q,
    {
        proof {
            self.lemma_subtree_distinct(p as int);
            assert forall|q: ProcessId| #[trigger] self.subtree(p as int).contains(q) implies self.is_live(q as int) && p <= q by {
                self.lemma_subtree_member(p as int, q);
            }
        }
        let mut r: Vec<ProcessId> = Vec::new();
        self.collect_subtree(p, &mut r);
        assert(r@ =~= self.subtree(p as int));
        r
    }

    /// `self` and `after` hold the same identifiers and allocator.
    closed spec fn same_frame(&self, after: &Self) -> bool {
        &&& after.parents@.len() == self.parents@.len()
        &&& after.children@.len() == self.children@.len()
        &&& after.live@.len() == self.live@.len()
        &&& after.names == self.names
    }

    /// `after` is `self` once live process `p` has exited and its direct
    /// children have been attached, in order, at the end of its parent's
    /// children.
    pub open spec fn local_exit_result(&self, after: &Self, p: int) -> bool {
        let gp = self.parent(p);
        &&& after.allocated() == self.allocated()
        &&& forall|q: int| #[trigger] after.is_live(q) == (self.is_live(q) && q != p)
        &&& after.kids(gp) == without(self.kids(gp), p as usize) + self.kids(p)
        &&& after.kids(p) == Seq::<ProcessId>::empty()
        &&& forall|q: int|
            0 <= q < self.allocated() && q != p && q != gp ==> #[trigger] after.kids(q)
                == self.kids(q)
        &&& forall|q: int|
            0 <= q < self.allocated() && q != p ==> #[trigger] after.parent(q) == if self.kids(
                p,
            ).contains(q as usize) {
                gp
            } else {
                self.parent(q)
            }
    }

    /// `after` is `self` once live process `p` has exited and every other
    /// member of its subtree, in pre-order, has been attached at the end of
    /// the root's children with no children of its own.
    pub open spec fn root_exit_result(&self, after: &Self, p: int) -> bool {
        let gp = self.parent(p);
        let moved = self.subtree(p).drop_first();
        &&& after.allocated() == self.allocated()
        &&& forall|q: int| #[trigger] after.is_live(q) == (self.is_live(q) && q != p)
        &&& after.kids(ROOT as int) == without(self.kids(ROOT as int), p as usize) + moved
        &&& gp != ROOT ==> after.kids(gp) == without(self.kids(gp), p as usize)
        &&& forall|q: int|
            0 <= q < self.allocated() && self.subtree(p).contains(q as usize) ==> #[trigger] after.kids(q)
                == Seq::<ProcessId>::empty()
        &&& forall|q: int|
            0 <= q < self.allocated() && q != ROOT && q != gp && !self.subtree(p).contains(
                q as usize,
            ) ==> #[trigger] after.kids(q) == self.kids(q)
        &&& forall|q: int|
            0 <= q < self.allocated() && q != p ==> #[trigger] after.parent(q) == if moved.contains(
                q as usize,
            ) {
                ROOT as int
            } else {
                self.parent(q)
            }
    }

    proof fn lemma_child_facts(&self, r: int, i: int)
        requires
            self.wf(),
            self.is_live(r),
            0 <= i < self.kids(r).len(),
        ensures
            self.is_live(self.kids(r)[i] as int),
            self.kids(r)[i] != ROOT,
            self.parent(self.kids(r)[i] as int) == r,
            r < self.kids(r)[i],
    {
        assert(self.is_live(self.kids(r)[i] as int));
    }

    proof fn lemma_contains_child(&self, r: int, c: usize)
        requires
            self.wf(),
            self.is_live(r),
            self.kids(r).contains(c),
        ensures
            self.is_live(c as int),
            c != ROOT,
            self.parent(c as int) == r,
            r < c,
    {
        let i = choose|i: int| 0 <= i < self.kids(r).len() && self.kids(r)[i] == c;
        self.lemma_child_facts(r, i);
    }

    proof fn lemma_local_exit_wf(&self, after: &Self, p: int)
        requires
            self.wf(),
            self.is_live(p),
            p != ROOT,
            self.same_frame(after),
            self.local_exit_result(after, p),
        ensures
            after.wf(),
    {
        let gp = self.parent(p);
        let w = without(self.kids(gp), p as usize);
        let o = self.kids(p);
        lemma_without(self.kids(gp), p as usize);
        assert(self.is_live(gp) && gp < p);
        assert(after.is_live(ROOT as int));
        assert forall|q: int| #[trigger] after.is_live(q) && q != ROOT implies {
            &&& 0 <= after.parent(q) < q
            &&& after.is_live(after.parent(q))
            &&& after.kids(after.parent(q)).contains(q as usize)
        } by {
            assert(self.is_live(q));
            if o.contains(q as usize) {
                self.lemma_contains_child(p, q as usize);
                let j = choose|j: int| 0 <= j < o.len() && o[j] == q as usize;
                assert(after.kids(gp)[w.len() + j] == q);
            } else {
                let r = self.parent(q);
                assert(self.kids(r).contains(q as usize));
                if r == gp {
                    assert(w.contains(q as usize));
                    let j = choose|j: int| 0 <= j < w.len() && w[j] == q as usize;
                    assert(after.kids(gp)[j] == q);
                }
            }
        }
        assert forall|r: int, i: int| after.is_live(r) && 0 <= i < after.kids(r).len() implies {
            &&& after.is_live(#[trigger] after.kids(r)[i] as int)
            &&& after.kids(r)[i] != ROOT
            &&& after.parent(after.kids(r)[i] as int) == r
        } by {
            let c = after.kids(r)[i];
            if r == gp {
                if i < w.len() {
                    assert(w.contains(c));
                    self.lemma_contains_child(gp, c);
                    if o.contains(c) {
                        self.lemma_contains_child(p, c);
                    }
                } else {
                    assert(o[i - w.len()] == c);
                    self.lemma_child_facts(p, i - w.len());
                }
            } else {
                assert(self.kids(r)[i] == c);
                self.lemma_child_facts(r, i);
                if o.contains(c) {
                    self.lemma_contains_child(p, c);
                }
            }
        }
        assert forall|q: int| 0 <= q < after.allocated() implies {
            &&& #[trigger] after.kids(q).no_duplicates()
            &&& !after.is_live(q) ==> after.kids(q).len() == 0
        } by {
            if q == gp {
                assert(self.kids(gp).no_duplicates());
                assert(o.no_duplicates());
                assert forall|a: int, b: int| 0 <= a < w.len() && 0 <= b < o.len() implies w[a]
                    != o[b] by {
                    assert(w.contains(w[a]));
                    self.lemma_contains_child(gp, w[a]);
                    self.lemma_child_facts(p, b);
                }
                vstd::seq_lib::lemma_no_dup_in_concat(w, o);
            } else if q != p {
                assert(self.kids(q).no_duplicates());
            }
        }
    }

    proof fn lemma_child_in_subtree(&self, r: int, i: int)
        requires
            self.wf(),
            self.is_live(r),
            0 <= i < self.kids(r).len(),
        ensures
            self.subtree(r).contains(self.kids(r)[i]),
    {
        let c = self.kids(r)[i];
        self.lemma_child_facts(r, i);
        assert(self.subtree(c as int)[0] == c);
        self.lemma_subtrees_holds(self.kids(r), r, i, c);
        let j = choose|j: int|
            0 <= j < self.subtrees(self.kids(r), r).len() && self.subtrees(self.kids(r), r)[j] == c;
        assert(self.subtree(r)[j + 1] == c);
    }

    proof fn lemma_subtree_within(&self, p: int, r: usize, x: usize)
        requires
            self.wf(),
            self.is_live(p),
            self.subtree(p).contains(r),
            self.subtree(r as int).contains(x),
        ensures
            self.subtree(p).contains(x),
        decreases self.allocated() - p,
    {
        if r != p {
            let rest = self.subtrees(self.kids(p), p);
            assert(rest.contains(r)) by {
                let j = choose|j: int| 0 <= j < self.subtree(p).len() && self.subtree(p)[j] == r;
                assert(rest[j - 1] == r);
            }
            self.lemma_subtrees_member(self.kids(p), p, r);
            let i = choose|i: int|
                0 <= i < self.kids(p).len() && p < self.kids(p)[i] < self.allocated()
                    && #[trigger] self.subtree(self.kids(p)[i] as int).contains(r);
            let c = self.kids(p)[i] as int;
            self.lemma_child_facts(p, i);
            self.lemma_subtree_within(c, r, x);
            self.lemma_subtrees_holds(self.kids(p), p, i, x);
            let j = choose|j: int| 0 <= j < rest.len() && rest[j] == x;
            assert(self.subtree(p)[j + 1] == x);
        }
    }

    proof fn lemma_root_exit_wf(&self, after: &Self, p: int)
        requires
            self.wf(),
            self.is_live(p),
            p != ROOT,
            self.same_frame(after),
            self.root_exit_result(after, p),
        ensures
            after.wf(),
    {
        let gp = self.parent(p);
        let st = self.subtree(p);
        let moved = st.drop_first();
        let w = without(self.kids(ROOT as int), p as usize);
        lemma_without(self.kids(ROOT as int), p as usize);
        lemma_without(self.kids(gp), p as usize);
        self.lemma_subtree_distinct(p);
        assert(st[0] == p);
        assert(self.is_live(gp) && gp < p);
        assert forall|q: usize| #[trigger] moved.contains(q) implies st.contains(q) && q != p && self.is_live(q as int)
            && q != ROOT && st.contains(self.parent(q as int) as usize) && p < q by {
            let j = choose|j: int| 0 <= j < moved.len() && moved[j] == q as usize;
            assert(st[j + 1] == q);
            assert(st[0] != st[j + 1]);
            self.lemma_subtree_member(p, q);
        }
        assert forall|q: usize| st.contains(q) && q != p implies #[trigger] moved.contains(q) by {
            let j = choose|j: int| 0 <= j < st.len() && st[j] == q as usize;
            assert(moved[j - 1] == q);
        }
        assert forall|q: usize| #[trigger] st.contains(q) implies self.is_live(q as int) && p <= q by {
            self.lemma_subtree_member(p, q);
        }
        assert(after.is_live(ROOT as int));
        assert forall|q: int| #[trigger] after.is_live(q) && q != ROOT implies {
            &&& 0 <= after.parent(q) < q
            &&& after.is_live(after.parent(q))
            &&& after.kids(after.parent(q)).contains(q as usize)
        } by {
            assert(self.is_live(q));
            if moved.contains(q as usize) {
                let j = choose|j: int| 0 <= j < moved.len() && moved[j] == q as usize;
                assert(after.kids(ROOT as int)[w.len() + j] == q);
            } else {
                let r = self.parent(q);
                assert(self.kids(r).contains(q as usize));
                assert(!st.contains(q as usize));
                if st.contains(r as usize) {
                    let i = choose|i: int| 0 <= i < self.kids(r).len() && self.kids(r)[i] == q as usize;
                    self.lemma_child_in_subtree(r, i);
                    self.lemma_subtree_within(p, r as usize, q as usize);
                }
                assert(r != p);
                if r == ROOT {
                    assert(w.contains(q as usize));
                    let j = choose|j: int| 0 <= j < w.len() && w[j] == q as usize;
                    assert(after.kids(ROOT as int)[j] == q);
                } else if r == gp {
                    assert(without(self.kids(gp), p as usize).contains(q as usize));
                }
            }
        }
        assert forall|r: int, i: int| after.is_live(r) && 0 <= i < after.kids(r).len() implies {
            &&& after.is_live(#[trigger] after.kids(r)[i] as int)
            &&& after.kids(r)[i] != ROOT
            &&& after.parent(after.kids(r)[i] as int) == r
        } by {
            let c = after.kids(r)[i];
            if r == ROOT {
                if i < w.len() {
                    assert(w.contains(c));
                    self.lemma_contains_child(ROOT as int, c);
                    assert(!moved.contains(c));
                } else {
                    assert(moved[i - w.len()] == c);
                    assert(moved.contains(c));
                }
            } else if st.contains(r as usize) {
                assert(false);
            } else if r == gp {
                assert(without(self.kids(gp), p as usize).contains(c));
                self.lemma_contains_child(gp, c);
                assert(!moved.contains(c));
            } else {
                assert(self.kids(r)[i] == c);
                self.lemma_child_facts(r, i);
                assert(c != p);
                assert(!moved.contains(c));
            }
        }
        assert forall|q: int| 0 <= q < after.allocated() implies {
            &&& #[trigger] after.kids(q).no_duplicates()
            &&& !after.is_live(q) ==> after.kids(q).len() == 0
        } by {
            if q == ROOT {
                assert(self.kids(ROOT as int).no_duplicates());
                assert(moved.no_duplicates());
                assert forall|a: int, b: int| 0 <= a < w.len() && 0 <= b < moved.len() implies w[a]
                    != moved[b] by {
                    assert(w.contains(w[a]));
                    self.lemma_contains_child(ROOT as int, w[a]);
                    assert(moved.contains(moved[b]));
                }
                vstd::seq_lib::lemma_no_dup_in_concat(w, moved);
            } else if st.contains(q as usize) {
            } else if q == gp {
                assert(self.kids(gp).no_duplicates());
            } else {
                assert(self.kids(q).no_duplicates());
            }
        }
    }

    /// Ends live non-root process `p`, reattaching its children by `policy`.
    /// The root cannot exit; a process that is not live cannot either.
    pub fn exit(&mut self, p: ProcessId, policy: Reparent) -> (r: Result<(), ActionError>)
        requires
            old(self).wf(),
        ensures
            final(self).wf(),
            p == ROOT ==> r == Err::<(), ActionError>(ActionError::CannotExitRoot) && *final(self)
                == *old(self),
            p != ROOT && !old(self).is_live(p as int) ==> r == Err::<(), ActionError>(
                ActionError::UnknownProcess,
            ) && *final(self) == *old(self),
            p != ROOT && old(self).is_live(p as int) ==> {
                &&& r == Ok::<(), ActionError>(())
                &&& policy == Reparent::Local ==> old(self).local_exit_result(final(self), p as int)
                &&& policy == Reparent::Root ==> old(self).root_exit_result(final(self), p as int)
                &&& policy == Reparent::Root ==> old(self).subtree(p as int).no_duplicates()
            },
    {
        if p == ROOT {
            return Err(ActionError::CannotExitRoot);
        }
        if !self.is_alive(p) {
            return Err(ActionError::UnknownProcess);
        }
        proof {
            self.lemma_subtree_distinct(p as int);
        }
        match policy {
            Reparent::Local => self.exit_local(p),
            Reparent::Root => self.exit_to_root(p),
        }
        Ok(())
    }

    fn exit_local(&mut self, p: ProcessId)
        requires
            old(self).wf(),
            old(self).is_live(p as int),
            p != ROOT,
        ensures
            final(self).wf(),
            old(self).local_exit_result(final(self), p as int),
    {
        let ghost t = *self;
        let gp = self.parents[p];
        proof {
            assert(t.is_live(gp as int) && gp < p);
        }
        let mut orphans: Vec<ProcessId> = Vec::new();
        self.children.set_and_swap(p, &mut orphans);
        proof {
            assert(self.kids(p as int) =~= Seq::<ProcessId>::empty());
        }
        let mut siblings = without_vec(&self.children[gp], p);
        let mut i: usize = 0;
        while i < orphans.len()
            invariant
                t.wf(),
                t.is_live(p as int),
                gp == t.parent(p as int),
                t.same_frame(self),
                self.live@ == t.live@,
                orphans@ == t.kids(p as int),
                i <= orphans.len(),
                siblings@ == without(t.kids(gp as int), p) + orphans@.take(i as int),
                forall|q: int|
                    0 <= q < t.allocated() ==> #[trigger] self.children@[q]@ == if q == p {
                        Seq::<ProcessId>::empty()
                    } else {
                        t.kids(q)
                    },
                forall|q: int|
                    0 <= q < t.allocated() ==> #[trigger] self.parents@[q] == if orphans@.take(
                        i as int,
                    ).contains(q as usize) {
                        gp
                    } else {
                        t.parents@[q]
                    },
            decreases orphans.len() - i,
        {
            let c = orphans[i];
            proof {
                t.lemma_child_facts(p as int, i as int);
            }
            siblings.push(c);
            self.parents.set(c, gp);
            proof {
                let ghost next = orphans@.take(i + 1);
                let ghost prev = orphans@.take(i as int);
                assert(next[i as int] == c);
                assert(next =~= prev.push(c));
                assert forall|q: int| 0 <= q < t.allocated() implies #[trigger] self.parents@[q]
                    == if next.contains(q as usize) {
                    gp
                } else {
                    t.parents@[q]
                } by {
                    if q != c && next.contains(q as usize) {
                        let j = choose|j: int|
                            0 <= j < next.len() && next[j] == q as usize;
                        assert(prev[j] == q);
                    }
                    if prev.contains(q as usize) {
                        let j = choose|j: int|
                            0 <= j < prev.len() && prev[j] == q as usize;
                        assert(next[j] == q);
                    }
                }
            }
            i += 1;
        }
        self.children.set(gp, siblings);
        self.live.set(p, false);
        proof {
            assert(orphans@.take(orphans@.len() as int) =~= orphans@);
            assert(self.kids(p as int) =~= Seq::<ProcessId>::empty());
            t.lemma_local_exit_wf(self, p as int);
        }
    }

    fn exit_to_root(&mut self, p: ProcessId)
        requires
            old(self).wf(),
            old(self).is_live(p as int),
            p != ROOT,
        ensures
            final(self).wf(),
            old(self).root_exit_result(final(self), p as int),
    {
        let ghost t = *self;
        let gp = self.parents[p];
        let desc = self.descendants(p);
        proof {
            assert(t.is_live(gp as int) && gp < p);
            lemma_without(t.kids(ROOT as int), p);
            if t.kids(ROOT as int).contains(p) {
                t.lemma_contains_child(ROOT as int, p);
            }
            t.lemma_subtree_distinct(p as int);
            assert(desc@[0] == p);
            assert forall|q: usize| #[trigger] desc@.contains(q) implies t.is_live(q as int) && p <= q by {
                t.lemma_subtree_member(p as int, q);
            }
        }
        let siblings = without_vec(&self.children[gp], p);
        self.children.set(gp, siblings);
        let mut root_kids: Vec<ProcessId> = Vec::new();
        self.children.set_and_swap(ROOT, &mut root_kids);
        self.children.set(p, Vec::new());
        let ghost base = root_kids@;
        proof {
            assert(base == without(t.kids(ROOT as int), p));
            assert(desc@.take(1) =~= seq![p]);
            assert(desc@.subrange(1, 1) =~= Seq::<ProcessId>::empty());
            assert(self.children@[p as int]@ =~= Seq::<ProcessId>::empty());
            assert(self.children@[ROOT as int]@ =~= Seq::<ProcessId>::empty());
            assert(root_kids@ =~= base + desc@.subrange(1, 1));
        }
        let mut i: usize = 1;
        while i < desc.len()
            invariant
                t.wf(),
                t.is_live(p as int),
                gp == t.parent(p as int),
                t.same_frame(self),
                self.live@ == t.live@,
                desc@ == t.subtree(p as int),
                desc@.no_duplicates(),
                desc@[0] == p,
                forall|q: usize| #[trigger] desc@.contains(q) ==> t.is_live(q as int) && p <= q,
                1 <= i <= desc.len(),
                base == without(t.kids(ROOT as int), p),
                root_kids@ == base + desc@.subrange(1, i as int),
                forall|q: int|
                    0 <= q < t.allocated() ==> #[trigger] self.children@[q]@ == if q == ROOT || desc@.take(
                        i as int,
                    ).contains(q as usize) {
                        Seq::<ProcessId>::empty()
                    } else if q == gp {
                        without(t.kids(gp as int), p)
                    } else {
                        t.kids(q)
                    },
                forall|q: int|
                    0 <= q < t.allocated() ==> #[trigger] self.parents@[q] == if desc@.subrange(
                        1,
                        i as int,
                    ).contains(q as usize) {
                        ROOT
                    } else {
                        t.parents@[q]
                    },
            decreases desc.len() - i,
        {
            let d = desc[i];
            proof {
                assert(desc@.contains(d));
            }
            root_kids.push(d);
            self.children.set(d, Vec::new());
            self.parents.set(d, ROOT);
            proof {
                let ghost snext = desc@.subrange(1, i + 1);
                let ghost sprev = desc@.subrange(1, i as int);
                let ghost tnext = desc@.take(i + 1);
                let ghost tprev = desc@.take(i as int);
                assert(snext[i - 1] == d);
                assert(tnext[i as int] == d);
                assert(snext =~= sprev.push(d));
                assert(tnext =~= tprev.push(d));
                assert forall|q: int| 0 <= q < t.allocated() implies #[trigger] self.children@[q]@ == if q
                    == ROOT || tnext.contains(q as usize) {
                    Seq::<ProcessId>::empty()
                } else if q == gp {
                    without(t.kids(gp as int), p)
                } else {
                    t.kids(q)
                } by {
                    if q != d && tnext.contains(q as usize) {
                        let j = choose|j: int|
                            0 <= j < tnext.len() && tnext[j] == q as usize;
                        assert(tprev[j] == q);
                    }
                    if tprev.contains(q as usize) {
                        let j = choose|j: int|
                            0 <= j < tprev.len() && tprev[j] == q as usize;
                        assert(tnext[j] == q);
                    }
                    if q == d {
                        assert(self.children@[q]@ =~= Seq::<ProcessId>::empty());
                    }
                }
                assert forall|q: int| 0 <= q < t.allocated() implies #[trigger] self.parents@[q]
                    == if snext.contains(q as usize) {
                    ROOT
                } else {
                    t.parents@[q]
                } by {
                    if q != d && snext.contains(q as usize) {
                        let j = choose|j: int|
                            0 <= j < snext.len() && snext[j] == q as usize;
                        assert(sprev[j] == q);
                    }
                    if sprev.contains(q as usize) {
                        let j = choose|j: int|
                            0 <= j < sprev.len() && sprev[j] == q as usize;
                        assert(snext[j] == q);
                    }
                }
            }
            i += 1;
        }
        self.children.set(ROOT, root_kids);
        self.live.set(p, false);
        proof {
            assert(desc@.take(desc@.len() as int) =~= desc@);
            assert(desc@.subrange(1, desc@.len() as int) =~= t.subtree(p as int).drop_first());
            t.lemma_root_exit_wf(self, p as int);
        }
    }

    /// The root is live.
    pub proof fn lemma_root_live(&self)
        requires
            self.wf(),
        ensures
            self.is_live(ROOT as int),
    {
    }

    /// A child of a live process is a live, non-root process after it whose
    /// parent it is.
    pub proof fn lemma_kid(&self, r: int, i: int)
        requires
            self.wf(),
            self.is_live(r),
            0 <= i < self.kids(r).len(),
        ensures
            self.is_live(self.kids(r)[i] as int),
            self.kids(r)[i] != ROOT,
            self.parent(self.kids(r)[i] as int) == r,
            r < self.kids(r)[i],
            (self.kids(r)[i] as int) < self.allocated(),
    {
        self.lemma_child_facts(r, i);
    }

    /// A live process has an identifier already allocated.
    pub proof fn lemma_live_allocated(&self, p: int)
        ensures
            self.is_live(p) ==> 0 <= p < self.allocated(),
    {
    }
    /// In a well-formed tree the root is live; every other live process has
    /// a live parent listed among that parent's children, allocated before
    /// it; and the chain of parents from any live process reaches the root,
    /// so the live processes form one tree rooted there.
    pub proof fn lemma_tree_invariants(&self)
        requires
            self.wf(),
        ensures
            self.is_live(ROOT as int),
            forall|p: int|
                #![trigger self.is_live(p)]
                self.is_live(p) && p != ROOT ==> {
                    &&& 0 <= self.parent(p) < p
                    &&& self.is_live(self.parent(p))
                    &&& self.kids(self.parent(p)).contains(p as usize)
                },
            forall|p: int| #[trigger] self.is_live(p) ==> self.is_ancestor(ROOT as int, p),
    {
        assert forall|p: int| #[trigger] self.is_live(p) implies self.is_ancestor(ROOT as int, p) by {
            self.lemma_reaches_root(p);
        }
    }

    proof fn lemma_reaches_root(&self, p: int)
        requires
            self.wf(),
            self.is_live(p),
        ensures
            self.is_ancestor(ROOT as int, p),
        decreases p,
    {
        if p != ROOT {
            assert(self.is_live(p));
            self.lemma_reaches_root(self.parent(p));
        }
    }
}

} // verus!
