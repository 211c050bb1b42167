//! Random action logs.
//!
//! The generator keeps its own list of the processes it considers active and
//! its own name allocator. Each draw either forks a new process from an
//! active one or exits an active one; a draw that would exit the root is
//! discarded and emits nothing.

use vstd::prelude::*;
use crate::action::{Action, ActionModel};
use crate::names::{lemma_names_distinct, name_of, process_name, NameAllocator, ProcessId, ROOT};
use crate::seed::random_below;

verus! {

/// Fork chances are given in parts of this many.
pub const CHANCE_SCALE: u32 = 1000000;

pub struct ActionGenerator {
    /// Chance, in parts of `CHANCE_SCALE`, that a draw forks.
    fork_chance: u32,
    /// The processes that generated actions have left active, root first.
    active: Vec<ProcessId>,
    /// Names the children of generated forks.
    names: NameAllocator,
    /// The actions generated so far, in order.
    actions: Vec<Action>,
}

/// The action `parent` forks `child`.
pub open spec fn fork_of(parent: ProcessId, child: ProcessId) -> ActionModel {
    ActionModel::Fork(name_of(parent as nat), name_of(child as nat))
}

/// The action `p` exits.
pub open spec fn exit_of(p: ProcessId) -> ActionModel {
    ActionModel::Exit(name_of(p as nat))
}

impl ActionGenerator {
    /// The processes the generator considers active, root first.
    pub closed spec fn active_ids(&self) -> Seq<ProcessId> {
        self.active@
    }

    /// The identifier the next generated fork will name.
    pub closed spec fn next_child(&self) -> ProcessId {
        self.names.next
    }

    /// The fork chance, in parts of `CHANCE_SCALE`.
    pub closed spec fn chance(&self) -> u32 {
        self.fork_chance
    }

    /// The actions generated so far.
    pub closed spec fn emitted(&self) -> Seq<ActionModel> {
        self.actions@.map_values(|a: Action| a@)
    }

    pub closed spec fn wf(&self) -> bool {
        &&& self.fork_chance <= CHANCE_SCALE
        &&& self.active@.len() >= 1
        &&& self.active@[0] == ROOT
        &&& forall|i: int| 0 <= i < self.active@.len() ==> #[trigger] self.active@[i] < self.names.next
        &&& forall|i: int|
            0 <= i < self.actions@.len() ==> #[trigger] self.actions@[i]@ != exit_of(ROOT)
    }

    /// A generator that has emitted nothing, with only the root active.
    pub fn new(fork_chance: u32) -> (r: Self)
        requires
            fork_chance <= CHANCE_SCALE,
        ensures
            r.wf(),
            r.chance() == fork_chance,
            r.active_ids() == seq![ROOT],
            r.next_child() == ROOT + 1,
            r.emitted() == Seq::<ActionModel>::empty(),
    {
        let r = ActionGenerator {
            fork_chance,
            active: vec![ROOT],
            names: NameAllocator::new(),
            actions: Vec::new(),
        };
        assert(r.emitted() =~= Seq::<ActionModel>::empty());
        r
    }

    /// Number of actions generated so far.
    pub fn len(&self) -> (r: usize)
        ensures
            r == self.emitted().len(),
    {
        self.actions.len()
    }

    /// One draw, given its two random numbers: `fork_draw` decides between
    /// fork (below the chance) and exit, and `pick` chooses the active
    /// process. Returns the action emitted, or `None` for a discarded draw.
    pub fn step(&mut self, fork_draw: u32, pick: usize) -> (r: Option<Action>)
        requires
            old(self).wf(),
            pick < old(self).active_ids().len(),
            old(self).next_child() < usize::MAX,
        ensures
            final(self).wf(),
            final(self).chance() == old(self).chance(),
            ({
                let a = old(self).active_ids();
                let c = old(self).next_child();
                if fork_draw < old(self).chance() {
                    &&& r matches Some(act) && act@ == fork_of(a[pick as int], c)
                    &&& final(self).active_ids() == a.push(c)
                    &&& final(self).next_child() == c + 1
                    &&& final(self).emitted() == old(self).emitted().push(fork_of(a[pick as int], c))
                } else if a[pick as int] == ROOT {
                    &&& r is None
                    &&& *final(self) == *old(self)
                } else {
                    &&& r matches Some(act) && act@ == exit_of(a[pick as int])
                    &&& final(self).active_ids() == a.remove(pick as int)
                    &&& final(self).next_child() == c
                    &&& final(self).emitted() == old(self).emitted().push(exit_of(a[pick as int]))
                }
            }),
    {
        let p = self.active[pick];
        if fork_draw < self.fork_chance {
            let c = self.names.next_id();
            let act = Action::Fork { parent: process_name(p), child: process_name(c) };
            self.active.push(c);
            self.actions.push(act.duplicate());
            assert(self.emitted() =~= old(self).emitted().push(fork_of(p, c)));
            Some(act)
        } else if p == ROOT {
            None
        } else {
            let act = Action::Exit { process: process_name(p) };
            self.active.remove(pick);
            self.actions.push(act.duplicate());
            proof {
                lemma_names_distinct(p as nat, ROOT as nat);
            }
            assert(self.emitted() =~= old(self).emitted().push(exit_of(p)));
            Some(act)
        }
    }
    /// One random draw: a fork with the generator's chance, from or of an
    /// active process picked uniformly. Emits nothing when the draw would
    /// exit the root.
    pub fn draw(&mut self) -> (r: Option<Action>)
        requires
            old(self).wf(),
            old(self).next_child() < usize::MAX,
        ensures
            final(self).wf(),
            final(self).chance() == old(self).chance(),
            r is None ==> *final(self) == *old(self),
            old(self).chance() == CHANCE_SCALE ==> (r matches Some(act) && exists|i: int|
                0 <= i < old(self).active_ids().len() && act@ == fork_of(
                    old(self).active_ids()[i],
                    old(self).next_child(),
                )),
            r matches Some(act) ==> {
                &&& final(self).emitted() == old(self).emitted().push(act@)
                &&& act@ != exit_of(ROOT)
                &&& exists|i: int|
                    0 <= i < old(self).active_ids().len() && (act@ == fork_of(
                        old(self).active_ids()[i],
                        old(self).next_child(),
                    ) || act@ == exit_of(old(self).active_ids()[i]))
            },
    {
        let fork_draw = random_below(CHANCE_SCALE as usize) as u32;
        let pick = random_below(self.active.len());
        let r = self.step(fork_draw, pick);
        proof {
            if r is Some {
                assert(self.emitted().last() == r->Some_0@);
            }
        }
        r
    }

    /// The identifier the next generated fork will name.
    pub fn next_child_id(&self) -> (r: ProcessId)
        ensures
            r == self.next_child(),
    {
        self.names.next
    }

    /// The actions generated so far, in order.
    pub fn actions(&self) -> (r: &Vec<Action>)
        requires
            self.wf(),
        ensures
            r@.map_values(|a: Action| a@) == self.emitted(),
            forall|i: int| 0 <= i < r@.len() ==> #[trigger] r@[i]@ != exit_of(ROOT),
    {
        &self.actions
    }
}

/// No generated action is an exit of the root.
pub proof fn lemma_never_exits_root(g: &ActionGenerator)
    requires
        g.wf(),
    ensures
        forall|i: int| 0 <= i < g.emitted().len() ==> #[trigger] g.emitted()[i] != exit_of(ROOT),
{
    assert forall|i: int| 0 <= i < g.emitted().len() implies #[trigger] g.emitted()[i] != exit_of(
        ROOT,
    ) by {
        assert(g.emitted()[i] == g.actions@[i]@);
    }
}


} // verus!
