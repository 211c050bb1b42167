//! One step of a run: an action, already parsed, applied to the tree under
//! the run's exit rules. A refused action leaves the tree as it was.

use vstd::prelude::*;
use crate::action::{Action, ActionModel};
use crate::names::{lemma_names_distinct, name_of, process_name, ProcessId, ROOT};
use crate::tree::{ActionError, ProcessTree, Reparent};

verus! {

/// The rules a run applies exits under.
#[derive(Clone, Copy, Debug, PartialEq, Eq, Structural)]
pub struct ExitRules {
    /// Refuse the exit of a process that has children.
    pub leaf_only: bool,
    /// Where the children of an exiting process go.
    pub policy: Reparent,
}

/// What an applied action did.
#[derive(Clone, Copy, Debug, PartialEq, Eq, Structural)]
pub enum Outcome {
    /// `parent` forked `child`.
    Forked { parent: ProcessId, child: ProcessId },
    /// `process` exited.
    Exited { process: ProcessId },
}

/// Some live process of `t` is named `name`.
pub open spec fn has_live_named(t: ProcessTree, name: Seq<char>) -> bool {
    exists|id: int| t.is_live(id) && id >= 0 && name_of(id as nat) == name
}

/// The live process of `t` named `name`, where there is one. Names are
/// distinct, so there is at most one.
pub open spec fn live_named(t: ProcessTree, name: Seq<char>) -> int
    recommends
        has_live_named(t, name),
{
    choose|id: int| t.is_live(id) && id >= 0 && name_of(id as nat) == name
}

/// Finds the live process named `name`.
pub fn find_process(t: &ProcessTree, name: &String) -> (r: Option<ProcessId>)
    requires
        t.wf(),
    ensures
        r is None <==> !has_live_named(*t, name@),
        r matches Some(id) ==> id == live_named(*t, name@),
{
    let n = t.allocated_count();
    let mut id: usize = 0;
    while id < n
        invariant
            t.wf(),
            n == t.allocated(),
            id <= n,
            forall|j: int| 0 <= j < id ==> !(t.is_live(j) && name_of(j as nat) == name@),
        decreases n - id,
    {
        if t.is_alive(id) && process_name(id) == *name {
            proof {
                let other = live_named(*t, name@);
                if other != id {
                    lemma_names_distinct(other as nat, id as nat);
                }
            }
            return Some(id);
        }
        id += 1;
    }
    proof {
        assert forall|j: int| !(t.is_live(j) && j >= 0 && name_of(j as nat) == name@) by {
            t.lemma_live_allocated(j);
        }
    }
    None
}

/// Applies `action` to `t`. A fork needs its parent live and hands the
/// child the next identifier (the child's name in the action is not
/// consulted). An exit is refused for the root, for a process that is not
/// live, and, under `leaf_only`, for a process with children; otherwise the
/// process exits under the rules' policy.
pub fn apply(t: &mut ProcessTree, action: &Action, rules: ExitRules) -> (r: Result<
    Outcome,
    ActionError,
>)
    requires
        old(t).wf(),
        old(t).allocated() < usize::MAX,
    ensures
        final(t).wf(),
        r is Err ==> *final(t) == *old(t),
        match action@ {
            ActionModel::Fork(x, _) => if !has_live_named(*old(t), x) {
                r == Err::<Outcome, ActionError>(ActionError::UnknownProcess)
            } else {
                let p = live_named(*old(t), x);
                &&& r == Ok::<Outcome, ActionError>(
                    Outcome::Forked { parent: p as usize, child: old(t).allocated() as usize },
                )
                &&& old(t).fork_result(final(t), p)
            },
            ActionModel::Exit(x) => if !has_live_named(*old(t), x) {
                r == Err::<Outcome, ActionError>(ActionError::UnknownProcess)
            } else {
                let p = live_named(*old(t), x);
                if p == ROOT {
                    r == Err::<Outcome, ActionError>(ActionError::CannotExitRoot)
                } else if rules.leaf_only && old(t).kids(p).len() > 0 {
                    r == Err::<Outcome, ActionError>(ActionError::RejectedLeafExit)
                } else {
                    &&& r == Ok::<Outcome, ActionError>(Outcome::Exited { process: p as usize })
                    &&& rules.policy == Reparent::Local ==> old(t).local_exit_result(final(t), p)
                    &&& rules.policy == Reparent::Root ==> old(t).root_exit_result(final(t), p)
                }
            },
        },
{
    match action {
        Action::Fork { parent, child: _ } => {
            match find_process(t, parent) {
                None => Err(ActionError::UnknownProcess),
                Some(p) => {
                    let c = t.fork(p);
                    match c {
                        Ok(c) => Ok(Outcome::Forked { parent: p, child: c }),
                        Err(e) => Err(e),
                    }
                },
            }
        },
        Action::Exit { process } => {
            match find_process(t, process) {
                None => Err(ActionError::UnknownProcess),
                Some(p) => {
                    if p == ROOT {
                        return Err(ActionError::CannotExitRoot);
                    }
                    if rules.leaf_only && t.children_of(p).len() > 0 {
                        return Err(ActionError::RejectedLeafExit);
                    }
                    match t.exit(p, rules.policy) {
                        Ok(()) => Ok(Outcome::Exited { process: p }),
                        Err(e) => Err(e),
                    }
                },
            }
        },
    }
}

} // verus!
