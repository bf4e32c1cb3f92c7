use vstd::prelude::*;

use crate::comm::micromouse_manager::{ManagerState, ManagerStep};
use crate::comm::micromouse_message::{CommandMessage, MicromouseResponse};

verus! {

/// `m` is one of the messages of `q`.
pub open spec fn appears_in(m: CommandMessage, q: Seq<CommandMessage>) -> bool {
    exists|j: int| 0 <= j < q.len() && q[j] == m
}

/// Every message of `new` is one of `old`, and `new` is at most one shorter.
pub open spec fn keeps_all_but_one(old: Seq<CommandMessage>, new: Seq<CommandMessage>) -> bool {
    &&& new.len() + 1 >= old.len()
    &&& forall|i: int| 0 <= i < new.len() ==> #[trigger] appears_in(new[i], old)
}

proof fn lemma_same_keeps(q: Seq<CommandMessage>)
    ensures
        keeps_all_but_one(q, q),
{
    assert forall|i: int| 0 <= i < q.len() implies #[trigger] appears_in(q[i], q) by {
        assert(q[i] == q[i]);
    }
}

proof fn lemma_remove_keeps(q: Seq<CommandMessage>, k: int)
    requires
        0 <= k < q.len(),
    ensures
        keeps_all_but_one(q, q.remove(k)),
{
    let r = q.remove(k);
    assert forall|i: int| 0 <= i < r.len() implies #[trigger] appears_in(r[i], q) by {
        if i < k {
            assert(r[i] == q[i]);
        } else {
            assert(r[i] == q[i + 1]);
        }
    }
}

/// A command leaves the queue of sent commands only when the mouse starts it: handling any
/// response other than a restart keeps every queued command but at most the one it starts,
/// and queues nothing new.
pub proof fn queue_loses_only_the_started_command<const N: usize>(
    old: ManagerState<N>,
    resp: MicromouseResponse,
    new: ManagerState<N>,
    out: ManagerStep,
)
    requires
        ManagerState::response_handled(old, resp, new, out),
        !(resp is Restart),
    ensures
        keeps_all_but_one(old.unconfirmed_cmd@, new.unconfirmed_cmd@),
{
    let q = old.unconfirmed_cmd@;
    match resp {
        MicromouseResponse::Measurement(mm) => {
            let (mid, r1) = choose|mid: ManagerState<N>, r1| #[trigger] ManagerState::command_started(old, mm.from_cmd, mid, r1) && {
                &&& mid.wf()
                &&& (r1 != Ok::<Result<(), crate::comm::micromouse_manager::MicromouseManagerError>, crate::comm::micromouse_manager::HaltReason>(Ok(())) ==> ManagerState::start_failed(r1, mid, new, out))
                &&& (r1 == Ok::<Result<(), crate::comm::micromouse_manager::MicromouseManagerError>, crate::comm::micromouse_manager::HaltReason>(Ok(())) ==> exists|r2| #[trigger] ManagerState::cmd_application_updated(mid, mm.interrupt.at_step, Some(mm), new, r2) && match r2 {
                    Ok(u) => ManagerState::<N>::reports(out, u.events_spec()),
                    Err(e) => ManagerState::<N>::fails(out, e),
                })
            };
            lemma_started_keeps(old, mm.from_cmd, mid, r1);
        },
        MicromouseResponse::CommandFinished(cf) => {
            let (mid, r1) = choose|mid: ManagerState<N>, r1| #[trigger] ManagerState::command_started(old, cf.cmd_id, mid, r1) && {
                &&& mid.wf()
                &&& (r1 != Ok::<Result<(), crate::comm::micromouse_manager::MicromouseManagerError>, crate::comm::micromouse_manager::HaltReason>(Ok(())) ==> ManagerState::start_failed(r1, mid, new, out))
                &&& (r1 == Ok::<Result<(), crate::comm::micromouse_manager::MicromouseManagerError>, crate::comm::micromouse_manager::HaltReason>(Ok(())) ==> match mid.current_command {
                    None => new == mid && ManagerState::<N>::fails(out, crate::comm::micromouse_manager::MicromouseManagerError::CmdNotKnown(cf.cmd_id)),
                    Some((a, fid)) => exists|mid2: ManagerState<N>, r2| #[trigger] ManagerState::cmd_application_updated(mid, ManagerState::<N>::finished_at_step(cf.reason, a), None, mid2, r2) && {
                        &&& new == (ManagerState { current_command: None, ..mid2 })
                        &&& match r2 {
                            Ok(u) => ManagerState::<N>::reports(out, seq![crate::comm::micromouse_manager::MicromouseEvent::FinishedCommand { cmd_id: fid, require_new: mid2.unconfirmed_cmd@.len() == 0 }] + u.events_spec()),
                            Err(e) => ManagerState::<N>::fails(out, e),
                        }
                    },
                })
            };
            lemma_started_keeps(old, cf.cmd_id, mid, r1);
        },
        _ => {
            lemma_same_keeps(q);
        },
    }
}

proof fn lemma_started_keeps<const N: usize>(
    old: ManagerState<N>,
    id: crate::comm::micromouse_message::CommandId,
    mid: ManagerState<N>,
    r1: Result<Result<(), crate::comm::micromouse_manager::MicromouseManagerError>, crate::comm::micromouse_manager::HaltReason>,
)
    requires
        ManagerState::command_started(old, id, mid, r1),
    ensures
        keeps_all_but_one(old.unconfirmed_cmd@, mid.unconfirmed_cmd@),
{
    let q = old.unconfirmed_cmd@;
    if old.current_command is None && crate::comm::micromouse_manager::has_id(q, id) {
        lemma_remove_keeps(q, crate::comm::micromouse_manager::id_index(q, id));
    } else {
        lemma_same_keeps(q);
    }
}

} // verus!
