//! All-or-nothing status marking and the scheduler's state machine.

use vstd::prelude::*;
use crate::apply::ApplyPlan;
use crate::changelog::{table_kind, table_kind_of, ChangeEntry, SyncError, TableGroup};

verus! {

/// What a table-group's applier run did when it completed.
#[derive(Clone, Copy, Debug, PartialEq, Eq, Structural)]
pub struct ApplyCounts {
    pub applied: usize,
    pub skipped: usize,
}

impl<R, S> ApplyPlan<R, S> {
    /// The counts that carrying out this plan in full reports.
    pub fn counts(&self) -> (r: ApplyCounts)
        ensures
            r.applied == self.upserts@.len(),
            r.skipped == self.skipped@.len(),
    {
        ApplyCounts { applied: self.upserts.len(), skipped: self.skipped.len() }
    }
}

/// The change-log ids of a group's entries, in group order.
pub open spec fn member_ids(batch: Seq<ChangeEntry>, members: Seq<usize>) -> Seq<i32> {
    members.map_values(|m: usize| batch[m as int].id)
}

/// The entries to mark as synced once a group's applier run has ended: all
/// of them when the table is synchronised and the run completed without a
/// store-level error, none otherwise.
pub open spec fn ids_to_mark_spec(batch: Seq<ChangeEntry>, group: TableGroup, completed: bool) -> Seq<i32> {
    if completed && table_kind_of(group.table_name@).is_some() {
        member_ids(batch, group.members@)
    } else {
        seq![]
    }
}

/// All-or-nothing marking of one table-group. A store-level error anywhere
/// in the group leaves every entry of the group pending, to be fetched and
/// retried as a whole next cycle; so does a table that is not synchronised.
/// Records skipped for an unresolved reference do not fail the group.
pub fn ids_to_mark(batch: &Vec<ChangeEntry>, group: &TableGroup, outcome: &Result<ApplyCounts, SyncError>) -> (r: Vec<i32>)
    requires
        forall|a: int| 0 <= a < group.members@.len() ==> group.members@[a] < batch@.len(),
    ensures
        r@ == ids_to_mark_spec(batch@, *group, outcome.is_ok()),
        outcome.is_err() ==> r@.len() == 0,
{
    let mut r: Vec<i32> = Vec::new();
    if outcome.is_err() || table_kind(group.table_name.as_str()).is_none() {
        return r;
    }
    let mut t: usize = 0;
    while t < group.members.len()
        invariant
            t <= group.members@.len(),
            forall|a: int| 0 <= a < group.members@.len() ==> group.members@[a] < batch@.len(),
            r@.len() == t,
            forall|a: int| 0 <= a < t ==> r@[a] == batch@[group.members@[a] as int].id,
        decreases group.members@.len() - t,
    {
        r.push(batch[group.members[t]].id);
        t = t + 1;
    }
    assert(r@ =~= member_ids(batch@, group.members@));
    r
}

/// The scheduler's two states.
#[derive(Clone, Copy, Debug, PartialEq, Eq, Structural)]
pub enum SchedulerState {
    Idle,
    Running,
}

/// What the scheduler reacts to.
#[derive(Clone, Copy, Debug, PartialEq, Eq, Structural)]
pub enum SchedulerEvent {
    /// The fixed interval elapsed.
    TimerFired,
    /// A poll-group-apply-mark cycle ended, whatever its groups did.
    CycleFinished,
    /// The change log could not be read; the cycle is abandoned.
    SourceUnavailable,
}

pub open spec fn next_state_spec(s: SchedulerState, e: SchedulerEvent) -> SchedulerState {
    match (s, e) {
        (SchedulerState::Idle, SchedulerEvent::TimerFired) => SchedulerState::Running,
        (SchedulerState::Running, SchedulerEvent::CycleFinished) => SchedulerState::Idle,
        (SchedulerState::Running, SchedulerEvent::SourceUnavailable) => SchedulerState::Idle,
        _ => s,
    }
}

/// One transition. A timer tick while a cycle runs does not start another
/// one; every end of a cycle, failed or not, returns to idle. There is no
/// terminal state.
pub fn next_state(s: SchedulerState, e: SchedulerEvent) -> (r: SchedulerState)
    ensures
        r == next_state_spec(s, e),
{
    match (s, e) {
        (SchedulerState::Idle, SchedulerEvent::TimerFired) => SchedulerState::Running,
        (SchedulerState::Running, SchedulerEvent::CycleFinished) => SchedulerState::Idle,
        (SchedulerState::Running, SchedulerEvent::SourceUnavailable) => SchedulerState::Idle,
        _ => s,
    }
}

} // verus!
