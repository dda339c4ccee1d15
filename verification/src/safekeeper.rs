//! The safekeeper-side timeline map and its replica bookkeeping.
//!
//! A safekeeper tracks, per timeline, the state of every replica
//! streaming from it, combines their feedback, decides when a timeline
//! may be deactivated, and notifies WAL senders when the commit LSN
//! advances. The consensus state machine itself and the control-file
//! storage behind it are outside collaborators; this module holds the
//! decisions made over plain values.

use vstd::prelude::*;

use crate::error::RepoError;
use crate::lsn::Lsn;

verus! {

/// Hot-standby feedback combined from the replicas.
#[derive(Clone, Copy, Debug, PartialEq, Eq, Structural)]
pub struct HotStandbyFeedback {
    pub ts: u64,
    pub xmin: u64,
    pub catalog_xmin: u64,
}

/// Feedback a pageserver sends while consuming WAL.
#[derive(Clone, Copy, Debug, PartialEq, Eq, Structural)]
pub struct ZenithFeedback {
    /// Logical size of the timeline as the pageserver accounts it.
    pub current_timeline_size: u64,
    /// Last LSN the pageserver processed.
    pub ps_writelsn: u64,
    /// Last LSN the pageserver persisted locally.
    pub ps_flushlsn: u64,
    /// Last LSN synced to remote storage.
    pub ps_applylsn: u64,
    /// When the reply was sent, in microseconds since the epoch.
    pub ps_replytime_micros: u64,
}

/// Status of one replica: what it received, what is durable remotely,
/// and its feedback.
#[derive(Clone, Copy, Debug, PartialEq, Eq, Structural)]
pub struct ReplicaState {
    /// Last LSN the replica is known to have received.
    pub last_received_lsn: Lsn,
    /// Combined remote-consistent LSN of the pageservers.
    pub remote_consistent_lsn: Lsn,
    /// Combined hot-standby feedback.
    pub hs_feedback: HotStandbyFeedback,
    /// Feedback received from a pageserver, if any.
    pub zenith_feedback: Option<ZenithFeedback>,
}

impl ReplicaState {
    /// The neutral state feedback combination starts from.
    pub fn new() -> (r: ReplicaState)
        ensures
            r == replica_initial(),
    {
        ReplicaState {
            last_received_lsn: Lsn(u64::MAX),
            remote_consistent_lsn: Lsn(0),
            hs_feedback: HotStandbyFeedback { ts: 0, xmin: u64::MAX, catalog_xmin: u64::MAX },
            zenith_feedback: None,
        }
    }
}

impl Default for ReplicaState {
    /// The neutral state, as [`ReplicaState::new`].
    fn default() -> (r: ReplicaState)
        ensures
            r == replica_initial(),
    {
        ReplicaState::new()
    }
}

/// The neutral state feedback combination starts from.
pub open spec fn replica_initial() -> ReplicaState {
    ReplicaState {
        last_received_lsn: Lsn(u64::MAX),
        remote_consistent_lsn: Lsn(0),
        hs_feedback: HotStandbyFeedback { ts: 0, xmin: u64::MAX, catalog_xmin: u64::MAX },
        zenith_feedback: None,
    }
}

/// The larger of two values.
pub open spec fn max64(a: u64, b: u64) -> u64 {
    if a >= b {
        a
    } else {
        b
    }
}

/// The smaller of two values.
pub open spec fn min64(a: u64, b: u64) -> u64 {
    if a <= b {
        a
    } else {
        b
    }
}

/// Fold one replica's state into the combined state: widest hot-standby
/// feedback; and from a replica with pageserver feedback, the most
/// advanced feedback, its write position, and the largest
/// remote-consistent LSN.
pub open spec fn combine_one(acc: ReplicaState, st: ReplicaState) -> ReplicaState {
    let hs = HotStandbyFeedback {
        ts: max64(acc.hs_feedback.ts, st.hs_feedback.ts),
        xmin: min64(acc.hs_feedback.xmin, st.hs_feedback.xmin),
        catalog_xmin: min64(acc.hs_feedback.catalog_xmin, st.hs_feedback.catalog_xmin),
    };
    match st.zenith_feedback {
        None => ReplicaState { hs_feedback: hs, ..acc },
        Some(zf) => ReplicaState {
            hs_feedback: hs,
            zenith_feedback: (match acc.zenith_feedback {
                Some(af) => if af.ps_writelsn < zf.ps_writelsn {
                    Some(zf)
                } else {
                    Some(af)
                },
                None => Some(zf),
            }),
            last_received_lsn: Lsn(zf.ps_writelsn),
            remote_consistent_lsn: Lsn(max64(zf.ps_applylsn, acc.remote_consistent_lsn.0)),
            ..acc
        },
    }
}

/// The combined state of the first `n` replica slots, empty slots
/// skipped.
pub open spec fn combine_replicas(rs: Seq<Option<ReplicaState>>, n: int) -> ReplicaState
    decreases n,
{
    if n <= 0 {
        replica_initial()
    } else {
        let p = combine_replicas(rs, n - 1);
        match rs[n - 1] {
            Some(st) => combine_one(p, st),
            None => p,
        }
    }
}

/// Whether [`Timeline::check_deactivate`] suspends the timeline: it is
/// already inactive, or no compute is connected and either nothing was
/// ever published to the WAL senders or the pageserver whose status
/// sits in `replica_id` has received everything committed.
pub open spec fn should_deactivate(st: SharedState, replica_id: int) -> bool {
    ||| !st.active
    ||| (st.num_computes == 0 && (st.notified_commit_lsn.0 == 0 || {
        let rep = st.replicas@[replica_id]->Some_0;
        rep.last_received_lsn.0 != u64::MAX && rep.last_received_lsn.0 >= st.commit_lsn.0
    }))
}

/// A subscription of one timeline to one pageserver.
#[derive(Debug)]
pub struct SubscriptionStateKey {
    pub tenant_id: u128,
    pub timeline_id: u128,
    pub pageserver_connstr: String,
}

/// What the shared state asks the connection manager to do.
#[derive(Debug)]
pub enum CallmeAction {
    /// Start or refresh WAL streaming to this pageserver.
    Subscribe(SubscriptionStateKey),
    /// Stop WAL streaming to this pageserver.
    Unsubscribe(SubscriptionStateKey),
}

/// Identifier of one timeline of one tenant.
#[derive(Clone, Copy, Debug, PartialEq, Eq, Structural, Hash)]
pub struct ZTenantTimelineId {
    pub tenant_id: u128,
    pub timeline_id: u128,
}

/// Shared per-timeline safekeeper state: the in-memory positions of the
/// consensus state machine, the replica table, and the activation
/// bookkeeping.
#[derive(Debug)]
pub struct SharedState {
    /// Quorum commit LSN of the consensus state machine.
    pub commit_lsn: Lsn,
    /// Commit LSN the WAL senders were last told about.
    pub notified_commit_lsn: Lsn,
    /// WAL offloaded to remote storage.
    pub s3_wal_lsn: Lsn,
    /// Remote-consistent LSN recorded by the state machine.
    pub remote_consistent_lsn: Lsn,
    /// Horizon up to which every peer has the WAL.
    pub peer_horizon_lsn: Lsn,
    /// End of WAL durably flushed by the WAL storage.
    pub flush_lsn: Lsn,
    /// Term of the last log entry.
    pub epoch: u64,
    /// One slot per replica; freed slots are reused.
    pub replicas: Vec<Option<ReplicaState>>,
    /// Whether timeline activity is running.
    pub active: bool,
    /// Number of compute connections.
    pub num_computes: u32,
    /// The pageserver currently subscribed, if any.
    pub pageserver_connstr: Option<String>,
}

impl SharedState {
    /// Combined state of all live replicas.
    pub fn get_replicas_state(&self) -> (r: ReplicaState)
        ensures
            r == combine_replicas(self.replicas@, self.replicas@.len() as int),
    {
        let mut acc = ReplicaState::new();
        let mut i: usize = 0;
        while i < self.replicas.len()
            invariant
                i <= self.replicas@.len(),
                acc == combine_replicas(self.replicas@, i as int),
            decreases self.replicas@.len() - i,
        {
            match &self.replicas[i] {
                Some(st) => {
                    let hs = HotStandbyFeedback {
                        ts: if acc.hs_feedback.ts >= st.hs_feedback.ts {
                            acc.hs_feedback.ts
                        } else {
                            st.hs_feedback.ts
                        },
                        xmin: if acc.hs_feedback.xmin <= st.hs_feedback.xmin {
                            acc.hs_feedback.xmin
                        } else {
                            st.hs_feedback.xmin
                        },
                        catalog_xmin: if acc.hs_feedback.catalog_xmin <= st.hs_feedback.catalog_xmin {
                            acc.hs_feedback.catalog_xmin
                        } else {
                            st.hs_feedback.catalog_xmin
                        },
                    };
                    acc.hs_feedback = hs;
                    match &st.zenith_feedback {
                        Some(zf) => {
                            let replace = match &acc.zenith_feedback {
                                Some(af) => af.ps_writelsn < zf.ps_writelsn,
                                None => true,
                            };
                            if replace {
                                acc.zenith_feedback = Some(*zf);
                            }
                            acc.last_received_lsn = Lsn(zf.ps_writelsn);
                            acc.remote_consistent_lsn = Lsn(
                                if zf.ps_applylsn >= acc.remote_consistent_lsn.0 {
                                    zf.ps_applylsn
                                } else {
                                    acc.remote_consistent_lsn.0
                                },
                            );
                        },
                        None => {
                        },
                    }
                },
                None => {
                },
            }
            i = i + 1;
        }
        acc
    }

    /// Put a replica into the first free slot, extending the table when
    /// every slot is taken; its slot number comes back.
    pub fn add_replica(&mut self, state: ReplicaState) -> (r: usize)
        ensures
            r < final(self).replicas@.len(),
            final(self).replicas@[r as int] == Some(state),
            forall|j: int|
                0 <= j < r ==> #[trigger] final(self).replicas@[j] == old(self).replicas@[j]
                    && old(self).replicas@[j] is Some,
            r < old(self).replicas@.len() ==> final(self).replicas@ == old(
                self,
            ).replicas@.update(r as int, Some(state)) && old(self).replicas@[r as int] is None,
            r == old(self).replicas@.len() ==> final(self).replicas@ == old(self).replicas@.push(
                Some(state),
            ),
            *final(self) == (SharedState { replicas: final(self).replicas, ..*old(self) }),
    {
        let mut i: usize = 0;
        while i < self.replicas.len()
            invariant
                i <= self.replicas@.len(),
                *self == *old(self),
                forall|j: int| 0 <= j < i ==> (#[trigger] self.replicas@[j]) is Some,
            decreases self.replicas@.len() - i,
        {
            if self.replicas[i].is_none() {
                let _prev = self.replicas.remove(i);
                self.replicas.insert(i, Some(state));
                proof {
                    assert(self.replicas@ =~= old(self).replicas@.update(i as int, Some(state)));
                }
                return i;
            }
            i = i + 1;
        }
        self.replicas.push(Some(state));
        i
    }
}

/// One safekeeper timeline: its identifier and shared state.
#[derive(Debug)]
pub struct Timeline {
    pub zttid: ZTenantTimelineId,
    pub state: SharedState,
}

impl Timeline {
    /// A timeline over this shared state.
    pub fn new(zttid: ZTenantTimelineId, shared_state: SharedState) -> (r: Timeline)
        ensures
            r.zttid == zttid,
            r.state == shared_state,
    {
        Timeline { zttid, state: shared_state }
    }

    /// Whether timeline activity is running.
    pub fn is_active(&self) -> (r: bool)
        ensures
            r == self.state.active,
    {
        self.state.active
    }

    /// Subscribe the timeline to `pageserver_connstr`, unsubscribing any
    /// previous pageserver, and mark it active. The returned actions are
    /// for the caller's connection manager to perform.
    pub fn activate(&mut self, pageserver_connstr: Option<String>) -> (r: Vec<CallmeAction>)
        ensures
            final(self).state.active,
            (match pageserver_connstr {
                Some(ref c) => final(self).state.pageserver_connstr matches Some(n) && n@ == c@,
                None => final(self).state.pageserver_connstr is None,
            }),
            final(self).state == (SharedState {
                active: true,
                pageserver_connstr: final(self).state.pageserver_connstr,
                ..old(self).state
            }),
            final(self).zttid == old(self).zttid,
            r@.len() == (if old(self).state.pageserver_connstr is Some {
                1int
            } else {
                0
            }) + (if pageserver_connstr is Some {
                1int
            } else {
                0
            }),
            old(self).state.pageserver_connstr matches Some(o) ==> (r@[0] matches
                CallmeAction::Unsubscribe(k) && k.tenant_id == old(self).zttid.tenant_id
                && k.timeline_id == old(self).zttid.timeline_id && k.pageserver_connstr@ == o@),
            pageserver_connstr matches Some(c) ==> (r@.last() matches CallmeAction::Subscribe(k)
                && k.tenant_id == old(self).zttid.tenant_id && k.timeline_id == old(
                self,
            ).zttid.timeline_id && k.pageserver_connstr@ == c@),
    {
        let mut actions: Vec<CallmeAction> = Vec::new();
        match &self.state.pageserver_connstr {
            Some(old_c) => {
                actions.push(
                    CallmeAction::Unsubscribe(
                        SubscriptionStateKey {
                            tenant_id: self.zttid.tenant_id,
                            timeline_id: self.zttid.timeline_id,
                            pageserver_connstr: old_c.clone(),
                        },
                    ),
                );
            },
            None => {
            },
        }
        match &pageserver_connstr {
            Some(c) => {
                actions.push(
                    CallmeAction::Subscribe(
                        SubscriptionStateKey {
                            tenant_id: self.zttid.tenant_id,
                            timeline_id: self.zttid.timeline_id,
                            pageserver_connstr: c.clone(),
                        },
                    ),
                );
            },
            None => {
            },
        }
        self.state.pageserver_connstr = pageserver_connstr;
        self.state.active = true;
        actions
    }

    /// Unsubscribe the current pageserver, if the timeline was active,
    /// and mark it inactive.
    pub fn deactivate(&mut self) -> (r: Vec<CallmeAction>)
        ensures
            !final(self).state.active,
            final(self).state == (SharedState { active: false, ..old(self).state }),
            final(self).zttid == old(self).zttid,
            r@.len() == (if old(self).state.active && old(self).state.pageserver_connstr is Some {
                1int
            } else {
                0
            }),
            old(self).state.active ==> (old(self).state.pageserver_connstr matches Some(o) ==> (
            r@[0] matches CallmeAction::Unsubscribe(k) && k.tenant_id == old(self).zttid.tenant_id
                && k.timeline_id == old(self).zttid.timeline_id && k.pageserver_connstr@ == o@)),
    {
        let mut actions: Vec<CallmeAction> = Vec::new();
        if self.state.active {
            match &self.state.pageserver_connstr {
                Some(c) => {
                    actions.push(
                        CallmeAction::Unsubscribe(
                            SubscriptionStateKey {
                                tenant_id: self.zttid.tenant_id,
                                timeline_id: self.zttid.timeline_id,
                                pageserver_connstr: c.clone(),
                            },
                        ),
                    );
                },
                None => {
                },
            }
        }
        self.state.active = false;
        actions
    }

    /// Register a compute connection and (re)activate the timeline with
    /// the compute's pageserver.
    pub fn on_compute_connect(&mut self, pageserver_connstr: Option<String>) -> (r: Vec<
        CallmeAction,
    >)
        requires
            old(self).state.num_computes < u32::MAX,
        ensures
            final(self).state.active,
            (match pageserver_connstr {
                Some(ref c) => final(self).state.pageserver_connstr matches Some(n) && n@ == c@,
                None => final(self).state.pageserver_connstr is None,
            }),
            final(self).state == (SharedState {
                active: true,
                num_computes: (old(self).state.num_computes + 1) as u32,
                pageserver_connstr: final(self).state.pageserver_connstr,
                ..old(self).state
            }),
            final(self).zttid == old(self).zttid,
            r@.len() == (if old(self).state.pageserver_connstr is Some {
                1int
            } else {
                0
            }) + (if pageserver_connstr is Some {
                1int
            } else {
                0
            }),
    {
        self.state.num_computes = self.state.num_computes + 1;
        self.activate(pageserver_connstr)
    }

    /// De-register a compute connection; when it was the last one and no
    /// pageserver is subscribed, suspend the timeline.
    pub fn on_compute_disconnect(&mut self) -> (r: Vec<CallmeAction>)
        requires
            old(self).state.num_computes > 0,
        ensures
            final(self).zttid == old(self).zttid,
            (old(self).state.num_computes == 1 && old(self).state.pageserver_connstr is None)
                ==> !final(self).state.active && final(self).state == (SharedState {
                active: false,
                num_computes: 0,
                ..old(self).state
            }),
            !(old(self).state.num_computes == 1 && old(self).state.pageserver_connstr is None)
                ==> final(self).state == (SharedState {
                num_computes: (old(self).state.num_computes - 1) as u32,
                ..old(self).state
            }),
    {
        self.state.num_computes = self.state.num_computes - 1;
        if self.state.num_computes == 0 && self.state.pageserver_connstr.is_none() {
            self.deactivate()
        } else {
            Vec::new()
        }
    }

    /// Suspend the timeline when no compute is connected and the
    /// pageserver whose status sits in `replica_id` has caught up (or
    /// there is nothing to catch up to). The flag says whether the
    /// timeline is now inactive.
    pub fn check_deactivate(&mut self, replica_id: usize) -> (r: (bool, Vec<CallmeAction>))
        requires
            replica_id < old(self).state.replicas@.len(),
            old(self).state.replicas@[replica_id as int] is Some,
        ensures
            r.0 == should_deactivate(old(self).state, replica_id as int),
            !should_deactivate(old(self).state, replica_id as int) ==> *final(self) == *old(self)
                && r.1@.len() == 0,
            !old(self).state.active ==> *final(self) == *old(self) && r.1@.len() == 0,
            (old(self).state.active && should_deactivate(old(self).state, replica_id as int))
                ==> !final(self).state.active && final(self).state == (SharedState {
                active: false,
                ..old(self).state
            }) && final(self).zttid == old(self).zttid && r.1@.len() == (if old(
                self,
            ).state.pageserver_connstr is Some {
                1int
            } else {
                0
            }) && (old(self).state.pageserver_connstr matches Some(o) ==> (r.1@[0] matches
                CallmeAction::Unsubscribe(k) && k.tenant_id == old(self).zttid.tenant_id
                && k.timeline_id == old(self).zttid.timeline_id && k.pageserver_connstr@ == o@)),
    {
        if !self.state.active {
            return (true, Vec::new());
        }
        if self.state.num_computes == 0 {
            let replica_state = match &self.state.replicas[replica_id] {
                Some(st) => *st,
                None => {
                    return vstd::pervasive::unreached();
                },
            };
            let deactivate = self.state.notified_commit_lsn.0 == 0 || (
            replica_state.last_received_lsn.0 != u64::MAX && replica_state.last_received_lsn.0
                >= self.state.commit_lsn.0);
            if deactivate {
                let actions = self.deactivate();
                return (true, actions);
            }
        }
        (false, Vec::new())
    }

    /// One poll of the commit-LSN condition a WAL sender waits on: the
    /// position to stream up to once it lies strictly past `lsn`. The
    /// timed re-polling lives with the caller's runtime.
    pub fn wait_for_lsn(&self, lsn: Lsn) -> (r: Option<Lsn>)
        ensures
            (r is Some) <==> self.state.notified_commit_lsn.0 > lsn.0,
            r matches Some(l) ==> l == self.state.notified_commit_lsn,
    {
        if self.state.notified_commit_lsn.0 > lsn.0 {
            Some(self.state.notified_commit_lsn)
        } else {
            None
        }
    }

    /// Tell the WAL senders about a commit-LSN advance, if there is one
    /// to report. True means the caller must wake them.
    pub fn notify_wal_senders(&mut self) -> (r: bool)
        ensures
            r == (old(self).state.notified_commit_lsn.0 < old(self).state.commit_lsn.0),
            r ==> final(self).state == (SharedState {
                notified_commit_lsn: old(self).state.commit_lsn,
                ..old(self).state
            }),
            !r ==> *final(self) == *old(self),
    {
        if self.state.notified_commit_lsn.0 < self.state.commit_lsn.0 {
            self.state.notified_commit_lsn = self.state.commit_lsn;
            true
        } else {
            false
        }
    }

    /// Update a replica's slot.
    pub fn update_replica_state(&mut self, id: usize, state: ReplicaState)
        requires
            id < old(self).state.replicas@.len(),
        ensures
            final(self).state.replicas@ == old(self).state.replicas@.update(
                id as int,
                Some(state),
            ),
            final(self).state == (SharedState {
                replicas: final(self).state.replicas,
                ..old(self).state
            }),
            final(self).zttid == old(self).zttid,
    {
        let _prev = self.state.replicas.remove(id);
        self.state.replicas.insert(id, Some(state));
        proof {
            assert(self.state.replicas@ =~= old(self).state.replicas@.update(
                id as int,
                Some(state),
            ));
        }
    }

    /// Free a replica's slot.
    pub fn remove_replica(&mut self, id: usize)
        requires
            id < old(self).state.replicas@.len(),
            old(self).state.replicas@[id as int] is Some,
        ensures
            final(self).state.replicas@ == old(self).state.replicas@.update(
                id as int,
                None::<ReplicaState>,
            ),
            final(self).state == (SharedState {
                replicas: final(self).state.replicas,
                ..old(self).state
            }),
            final(self).zttid == old(self).zttid,
    {
        let _prev = self.state.replicas.remove(id);
        self.state.replicas.insert(id, None);
        proof {
            assert(self.state.replicas@ =~= old(self).state.replicas@.update(
                id as int,
                None::<ReplicaState>,
            ));
        }
    }

    /// Put a replica into the first free slot; see
    /// [`SharedState::add_replica`].
    pub fn add_replica(&mut self, state: ReplicaState) -> (r: usize)
        ensures
            r < final(self).state.replicas@.len(),
            final(self).state.replicas@[r as int] == Some(state),
            final(self).zttid == old(self).zttid,
    {
        self.state.add_replica(state)
    }

    /// End of WAL durably flushed by the WAL storage.
    pub fn get_end_of_wal(&self) -> (r: Lsn)
        ensures
            r == self.state.flush_lsn,
    {
        self.state.flush_lsn
    }

    /// The positions this safekeeper reports to its peers.
    pub fn get_public_info(&self) -> (r: SafekeeperInfo)
        ensures
            r.last_log_term == Some(self.state.epoch),
            r.flush_lsn == Some(self.state.flush_lsn),
            r.commit_lsn == Some(self.state.commit_lsn),
            r.s3_wal_lsn == Some(self.state.s3_wal_lsn),
            r.remote_consistent_lsn == Some(
                Lsn(
                    max64(
                        combine_replicas(
                            self.state.replicas@,
                            self.state.replicas@.len() as int,
                        ).remote_consistent_lsn.0,
                        self.state.remote_consistent_lsn.0,
                    ),
                ),
            ),
            r.peer_horizon_lsn == Some(self.state.peer_horizon_lsn),
    {
        let replicas = self.state.get_replicas_state();
        let rc = if replicas.remote_consistent_lsn.0 >= self.state.remote_consistent_lsn.0 {
            replicas.remote_consistent_lsn.0
        } else {
            self.state.remote_consistent_lsn.0
        };
        SafekeeperInfo {
            last_log_term: Some(self.state.epoch),
            flush_lsn: Some(self.state.flush_lsn),
            commit_lsn: Some(self.state.commit_lsn),
            s3_wal_lsn: Some(self.state.s3_wal_lsn),
            remote_consistent_lsn: Some(Lsn(rc)),
            peer_horizon_lsn: Some(self.state.peer_horizon_lsn),
        }
    }
}

/// Public positions of one safekeeper, for peer exchange.
#[derive(Clone, Copy, Debug, PartialEq, Eq, Structural)]
pub struct SafekeeperInfo {
    /// Term of the last log entry.
    pub last_log_term: Option<u64>,
    /// End of WAL durably flushed.
    pub flush_lsn: Option<Lsn>,
    /// Quorum commit LSN.
    pub commit_lsn: Option<Lsn>,
    /// WAL offloaded to remote storage.
    pub s3_wal_lsn: Option<Lsn>,
    /// WAL preserved by remote storage of a pageserver.
    pub remote_consistent_lsn: Option<Lsn>,
    /// Horizon up to which every peer has the WAL.
    pub peer_horizon_lsn: Option<Lsn>,
}

/// The map of open safekeeper timelines.
#[derive(Debug)]
pub struct GlobalTimelines {
    pub timelines: Vec<Timeline>,
}

/// Timeline identifiers in the map are unique.
pub open spec fn gt_wf(ts: Seq<Timeline>) -> bool {
    forall|i: int, j: int| 0 <= i < j < ts.len() ==> (#[trigger] ts[i]).zttid != (#[trigger] ts[j]).zttid
}

/// Whether the map holds this timeline.
pub open spec fn gt_has(ts: Seq<Timeline>, zttid: ZTenantTimelineId) -> bool {
    exists|i: int| 0 <= i < ts.len() && (#[trigger] ts[i]).zttid == zttid
}

impl GlobalTimelines {
    /// An empty map.
    pub fn new() -> (r: GlobalTimelines)
        ensures
            gt_wf(r.timelines@),
            r.timelines@.len() == 0,
    {
        GlobalTimelines { timelines: Vec::new() }
    }

    /// Add a freshly created timeline. Fails iff the identifier is
    /// taken.
    pub fn create(&mut self, zttid: ZTenantTimelineId, shared_state: SharedState) -> (r: Result<
        (),
        RepoError,
    >)
        requires
            gt_wf(old(self).timelines@),
        ensures
            gt_wf(final(self).timelines@),
            r is Err <==> gt_has(old(self).timelines@, zttid),
            r is Err ==> r == Err::<(), RepoError>(RepoError::AlreadyExists) && *final(self)
                == *old(self),
            r is Ok ==> final(self).timelines@.len() == old(self).timelines@.len() + 1
                && final(self).timelines@.take(old(self).timelines@.len() as int) == old(
                self,
            ).timelines@ && final(self).timelines@.last().zttid == zttid
                && final(self).timelines@.last().state == shared_state,
    {
        let mut i: usize = 0;
        while i < self.timelines.len()
            invariant
                i <= self.timelines@.len(),
                *self == *old(self),
                gt_wf(self.timelines@),
                forall|j: int| 0 <= j < i ==> (#[trigger] self.timelines@[j]).zttid != zttid,
            decreases self.timelines@.len() - i,
        {
            let t = &self.timelines[i];
            if t.zttid.tenant_id == zttid.tenant_id && t.zttid.timeline_id == zttid.timeline_id {
                proof {
                    assert((#[trigger] self.timelines@[i as int]).zttid == zttid);
                }
                return Err(RepoError::AlreadyExists);
            }
            i = i + 1;
        }
        let ghost orig = self.timelines@;
        self.timelines.push(Timeline { zttid, state: shared_state });
        proof {
            assert(self.timelines@.take(orig.len() as int) =~= orig);
            assert forall|p: int, q: int|
                0 <= p < q < self.timelines@.len() implies (#[trigger] self.timelines@[p]).zttid
                != (#[trigger] self.timelines@[q]).zttid by {
                if q < orig.len() {
                    assert(self.timelines@[p] == orig[p] && self.timelines@[q] == orig[q]);
                } else {
                    assert(self.timelines@[p] == orig[p]);
                }
            }
        }
        Ok(())
    }

    /// The timeline with this identifier.
    pub fn get(&self, zttid: ZTenantTimelineId) -> (r: Option<&Timeline>)
        ensures
            match r {
                Some(t) => t.zttid == zttid && exists|i: int|
                    0 <= i < self.timelines@.len() && #[trigger] self.timelines@[i] == *t,
                None => !gt_has(self.timelines@, zttid),
            },
    {
        let mut i: usize = 0;
        while i < self.timelines.len()
            invariant
                i <= self.timelines@.len(),
                forall|j: int| 0 <= j < i ==> (#[trigger] self.timelines@[j]).zttid != zttid,
            decreases self.timelines@.len() - i,
        {
            let t = &self.timelines[i];
            if t.zttid.tenant_id == zttid.tenant_id && t.zttid.timeline_id == zttid.timeline_id {
                proof {
                    assert(0 <= i < self.timelines@.len() && self.timelines@[i as int] == *t);
                }
                return Some(t);
            }
            i = i + 1;
        }
        None
    }

    /// Identifiers of every active timeline.
    pub fn get_active_timelines(&self) -> (r: Vec<ZTenantTimelineId>)
        requires
            gt_wf(self.timelines@),
        ensures
            forall|z: ZTenantTimelineId|
                #[trigger] r@.contains(z) <==> exists|i: int|
                    0 <= i < self.timelines@.len() && (#[trigger] self.timelines@[i]).zttid == z
                        && self.timelines@[i].state.active,
    {
        let mut out: Vec<ZTenantTimelineId> = Vec::new();
        let mut i: usize = 0;
        while i < self.timelines.len()
            invariant
                i <= self.timelines@.len(),
                forall|z: ZTenantTimelineId|
                    #[trigger] out@.contains(z) <==> exists|j: int|
                        0 <= j < i && (#[trigger] self.timelines@[j]).zttid == z
                            && self.timelines@[j].state.active,
            decreases self.timelines@.len() - i,
        {
            let ghost oldout = out@;
            if self.timelines[i].state.active {
                out.push(self.timelines[i].zttid);
                proof {
                    assert forall|z: ZTenantTimelineId| #[trigger] out@.contains(z) implies exists|
                        j: int,
                    |
                        0 <= j < i + 1 && (#[trigger] self.timelines@[j]).zttid == z
                            && self.timelines@[j].state.active by {
                        if z == self.timelines@[i as int].zttid {
                            assert(self.timelines@[i as int].zttid == z
                                && self.timelines@[i as int].state.active);
                        } else {
                            let q = choose|q: int| 0 <= q < out@.len() && out@[q] == z;
                            assert(oldout[q] == z);
                            assert(oldout.contains(z));
                        }
                    }
                    assert forall|z: ZTenantTimelineId|
                        (exists|j: int|
                            0 <= j < i + 1 && (#[trigger] self.timelines@[j]).zttid == z
                                && self.timelines@[j].state.active) implies #[trigger] out@.contains(
                        z,
                    ) by {
                        let j = choose|j: int|
                            0 <= j < i + 1 && (#[trigger] self.timelines@[j]).zttid == z
                                && self.timelines@[j].state.active;
                        if j < i {
                            assert(oldout.contains(z));
                            let q = choose|q: int| 0 <= q < oldout.len() && oldout[q] == z;
                            assert(out@[q] == z);
                        } else {
                            assert(out@[out@.len() - 1] == z);
                        }
                    }
                }
            } else {
                proof {
                    assert forall|z: ZTenantTimelineId| #[trigger] out@.contains(z) implies exists|
                        j: int,
                    |
                        0 <= j < i + 1 && (#[trigger] self.timelines@[j]).zttid == z
                            && self.timelines@[j].state.active by {
                        let j = choose|j: int|
                            0 <= j < i && (#[trigger] self.timelines@[j]).zttid == z
                                && self.timelines@[j].state.active;
                        assert(0 <= j < i + 1 && self.timelines@[j].zttid == z
                            && self.timelines@[j].state.active);
                    }
                    assert forall|z: ZTenantTimelineId|
                        !out@.contains(z) implies !(exists|j: int|
                        0 <= j < i + 1 && (#[trigger] self.timelines@[j]).zttid == z
                            && self.timelines@[j].state.active) by {
                        if exists|j: int|
                            0 <= j < i + 1 && (#[trigger] self.timelines@[j]).zttid == z
                                && self.timelines@[j].state.active {
                            let j = choose|j: int|
                                0 <= j < i + 1 && (#[trigger] self.timelines@[j]).zttid == z
                                    && self.timelines@[j].state.active;
                            assert(j < i);
                            assert(out@.contains(z));
                        }
                    }
                }
            }
            i = i + 1;
        }
        out
    }
}

} // verus!
