//! Safekeeper replica bookkeeping and timeline-map decisions.

use pagestore::error::RepoError;
use pagestore::lsn::Lsn;
use pagestore::safekeeper::{
    CallmeAction, GlobalTimelines, HotStandbyFeedback, ReplicaState, SharedState, Timeline,
    ZTenantTimelineId, ZenithFeedback,
};

fn base_state() -> SharedState {
    SharedState {
        commit_lsn: Lsn(0),
        notified_commit_lsn: Lsn(0),
        s3_wal_lsn: Lsn(0),
        remote_consistent_lsn: Lsn(0),
        peer_horizon_lsn: Lsn(0),
        flush_lsn: Lsn(0),
        epoch: 0,
        replicas: Vec::new(),
        active: false,
        num_computes: 0,
        pageserver_connstr: None,
    }
}

fn feedback(write: u64, apply: u64) -> ZenithFeedback {
    ZenithFeedback {
        current_timeline_size: 1,
        ps_writelsn: write,
        ps_flushlsn: write,
        ps_applylsn: apply,
        ps_replytime_micros: 0,
    }
}

#[test]
fn replicas_state_combines_feedback() {
    let mut st = base_state();
    let mut r1 = ReplicaState::new();
    r1.hs_feedback = HotStandbyFeedback { ts: 10, xmin: 100, catalog_xmin: 50 };
    r1.zenith_feedback = Some(feedback(0x100, 0x80));
    let mut r2 = ReplicaState::new();
    r2.hs_feedback = HotStandbyFeedback { ts: 20, xmin: 90, catalog_xmin: 60 };
    r2.zenith_feedback = Some(feedback(0x90, 0xa0));
    st.replicas.push(Some(r1));
    st.replicas.push(None);
    st.replicas.push(Some(r2));

    let acc = st.get_replicas_state();
    assert_eq!(acc.hs_feedback.ts, 20);
    assert_eq!(acc.hs_feedback.xmin, 90);
    assert_eq!(acc.hs_feedback.catalog_xmin, 50);
    // the most advanced feedback wins, but the last write position is reported
    assert_eq!(acc.zenith_feedback.unwrap().ps_writelsn, 0x100);
    assert_eq!(acc.last_received_lsn, Lsn(0x90));
    assert_eq!(acc.remote_consistent_lsn, Lsn(0xa0));
}

#[test]
fn replica_slots_are_reused() {
    let mut tl = Timeline::new(
        ZTenantTimelineId { tenant_id: 1, timeline_id: 2 },
        base_state(),
    );
    let a = tl.add_replica(ReplicaState::new());
    let b = tl.add_replica(ReplicaState::new());
    assert_eq!(a, 0);
    assert_eq!(b, 1);
    tl.remove_replica(0);
    let c = tl.add_replica(ReplicaState::new());
    assert_eq!(c, 0);
    let mut st = ReplicaState::new();
    st.last_received_lsn = Lsn(7);
    tl.update_replica_state(1, st);
    assert_eq!(tl.state.replicas[1].unwrap().last_received_lsn, Lsn(7));
}

#[test]
fn activation_produces_subscription_actions() {
    let mut tl = Timeline::new(
        ZTenantTimelineId { tenant_id: 1, timeline_id: 2 },
        base_state(),
    );
    let acts = tl.on_compute_connect(Some(String::from("ps-one")));
    assert!(tl.is_active());
    assert_eq!(acts.len(), 1);
    match &acts[0] {
        CallmeAction::Subscribe(k) => {
            assert_eq!(k.tenant_id, 1);
            assert_eq!(k.timeline_id, 2);
            assert_eq!(k.pageserver_connstr, "ps-one");
        },
        _ => panic!("expected a subscribe action"),
    }

    let acts = tl.activate(Some(String::from("ps-two")));
    assert_eq!(acts.len(), 2);
    assert!(matches!(&acts[0], CallmeAction::Unsubscribe(k) if k.pageserver_connstr == "ps-one"));
    assert!(matches!(&acts[1], CallmeAction::Subscribe(k) if k.pageserver_connstr == "ps-two"));

    tl.state.pageserver_connstr = None;
    let acts = tl.on_compute_disconnect();
    assert!(!tl.is_active());
    assert_eq!(acts.len(), 0);
}

#[test]
fn deactivation_decision() {
    let mut tl = Timeline::new(
        ZTenantTimelineId { tenant_id: 1, timeline_id: 2 },
        base_state(),
    );
    tl.state.active = true;
    tl.state.commit_lsn = Lsn(0x50);
    tl.state.notified_commit_lsn = Lsn(0x50);
    let mut caught_up = ReplicaState::new();
    caught_up.last_received_lsn = Lsn(0x50);
    let id = tl.add_replica(caught_up);
    let (done, _acts) = tl.check_deactivate(id);
    assert!(done);
    assert!(!tl.is_active());

    // a lagging replica keeps the timeline active
    let mut tl = Timeline::new(
        ZTenantTimelineId { tenant_id: 1, timeline_id: 2 },
        base_state(),
    );
    tl.state.active = true;
    tl.state.commit_lsn = Lsn(0x50);
    tl.state.notified_commit_lsn = Lsn(0x50);
    let mut lagging = ReplicaState::new();
    lagging.last_received_lsn = Lsn(0x10);
    let id = tl.add_replica(lagging);
    let (done, _acts) = tl.check_deactivate(id);
    assert!(!done);
    assert!(tl.is_active());

    // a connected compute keeps the timeline active even when caught up
    let mut tl = Timeline::new(
        ZTenantTimelineId { tenant_id: 1, timeline_id: 2 },
        base_state(),
    );
    tl.state.active = true;
    tl.state.num_computes = 1;
    let mut caught_up = ReplicaState::new();
    caught_up.last_received_lsn = Lsn(0x50);
    let id = tl.add_replica(caught_up);
    let (done, acts) = tl.check_deactivate(id);
    assert!(!done);
    assert!(tl.is_active());
    assert!(acts.is_empty());
}

#[test]
fn wal_sender_notification() {
    let mut tl = Timeline::new(
        ZTenantTimelineId { tenant_id: 1, timeline_id: 2 },
        base_state(),
    );
    assert_eq!(tl.wait_for_lsn(Lsn(0x10)), None);
    tl.state.commit_lsn = Lsn(0x20);
    assert!(tl.notify_wal_senders());
    assert!(!tl.notify_wal_senders());
    assert_eq!(tl.wait_for_lsn(Lsn(0x10)), Some(Lsn(0x20)));
    assert_eq!(tl.wait_for_lsn(Lsn(0x20)), None);
}

#[test]
fn public_info_reports_positions() {
    let mut tl = Timeline::new(
        ZTenantTimelineId { tenant_id: 1, timeline_id: 2 },
        base_state(),
    );
    tl.state.epoch = 3;
    tl.state.flush_lsn = Lsn(0x40);
    tl.state.commit_lsn = Lsn(0x30);
    tl.state.remote_consistent_lsn = Lsn(0x10);
    let mut r = ReplicaState::new();
    r.zenith_feedback = Some(feedback(0x38, 0x20));
    tl.add_replica(r);
    let info = tl.get_public_info();
    assert_eq!(info.last_log_term, Some(3));
    assert_eq!(info.flush_lsn, Some(Lsn(0x40)));
    assert_eq!(info.commit_lsn, Some(Lsn(0x30)));
    assert_eq!(info.remote_consistent_lsn, Some(Lsn(0x20)));
    assert_eq!(tl.get_end_of_wal(), Lsn(0x40));
}

#[test]
fn global_timelines_registry() {
    let mut gt = GlobalTimelines::new();
    let z1 = ZTenantTimelineId { tenant_id: 1, timeline_id: 10 };
    let z2 = ZTenantTimelineId { tenant_id: 1, timeline_id: 11 };
    gt.create(z1, base_state()).unwrap();
    let mut active = base_state();
    active.active = true;
    gt.create(z2, active).unwrap();
    assert_eq!(gt.create(z1, base_state()).unwrap_err(), RepoError::AlreadyExists);

    assert!(gt.get(z1).is_some());
    assert!(gt.get(ZTenantTimelineId { tenant_id: 9, timeline_id: 9 }).is_none());

    let actives = gt.get_active_timelines();
    assert_eq!(actives, vec![z2]);
}
