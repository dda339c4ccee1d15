//! WAL receiver registry, streaming decisions, and reply parsing.

use pagestore::error::RepoError;
use pagestore::lsn::Lsn;
use pagestore::vfile::{seek_calc, sweep_decision, SeekPos, SweepStep};
use pagestore::walreceiver::{
    build_feedback, caught_up_after, ingest_start_point, parse_identify, parse_lsn, parse_u64_dec,
    status_update_decision, ReplicationEvent, WalReceivers,
};

#[test]
fn receiver_registry() {
    let mut wr = WalReceivers::new();
    assert!(wr.launch_wal_receiver(1, 2, String::from("host=sk1"), 77));
    assert!(!wr.launch_wal_receiver(1, 2, String::from("host=sk2"), 78));
    let e = wr.get_wal_receiver_entry(1, 2).unwrap();
    assert_eq!(e.thread_id, 77);
    assert_eq!(e.wal_producer_connstr, "host=sk2");
    assert!(e.last_received_msg_lsn.is_none());

    assert!(wr.update_last_received(1, 2, Lsn(0x100), 999));
    let e = wr.get_wal_receiver_entry(1, 2).unwrap();
    assert_eq!(e.last_received_msg_lsn, Some(Lsn(0x100)));
    assert_eq!(e.last_received_msg_ts, Some(999));
    assert!(!wr.update_last_received(3, 4, Lsn(0x100), 999));

    assert!(wr.launch_wal_receiver(5, 6, String::from("host=sk3"), 80));
    wr.drop_wal_receiver(1, 2);
    assert!(wr.get_wal_receiver_entry(1, 2).is_none());
    // dropping one timeline leaves the others' entries untouched
    let other = wr.get_wal_receiver_entry(5, 6).unwrap();
    assert_eq!(other.thread_id, 80);
    assert_eq!(other.wal_producer_connstr, "host=sk3");
    // an update through launch keeps the received-message status
    assert!(wr.update_last_received(5, 6, Lsn(0x40), 7));
    assert!(!wr.launch_wal_receiver(5, 6, String::from("host=sk4"), 81));
    let e = wr.get_wal_receiver_entry(5, 6).unwrap();
    assert_eq!(e.thread_id, 80);
    assert_eq!(e.wal_producer_connstr, "host=sk4");
    assert_eq!(e.last_received_msg_lsn, Some(Lsn(0x40)));
}

#[test]
fn start_point_is_aligned_past_the_horizon() {
    assert_eq!(ingest_start_point(Lsn(0)), Err(RepoError::NotFound));
    assert_eq!(ingest_start_point(Lsn(16)), Ok(Lsn(16)));
    assert_eq!(ingest_start_point(Lsn(17)), Ok(Lsn(24)));
    assert_eq!(ingest_start_point(Lsn(23)), Ok(Lsn(24)));
}

#[test]
fn status_updates() {
    let last = Lsn(0x80);
    assert_eq!(
        status_update_decision(&ReplicationEvent::XLogData { endlsn: Lsn(0x90) }, last),
        Some(Lsn(0x90))
    );
    assert_eq!(
        status_update_decision(&ReplicationEvent::PrimaryKeepAlive { reply_requested: true }, last),
        Some(Lsn(0x80))
    );
    assert_eq!(
        status_update_decision(&ReplicationEvent::PrimaryKeepAlive { reply_requested: false }, last),
        None
    );
    assert_eq!(status_update_decision(&ReplicationEvent::Other, last), None);

    assert!(caught_up_after(Lsn(0x90), Lsn(0x90), false));
    assert!(!caught_up_after(Lsn(0x80), Lsn(0x90), false));
    assert!(caught_up_after(Lsn(0x10), Lsn(0x90), true));

    let fb = build_feedback(4096, Lsn(1), Lsn(2), Lsn(3), 5);
    assert_eq!(fb.current_timeline_size, 4096);
    assert_eq!(fb.ps_writelsn, 1);
    assert_eq!(fb.ps_flushlsn, 2);
    assert_eq!(fb.ps_applylsn, 3);
    assert_eq!(fb.ps_replytime_micros, 5);
}

#[test]
fn decimal_parsing() {
    assert_eq!(parse_u64_dec(&b"12345".to_vec()), Some(12345));
    assert_eq!(parse_u64_dec(&b"0".to_vec()), Some(0));
    assert_eq!(parse_u64_dec(&b"18446744073709551615".to_vec()), Some(u64::MAX));
    assert_eq!(parse_u64_dec(&b"18446744073709551616".to_vec()), None);
    assert_eq!(parse_u64_dec(&b"".to_vec()), None);
    assert_eq!(parse_u64_dec(&b"12a".to_vec()), None);
}

#[test]
fn lsn_parsing() {
    assert_eq!(parse_lsn(&b"16/B374D848".to_vec()), Some(Lsn(0x16_B374_D848)));
    assert_eq!(parse_lsn(&b"0/0".to_vec()), Some(Lsn(0)));
    assert_eq!(parse_lsn(&b"ff/abcdef01".to_vec()), Some(Lsn(0xff_abcd_ef01)));
    assert_eq!(parse_lsn(&b"16B374D848".to_vec()), None);
    assert_eq!(parse_lsn(&b"/1".to_vec()), None);
    assert_eq!(parse_lsn(&b"1/".to_vec()), None);
    assert_eq!(parse_lsn(&b"100000000/0".to_vec()), None);
}

#[test]
fn identify_reply_parsing() {
    let fields = vec![
        Some(b"6444869116345477377".to_vec()),
        Some(b"1".to_vec()),
        Some(b"16/B374D848".to_vec()),
        Some(b"postgres".to_vec()),
    ];
    let ident = parse_identify(&fields).unwrap();
    assert_eq!(ident.systemid, 6444869116345477377);
    assert_eq!(ident.timeline, 1);
    assert_eq!(ident.xlogpos, Lsn(0x16_B374_D848));
    assert_eq!(ident.dbname, Some(b"postgres".to_vec()));

    let no_db = vec![
        Some(b"1".to_vec()),
        Some(b"1".to_vec()),
        Some(b"0/10".to_vec()),
    ];
    let ident = parse_identify(&no_db).unwrap();
    assert_eq!(ident.dbname, None);

    let bad = vec![Some(b"x".to_vec()), Some(b"1".to_vec()), Some(b"0/10".to_vec())];
    assert!(parse_identify(&bad).is_err());
    assert!(parse_identify(&Vec::new()).is_err());
}

#[test]
fn virtual_file_decisions() {
    assert_eq!(seek_calc(10, SeekPos::Start(3)), Ok(3));
    assert_eq!(seek_calc(10, SeekPos::Current(5)), Ok(15));
    assert_eq!(seek_calc(10, SeekPos::Current(-10)), Ok(0));
    assert_eq!(seek_calc(10, SeekPos::Current(-11)), Err(RepoError::InvalidRequest));
    assert_eq!(seek_calc(u64::MAX, SeekPos::Current(1)), Err(RepoError::InvalidRequest));

    assert_eq!(sweep_decision(false, true, 0, 10), SweepStep::UseSlot);
    assert_eq!(sweep_decision(true, true, 0, 10), SweepStep::Advance);
    assert_eq!(sweep_decision(false, false, 0, 10), SweepStep::Advance);
    assert_eq!(sweep_decision(false, true, 20, 10), SweepStep::WaitForSlot);
}

#[test]
fn lsn_arithmetic() {
    assert!(Lsn(16).is_aligned());
    assert!(!Lsn(17).is_aligned());
    assert_eq!(Lsn(17).calc_padding(), 7);
    assert_eq!(Lsn(16).calc_padding(), 0);
    assert_eq!(Lsn(17).align_up(), Some(Lsn(24)));
    assert_eq!(Lsn(u64::MAX).align_up(), None);
    assert_eq!(Lsn(0x30).checked_sub(0x10), Some(Lsn(0x20)));
    assert_eq!(Lsn(0x10).checked_sub(0x30), None);
}
