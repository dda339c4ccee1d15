//! The decision core of the WAL receiver.
//!
//! One receiver task per timeline streams WAL from a safekeeper,
//! decodes records, feeds them to the timeline writer, and reports
//! feedback. The streaming itself is an outside collaborator; this
//! module holds the receiver registry and the decisions made over plain
//! values: where to start streaming, when a status update is owed, what
//! the feedback message carries, and how the reply to the
//! identify-system command is read.

use vstd::prelude::*;

use crate::error::RepoError;
use crate::lsn::{lsn_align_up, lsn_aligned, Lsn};
use crate::safekeeper::ZenithFeedback;

verus! {

/// Bookkeeping of one running WAL receiver.
#[derive(Debug)]
pub struct WalReceiverEntry {
    /// The receiver thread.
    pub thread_id: u64,
    /// Connection string of the WAL producer it streams from.
    pub wal_producer_connstr: String,
    /// LSN of the last message received, once one arrived.
    pub last_received_msg_lsn: Option<Lsn>,
    /// When the last message arrived, in microseconds since the epoch.
    pub last_received_msg_ts: Option<u128>,
}

impl WalReceiverEntry {
    /// An identical copy of this entry.
    pub fn duplicate(&self) -> (r: WalReceiverEntry)
        ensures
            r.thread_id == self.thread_id,
            r.wal_producer_connstr@ == self.wal_producer_connstr@,
            r.last_received_msg_lsn == self.last_received_msg_lsn,
            r.last_received_msg_ts == self.last_received_msg_ts,
    {
        WalReceiverEntry {
            thread_id: self.thread_id,
            wal_producer_connstr: self.wal_producer_connstr.clone(),
            last_received_msg_lsn: self.last_received_msg_lsn,
            last_received_msg_ts: self.last_received_msg_ts,
        }
    }
}

/// The registry of running WAL receivers, one per timeline.
#[derive(Debug)]
pub struct WalReceivers {
    pub entries: Vec<(u128, u128, WalReceiverEntry)>,
}

/// Each `(tenant, timeline)` pair holds at most one receiver.
pub open spec fn wr_wf(es: Seq<(u128, u128, WalReceiverEntry)>) -> bool {
    forall|i: int, j: int|
        0 <= i < j < es.len() ==> !((#[trigger] es[i]).0 == (#[trigger] es[j]).0 && es[i].1
            == es[j].1)
}

/// Whether the registry holds a receiver for this timeline.
pub open spec fn wr_has(es: Seq<(u128, u128, WalReceiverEntry)>, tenant: u128, timeline: u128) -> bool {
    exists|i: int| 0 <= i < es.len() && (#[trigger] es[i]).0 == tenant && es[i].1 == timeline
}

impl WalReceivers {
    /// An empty registry.
    pub fn new() -> (r: WalReceivers)
        ensures
            wr_wf(r.entries@),
            r.entries@.len() == 0,
    {
        WalReceivers { entries: Vec::new() }
    }

    /// Register a receiver for the timeline, or hand a running one the
    /// new connection string. True means a new entry was created and
    /// the caller must start the receiver task.
    pub fn launch_wal_receiver(
        &mut self,
        tenantid: u128,
        timelineid: u128,
        wal_producer_connstr: String,
        thread_id: u64,
    ) -> (started: bool)
        requires
            wr_wf(old(self).entries@),
        ensures
            wr_wf(final(self).entries@),
            started == !wr_has(old(self).entries@, tenantid, timelineid),
            wr_has(final(self).entries@, tenantid, timelineid),
            started ==> final(self).entries@.len() == old(self).entries@.len() + 1
                && final(self).entries@.take(old(self).entries@.len() as int) == old(
                self,
            ).entries@ && ({
                let e = final(self).entries@.last();
                &&& e.0 == tenantid
                &&& e.1 == timelineid
                &&& e.2.thread_id == thread_id
                &&& e.2.wal_producer_connstr@ == wal_producer_connstr@
                &&& e.2.last_received_msg_lsn is None
                &&& e.2.last_received_msg_ts is None
            }),
            !started ==> exists|i: int|
                0 <= i < old(self).entries@.len() && (#[trigger] old(self).entries@[i]).0
                    == tenantid && old(self).entries@[i].1 == timelineid && final(self).entries@
                    == old(self).entries@.update(i, final(self).entries@[i]) && ({
                    let e = final(self).entries@[i];
                    &&& e.0 == tenantid
                    &&& e.1 == timelineid
                    &&& e.2.thread_id == old(self).entries@[i].2.thread_id
                    &&& e.2.wal_producer_connstr@ == wal_producer_connstr@
                    &&& e.2.last_received_msg_lsn == old(self).entries@[i].2.last_received_msg_lsn
                    &&& e.2.last_received_msg_ts == old(self).entries@[i].2.last_received_msg_ts
                }),
    {
        let n = self.entries.len();
        let mut i: usize = 0;
        while i < n
            invariant
                wr_wf(self.entries@),
                *self == *old(self),
                n == self.entries@.len(),
                i <= n,
                forall|j: int|
                    0 <= j < i ==> !((#[trigger] self.entries@[j]).0 == tenantid
                        && self.entries@[j].1 == timelineid),
            decreases n - i,
        {
            if self.entries[i].0 == tenantid && self.entries[i].1 == timelineid {
                let prev = self.entries.remove(i);
                let entry = WalReceiverEntry {
                    thread_id: prev.2.thread_id,
                    wal_producer_connstr,
                    last_received_msg_lsn: prev.2.last_received_msg_lsn,
                    last_received_msg_ts: prev.2.last_received_msg_ts,
                };
                self.entries.insert(i, (tenantid, timelineid, entry));
                proof {
                    assert(self.entries@ =~= old(self).entries@.update(
                        i as int,
                        self.entries@[i as int],
                    ));
                    assert((#[trigger] self.entries@[i as int]).0 == tenantid
                        && self.entries@[i as int].1 == timelineid);
                    assert forall|p: int, q: int|
                        0 <= p < q < self.entries@.len() implies !((#[trigger] self.entries@[p]).0
                        == (#[trigger] self.entries@[q]).0 && self.entries@[p].1
                        == self.entries@[q].1) by {
                        if p != i {
                            assert(self.entries@[p] == old(self).entries@[p]);
                        }
                        if q != i {
                            assert(self.entries@[q] == old(self).entries@[q]);
                        }
                        assert(old(self).entries@[p].0 == self.entries@[p].0
                            && old(self).entries@[p].1 == self.entries@[p].1);
                        assert(old(self).entries@[q].0 == self.entries@[q].0
                            && old(self).entries@[q].1 == self.entries@[q].1);
                    }
                    assert((old(self).entries@[i as int]).0 == tenantid && old(
                        self,
                    ).entries@[i as int].1 == timelineid);
                    assert(self.entries@[i as int].2.thread_id == old(
                        self,
                    ).entries@[i as int].2.thread_id && self.entries@[i as int].2.last_received_msg_lsn
                        == old(self).entries@[i as int].2.last_received_msg_lsn
                        && self.entries@[i as int].2.last_received_msg_ts == old(
                        self,
                    ).entries@[i as int].2.last_received_msg_ts);
                }
                return false;
            }
            i = i + 1;
        }
        let entry = WalReceiverEntry {
            thread_id,
            wal_producer_connstr,
            last_received_msg_lsn: None,
            last_received_msg_ts: None,
        };
        let ghost orig = self.entries@;
        self.entries.push((tenantid, timelineid, entry));
        proof {
            assert(self.entries@.take(orig.len() as int) =~= orig);
            assert((#[trigger] self.entries@[orig.len() as int]).0 == tenantid
                && self.entries@[orig.len() as int].1 == timelineid);
            assert forall|p: int, q: int|
                0 <= p < q < self.entries@.len() implies !((#[trigger] self.entries@[p]).0 == (
            #[trigger] self.entries@[q]).0 && self.entries@[p].1 == self.entries@[q].1) by {
                assert(self.entries@[p] == orig[p]);
                if q < orig.len() {
                    assert(self.entries@[q] == orig[q]);
                }
            }
        }
        true
    }

    /// The registered receiver of the timeline, copied out.
    pub fn get_wal_receiver_entry(&self, tenant_id: u128, timeline_id: u128) -> (r: Option<
        WalReceiverEntry,
    >)
        ensures
            (r is Some) == wr_has(self.entries@, tenant_id, timeline_id),
            r matches Some(e) ==> exists|i: int|
                0 <= i < self.entries@.len() && (#[trigger] self.entries@[i]).0 == tenant_id
                    && self.entries@[i].1 == timeline_id && e.thread_id == self.entries@[i].2.thread_id
                    && e.wal_producer_connstr@ == self.entries@[i].2.wal_producer_connstr@
                    && e.last_received_msg_lsn == self.entries@[i].2.last_received_msg_lsn
                    && e.last_received_msg_ts == self.entries@[i].2.last_received_msg_ts,
    {
        let mut i: usize = 0;
        while i < self.entries.len()
            invariant
                i <= self.entries@.len(),
                forall|j: int|
                    0 <= j < i ==> !((#[trigger] self.entries@[j]).0 == tenant_id
                        && self.entries@[j].1 == timeline_id),
            decreases self.entries@.len() - i,
        {
            if self.entries[i].0 == tenant_id && self.entries[i].1 == timeline_id {
                let e = self.entries[i].2.duplicate();
                proof {
                    assert((#[trigger] self.entries@[i as int]).0 == tenant_id
                        && self.entries@[i as int].1 == timeline_id);
                }
                return Some(e);
            }
            i = i + 1;
        }
        None
    }

    /// Drop the timeline's receiver from the registry, if one is
    /// registered.
    pub fn drop_wal_receiver(&mut self, tenantid: u128, timelineid: u128)
        requires
            wr_wf(old(self).entries@),
        ensures
            wr_wf(final(self).entries@),
            !wr_has(final(self).entries@, tenantid, timelineid),
            !wr_has(old(self).entries@, tenantid, timelineid) ==> *final(self) == *old(self),
            wr_has(old(self).entries@, tenantid, timelineid) ==> exists|i: int|
                0 <= i < old(self).entries@.len() && (#[trigger] old(self).entries@[i]).0
                    == tenantid && old(self).entries@[i].1 == timelineid && final(self).entries@
                    == old(self).entries@.remove(i),
    {
        let mut i: usize = 0;
        while i < self.entries.len()
            invariant
                wr_wf(self.entries@),
                *self == *old(self),
                i <= self.entries@.len(),
                forall|j: int|
                    0 <= j < i ==> !((#[trigger] self.entries@[j]).0 == tenantid
                        && self.entries@[j].1 == timelineid),
            decreases self.entries@.len() - i,
        {
            if self.entries[i].0 == tenantid && self.entries[i].1 == timelineid {
                let ghost orig = self.entries@;
                let _gone = self.entries.remove(i);
                proof {
                    assert((#[trigger] orig[i as int]).0 == tenantid && orig[i as int].1
                        == timelineid);
                    assert(self.entries@ == orig.remove(i as int));
                    assert forall|p: int, q: int|
                        0 <= p < q < self.entries@.len() implies !((#[trigger] self.entries@[p]).0
                        == (#[trigger] self.entries@[q]).0 && self.entries@[p].1
                        == self.entries@[q].1) by {
                        let op = if p < i { p } else { p + 1 };
                        let oq = if q < i { q } else { q + 1 };
                        assert(self.entries@[p] == orig[op] && self.entries@[q] == orig[oq]);
                    }
                    assert forall|j: int|
                        0 <= j < self.entries@.len() implies !((#[trigger] self.entries@[j]).0
                        == tenantid && self.entries@[j].1 == timelineid) by {
                        let oj = if j < i { j } else { j + 1 };
                        assert(self.entries@[j] == orig[oj]);
                        if oj > i {
                            assert(!(orig[i as int].0 == orig[oj].0 && orig[i as int].1
                                == orig[oj].1));
                        }
                    }
                }
                return ;
            }
            i = i + 1;
        }
    }

    /// Record the arrival of a message on the timeline's receiver. True
    /// means the receiver was found.
    pub fn update_last_received(
        &mut self,
        tenantid: u128,
        timelineid: u128,
        lsn: Lsn,
        ts_micros: u128,
    ) -> (found: bool)
        requires
            wr_wf(old(self).entries@),
        ensures
            wr_wf(final(self).entries@),
            found == wr_has(old(self).entries@, tenantid, timelineid),
            !found ==> *final(self) == *old(self),
            found ==> exists|i: int|
                0 <= i < old(self).entries@.len() && (#[trigger] old(self).entries@[i]).0
                    == tenantid && old(self).entries@[i].1 == timelineid && final(self).entries@
                    == old(self).entries@.update(i, final(self).entries@[i]) && ({
                    let e = final(self).entries@[i];
                    &&& e.0 == tenantid
                    &&& e.1 == timelineid
                    &&& e.2.thread_id == old(self).entries@[i].2.thread_id
                    &&& e.2.wal_producer_connstr@ == old(
                        self,
                    ).entries@[i].2.wal_producer_connstr@
                    &&& e.2.last_received_msg_lsn == Some(lsn)
                    &&& e.2.last_received_msg_ts == Some(ts_micros)
                }),
    {
        let mut i: usize = 0;
        while i < self.entries.len()
            invariant
                wr_wf(self.entries@),
                *self == *old(self),
                i <= self.entries@.len(),
                forall|j: int|
                    0 <= j < i ==> !((#[trigger] self.entries@[j]).0 == tenantid
                        && self.entries@[j].1 == timelineid),
            decreases self.entries@.len() - i,
        {
            if self.entries[i].0 == tenantid && self.entries[i].1 == timelineid {
                let prev = self.entries.remove(i);
                let entry = WalReceiverEntry {
                    thread_id: prev.2.thread_id,
                    wal_producer_connstr: prev.2.wal_producer_connstr,
                    last_received_msg_lsn: Some(lsn),
                    last_received_msg_ts: Some(ts_micros),
                };
                self.entries.insert(i, (tenantid, timelineid, entry));
                proof {
                    assert(self.entries@ =~= old(self).entries@.update(
                        i as int,
                        self.entries@[i as int],
                    ));
                    assert((#[trigger] self.entries@[i as int]).0 == tenantid
                        && self.entries@[i as int].1 == timelineid);
                    assert((old(self).entries@[i as int]).0 == tenantid && old(
                        self,
                    ).entries@[i as int].1 == timelineid);
                    assert forall|p: int, q: int|
                        0 <= p < q < self.entries@.len() implies !((#[trigger] self.entries@[p]).0
                        == (#[trigger] self.entries@[q]).0 && self.entries@[p].1
                        == self.entries@[q].1) by {
                        if p != i {
                            assert(self.entries@[p] == old(self).entries@[p]);
                        }
                        if q != i {
                            assert(self.entries@[q] == old(self).entries@[q]);
                        }
                        assert(old(self).entries@[p].0 == self.entries@[p].0
                            && old(self).entries@[p].1 == self.entries@[p].1);
                        assert(old(self).entries@[q].0 == self.entries@[q].0
                            && old(self).entries@[q].1 == self.entries@[q].1);
                    }
                }
                return true;
            }
            i = i + 1;
        }
        false
    }
}

/// Where to start streaming: past everything already ingested, rounded
/// up to the next record boundary. A timeline that never ingested
/// anything has no base to stream onto.
pub fn ingest_start_point(last_rec_lsn: Lsn) -> (r: Result<Lsn, RepoError>)
    ensures
        last_rec_lsn.0 == 0 ==> r == Err::<Lsn, RepoError>(RepoError::NotFound),
        last_rec_lsn.0 != 0 ==> (match r {
            Ok(l) => l.0 == lsn_align_up(last_rec_lsn.0) && lsn_aligned(l.0),
            Err(e) => e == RepoError::InvalidRequest && lsn_align_up(last_rec_lsn.0) > u64::MAX,
        }),
{
    if last_rec_lsn.0 == 0 {
        return Err(RepoError::NotFound);
    }
    match last_rec_lsn.align_up() {
        Some(l) => Ok(l),
        None => Err(RepoError::InvalidRequest),
    }
}

/// One message of the replication stream, as the decision layer sees it.
#[derive(Clone, Copy, Debug, PartialEq, Eq, Structural)]
pub enum ReplicationEvent {
    /// WAL bytes up to `endlsn` were received and ingested.
    XLogData { endlsn: Lsn },
    /// The primary pinged, possibly requesting a reply.
    PrimaryKeepAlive { reply_requested: bool },
    /// Anything else.
    Other,
}

/// The position a status update must report after this message, when
/// one is owed: the received end position for data, the last ingested
/// record for a keepalive that requests a reply.
pub fn status_update_decision(event: &ReplicationEvent, last_rec_lsn: Lsn) -> (r: Option<Lsn>)
    ensures
        (match event {
            ReplicationEvent::XLogData { endlsn } => r == Some(*endlsn),
            ReplicationEvent::PrimaryKeepAlive { reply_requested } => r == (if *reply_requested {
                Some(last_rec_lsn)
            } else {
                None::<Lsn>
            }),
            ReplicationEvent::Other => r is None,
        }),
{
    match event {
        ReplicationEvent::XLogData { endlsn } => Some(*endlsn),
        ReplicationEvent::PrimaryKeepAlive { reply_requested } => {
            if *reply_requested {
                Some(last_rec_lsn)
            } else {
                None
            }
        },
        ReplicationEvent::Other => None,
    }
}

/// Whether the receiver has caught up with the WAL the producer had
/// when streaming began; once true it stays true.
pub fn caught_up_after(endlsn: Lsn, end_of_wal: Lsn, caught_up: bool) -> (r: bool)
    ensures
        r == (caught_up || endlsn.0 >= end_of_wal.0),
{
    caught_up || endlsn.0 >= end_of_wal.0
}

/// The feedback message sent to the safekeeper: what was processed,
/// what is locally durable, what is remotely durable, and when.
pub fn build_feedback(
    current_timeline_size: u64,
    write_lsn: Lsn,
    flush_lsn: Lsn,
    apply_lsn: Lsn,
    ts_micros: u64,
) -> (r: ZenithFeedback)
    ensures
        r.current_timeline_size == current_timeline_size,
        r.ps_writelsn == write_lsn.0,
        r.ps_flushlsn == flush_lsn.0,
        r.ps_applylsn == apply_lsn.0,
        r.ps_replytime_micros == ts_micros,
{
    ZenithFeedback {
        current_timeline_size,
        ps_writelsn: write_lsn.0,
        ps_flushlsn: flush_lsn.0,
        ps_applylsn: apply_lsn.0,
        ps_replytime_micros: ts_micros,
    }
}

/// Whether `b` is an ASCII decimal digit.
pub open spec fn is_dec_digit(b: u8) -> bool {
    48 <= b <= 57
}

/// Whether `b` is an ASCII hexadecimal digit, either case.
pub open spec fn is_hex_digit(b: u8) -> bool {
    is_dec_digit(b) || (97 <= b <= 102) || (65 <= b <= 70)
}

/// The value of one hexadecimal digit.
pub open spec fn hex_nibble(b: u8) -> int {
    if is_dec_digit(b) {
        b - 48
    } else if 97 <= b <= 102 {
        b - 87
    } else {
        b - 55
    }
}

/// The number the decimal digits spell.
pub open spec fn dec_val(bs: Seq<u8>) -> int
    decreases bs.len(),
{
    if bs.len() == 0 {
        0
    } else {
        dec_val(bs.drop_last()) * 10 + (bs.last() - 48)
    }
}

/// The number the hexadecimal digits spell.
pub open spec fn hex_val(bs: Seq<u8>) -> int
    decreases bs.len(),
{
    if bs.len() == 0 {
        0
    } else {
        hex_val(bs.drop_last()) * 16 + hex_nibble(bs.last())
    }
}

/// What parsing an unsigned decimal number yields: nothing on an empty
/// string, a non-digit, or overflow.
pub open spec fn parse_u64_spec(bs: Seq<u8>) -> Option<u64> {
    if bs.len() == 0 || !(forall|j: int| 0 <= j < bs.len() ==> is_dec_digit(#[trigger] bs[j]))
        || dec_val(bs) > u64::MAX {
        None
    } else {
        Some(dec_val(bs) as u64)
    }
}

/// What parsing an unsigned hexadecimal number yields.
pub open spec fn parse_hex_spec(bs: Seq<u8>) -> Option<u64> {
    if bs.len() == 0 || !(forall|j: int| 0 <= j < bs.len() ==> is_hex_digit(#[trigger] bs[j]))
        || hex_val(bs) > u64::MAX {
        None
    } else {
        Some(hex_val(bs) as u64)
    }
}

/// A decimal number never shrinks as digits are appended.
pub proof fn lemma_dec_val_mono(bs: Seq<u8>, k: int)
    requires
        forall|j: int| 0 <= j < bs.len() ==> is_dec_digit(#[trigger] bs[j]),
        0 <= k <= bs.len(),
    ensures
        dec_val(bs) >= dec_val(bs.take(k)),
        dec_val(bs.take(k)) >= 0,
    decreases bs.len(),
{
    if k == bs.len() {
        assert(bs.take(k) =~= bs);
        if bs.len() > 0 {
            assert forall|j: int|
                0 <= j < bs.drop_last().len() implies is_dec_digit(#[trigger] bs.drop_last()[j]) by {
                assert(bs.drop_last()[j] == bs[j]);
            }
            lemma_dec_val_mono(bs.drop_last(), bs.len() - 1);
            assert(bs.drop_last().take(bs.len() - 1) =~= bs.drop_last());
        }
    } else {
        assert forall|j: int|
            0 <= j < bs.drop_last().len() implies is_dec_digit(#[trigger] bs.drop_last()[j]) by {
            assert(bs.drop_last()[j] == bs[j]);
        }
        lemma_dec_val_mono(bs.drop_last(), k);
        assert(bs.drop_last().take(k) =~= bs.take(k));
        assert(dec_val(bs.drop_last()) >= dec_val(bs.drop_last().take(bs.drop_last().len() as int)))
            by {
            lemma_dec_val_mono(bs.drop_last(), bs.drop_last().len() as int);
        }
        assert(dec_val(bs.drop_last().take(bs.drop_last().len() as int)) == dec_val(
            bs.drop_last(),
        )) by {
            assert(bs.drop_last().take(bs.drop_last().len() as int) =~= bs.drop_last());
        }
        assert(dec_val(bs) >= dec_val(bs.drop_last()));
    }
}

/// A hexadecimal number never shrinks as digits are appended.
pub proof fn lemma_hex_val_mono(bs: Seq<u8>, k: int)
    requires
        forall|j: int| 0 <= j < bs.len() ==> is_hex_digit(#[trigger] bs[j]),
        0 <= k <= bs.len(),
    ensures
        hex_val(bs) >= hex_val(bs.take(k)),
        hex_val(bs.take(k)) >= 0,
    decreases bs.len(),
{
    if k == bs.len() {
        assert(bs.take(k) =~= bs);
        if bs.len() > 0 {
            assert forall|j: int|
                0 <= j < bs.drop_last().len() implies is_hex_digit(#[trigger] bs.drop_last()[j]) by {
                assert(bs.drop_last()[j] == bs[j]);
            }
            lemma_hex_val_mono(bs.drop_last(), bs.len() - 1);
            assert(bs.drop_last().take(bs.len() - 1) =~= bs.drop_last());
        }
    } else {
        assert forall|j: int|
            0 <= j < bs.drop_last().len() implies is_hex_digit(#[trigger] bs.drop_last()[j]) by {
            assert(bs.drop_last()[j] == bs[j]);
        }
        lemma_hex_val_mono(bs.drop_last(), k);
        assert(bs.drop_last().take(k) =~= bs.take(k));
        lemma_hex_val_mono(bs.drop_last(), bs.drop_last().len() as int);
        assert(bs.drop_last().take(bs.drop_last().len() as int) =~= bs.drop_last());
        assert(hex_val(bs) >= hex_val(bs.drop_last()));
    }
}

/// Parse an unsigned decimal number.
pub fn parse_u64_dec(bs: &Vec<u8>) -> (r: Option<u64>)
    ensures
        r == parse_u64_spec(bs@),
{
    if bs.len() == 0 {
        return None;
    }
    let mut acc: u64 = 0;
    let mut i: usize = 0;
    proof {
        assert(bs@.take(0) =~= Seq::<u8>::empty());
    }
    while i < bs.len()
        invariant
            i <= bs@.len(),
            forall|j: int| 0 <= j < i ==> is_dec_digit(#[trigger] bs@[j]),
            acc as int == dec_val(bs@.take(i as int)),
        decreases bs@.len() - i,
    {
        let b = bs[i];
        proof {
            assert(bs@.take(i + 1).drop_last() =~= bs@.take(i as int));
            assert(bs@.take(i + 1).last() == bs@[i as int]);
        }
        if !(48 <= b && b <= 57) {
            return None;
        }
        let d: u64 = (b - 48) as u64;
        if acc > (u64::MAX - d) / 10 {
            proof {
                assert(acc as int * 10 + d > u64::MAX) by (nonlinear_arith)
                    requires
                        acc as int > ((u64::MAX as int) - d) / 10,
                        0 <= d <= 9,
                        acc >= 0,
                ;
                if forall|j: int| 0 <= j < bs@.len() ==> is_dec_digit(#[trigger] bs@[j]) {
                    lemma_dec_val_mono(bs@, i + 1);
                }
            }
            return None;
        }
        proof {
            assert(acc as int * 10 + d <= u64::MAX) by (nonlinear_arith)
                requires
                    acc as int <= ((u64::MAX as int) - d) / 10,
                    0 <= d <= 9,
                    acc >= 0,
            ;
        }
        acc = acc * 10 + d;
        i = i + 1;
    }
    proof {
        assert(bs@.take(bs@.len() as int) =~= bs@);
    }
    Some(acc)
}

/// Parse an unsigned hexadecimal number from `bs[from..to]`.
pub fn parse_u64_hex_range(bs: &Vec<u8>, from: usize, to: usize) -> (r: Option<u64>)
    requires
        from <= to <= bs@.len(),
    ensures
        r == parse_hex_spec(bs@.subrange(from as int, to as int)),
{
    let ghost sub = bs@.subrange(from as int, to as int);
    if from == to {
        proof {
            assert(sub.len() == 0);
        }
        return None;
    }
    let mut acc: u64 = 0;
    let mut i: usize = from;
    proof {
        assert(sub.take(0) =~= Seq::<u8>::empty());
    }
    while i < to
        invariant
            from <= i <= to <= bs@.len(),
            sub == bs@.subrange(from as int, to as int),
            forall|j: int| 0 <= j < i - from ==> is_hex_digit(#[trigger] sub[j]),
            acc as int == hex_val(sub.take(i - from)),
        decreases to - i,
    {
        let b = bs[i];
        proof {
            assert(sub.take(i - from + 1).drop_last() =~= sub.take(i - from));
            assert(sub.take(i - from + 1).last() == sub[i - from]);
            assert(sub[i - from] == bs@[i as int]);
        }
        let is_hex = (48 <= b && b <= 57) || (97 <= b && b <= 102) || (65 <= b && b <= 70);
        if !is_hex {
            return None;
        }
        let d: u64 = if 48 <= b && b <= 57 {
            (b - 48) as u64
        } else if 97 <= b && b <= 102 {
            (b - 87) as u64
        } else {
            (b - 55) as u64
        };
        if acc > (u64::MAX - d) / 16 {
            proof {
                assert(acc as int * 16 + d > u64::MAX) by (nonlinear_arith)
                    requires
                        acc as int > ((u64::MAX as int) - d) / 16,
                        0 <= d <= 15,
                        acc >= 0,
                ;
                if forall|j: int| 0 <= j < sub.len() ==> is_hex_digit(#[trigger] sub[j]) {
                    lemma_hex_val_mono(sub, i - from + 1);
                }
            }
            return None;
        }
        proof {
            assert(acc as int * 16 + d <= u64::MAX) by (nonlinear_arith)
                requires
                    acc as int <= ((u64::MAX as int) - d) / 16,
                    0 <= d <= 15,
                    acc >= 0,
            ;
        }
        acc = acc * 16 + d;
        i = i + 1;
    }
    proof {
        assert(sub.take(sub.len() as int) =~= sub);
    }
    Some(acc)
}

/// The position of the first separating slash, or a negative value when
/// there is none.
pub open spec fn first_slash(bs: Seq<u8>) -> int
    decreases bs.len(),
{
    if bs.len() == 0 {
        -1
    } else if bs[0] == 47 {
        0
    } else {
        let r = first_slash(bs.drop_first());
        if r == -1 {
            -1
        } else {
            r + 1
        }
    }
}

/// Scanning forward finds the first slash.
pub proof fn lemma_first_slash(bs: Seq<u8>, i: int)
    requires
        0 <= i <= bs.len(),
        forall|j: int| 0 <= j < i ==> bs[j] != 47,
        i < bs.len() ==> bs[i] == 47,
        i == bs.len() ==> forall|j: int| 0 <= j < bs.len() ==> bs[j] != 47,
    ensures
        i < bs.len() ==> first_slash(bs) == i,
        i == bs.len() ==> first_slash(bs) == -1,
    decreases bs.len(),
{
    if bs.len() > 0 {
        if bs[0] == 47 {
        } else {
            assert forall|j: int| 0 <= j < i - 1 implies bs.drop_first()[j] != 47 by {
                assert(bs.drop_first()[j] == bs[j + 1]);
            }
            if i < bs.len() {
                assert(bs.drop_first()[i - 1] == bs[i]);
                lemma_first_slash(bs.drop_first(), i - 1);
            } else {
                assert forall|j: int| 0 <= j < bs.drop_first().len() implies bs.drop_first()[j]
                    != 47 by {
                    assert(bs.drop_first()[j] == bs[j + 1]);
                }
                lemma_first_slash(bs.drop_first(), i - 1);
            }
        }
    }
}

/// What parsing an LSN in the `hi/lo` form yields: two hexadecimal
/// halves of at most 32 bits each around the first slash.
pub open spec fn parse_lsn_spec(bs: Seq<u8>) -> Option<u64> {
    let p = first_slash(bs);
    if p < 0 {
        None
    } else {
        match (parse_hex_spec(bs.subrange(0, p)), parse_hex_spec(bs.subrange(p + 1, bs.len() as int))) {
            (Some(hi), Some(lo)) => {
                if hi <= u32::MAX && lo <= u32::MAX {
                    Some((hi * 0x100000000 + lo) as u64)
                } else {
                    None
                }
            },
            _ => None,
        }
    }
}

/// Parse an LSN in the `hi/lo` hexadecimal form.
pub fn parse_lsn(bs: &Vec<u8>) -> (r: Option<Lsn>)
    ensures
        (match r {
            Some(l) => parse_lsn_spec(bs@) == Some(l.0),
            None => parse_lsn_spec(bs@) is None,
        }),
{
    let n = bs.len();
    let mut p: usize = 0;
    while p < n && bs[p] != 47
        invariant
            p <= n,
            n == bs@.len(),
            forall|j: int| 0 <= j < p ==> bs@[j] != 47,
        decreases n - p,
    {
        p = p + 1;
    }
    proof {
        lemma_first_slash(bs@, p as int);
    }
    if p == n {
        return None;
    }
    let hi = match parse_u64_hex_range(bs, 0, p) {
        Some(v) => v,
        None => {
            return None;
        },
    };
    let lo = match parse_u64_hex_range(bs, p + 1, n) {
        Some(v) => v,
        None => {
            return None;
        },
    };
    if hi > u32::MAX as u64 || lo > u32::MAX as u64 {
        return None;
    }
    Some(Lsn(hi * 0x100000000 + lo))
}

/// Data returned by the identify-system command.
#[derive(Debug)]
pub struct IdentifySystem {
    pub systemid: u64,
    pub timeline: u32,
    pub xlogpos: Lsn,
    pub dbname: Option<Vec<u8>>,
}

/// The reply to the identify-system command could not be read.
#[derive(Clone, Copy, Debug, PartialEq, Eq, Structural)]
pub struct IdentifyError;

/// Read the row an identify-system command returned: the system
/// identifier and timeline in decimal, the WAL position in `hi/lo`
/// hexadecimal, and an optional database name. Fails iff one of the
/// first three columns is absent or malformed.
pub fn parse_identify(fields: &Vec<Option<Vec<u8>>>) -> (r: Result<IdentifySystem, IdentifyError>)
    ensures
        r is Ok <==> ({
            &&& fields@.len() > 0 && fields@[0] is Some && parse_u64_spec(
                fields@[0]->Some_0@,
            ) is Some
            &&& fields@.len() > 1 && fields@[1] is Some && (parse_u64_spec(
                fields@[1]->Some_0@,
            ) matches Some(t) && t <= u32::MAX)
            &&& fields@.len() > 2 && fields@[2] is Some && parse_lsn_spec(
                fields@[2]->Some_0@,
            ) is Some
        }),
        r matches Ok(ident) ==> Some(ident.systemid) == parse_u64_spec(fields@[0]->Some_0@)
            && parse_u64_spec(fields@[1]->Some_0@) == Some(ident.timeline as u64) && Some(
            ident.xlogpos.0,
        ) == parse_lsn_spec(fields@[2]->Some_0@) && (match ident.dbname {
            Some(ref d) => fields@.len() > 3 && (fields@[3] matches Some(f) && d@ == f@),
            None => !(fields@.len() > 3 && fields@[3] is Some),
        }),
        r matches Err(e) ==> e == IdentifyError,
{
    if fields.len() == 0 {
        return Err(IdentifyError);
    }
    let systemid = match &fields[0] {
        Some(b) => match parse_u64_dec(b) {
            Some(v) => v,
            None => {
                return Err(IdentifyError);
            },
        },
        None => {
            return Err(IdentifyError);
        },
    };
    if fields.len() < 2 {
        return Err(IdentifyError);
    }
    let timeline = match &fields[1] {
        Some(b) => match parse_u64_dec(b) {
            Some(v) => {
                if v > u32::MAX as u64 {
                    return Err(IdentifyError);
                }
                v as u32
            },
            None => {
                return Err(IdentifyError);
            },
        },
        None => {
            return Err(IdentifyError);
        },
    };
    if fields.len() < 3 {
        return Err(IdentifyError);
    }
    let xlogpos = match &fields[2] {
        Some(b) => match parse_lsn(b) {
            Some(v) => v,
            None => {
                return Err(IdentifyError);
            },
        },
        None => {
            return Err(IdentifyError);
        },
    };
    let dbname = if fields.len() > 3 {
        match &fields[3] {
            Some(b) => Some(crate::store::copy_bytes(b)),
            None => None,
        }
    } else {
        None
    };
    Ok(IdentifySystem { systemid, timeline, xlogpos, dbname })
}

} // verus!
