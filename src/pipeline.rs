//! Ingestion: each event is classified, failed logins go through the detector, and the
//! event is stored with the detector's decision.
use vstd::prelude::*;
use crate::db::{inserted, Database, DbLogEntry, DbLogEntryView};
use crate::failed_login::{attempt_outcome, FailedLogins};
use crate::log::{entry_views, opt_view, LogEntry, LogEntryView, LogSource};
use crate::text::{ipv4_key, ipv4_key_of};
use crate::time::{decimal_digits, decimal_text, utc_text, utc_text_of};

verus! {

/// What became of one event.
pub struct Disposition {
    /// The detector flagged the event's origin.
    pub flagged: bool,
    /// The store took the event's row.
    pub stored: bool,
}

/// Counts over a run of events.
pub struct IngestSummary {
    pub stored: usize,
    pub flagged: usize,
    pub store_failures: usize,
}

/// An authentication line that reports a failed password.
pub open spec fn is_failed_login(e: LogEntryView) -> bool {
    e.source == LogSource::AuthLog && e.success == Some(false)
}

/// The detector key of the origin of a failed login, where its address is an IPv4 address.
pub open spec fn attempt_origin(e: LogEntryView) -> Option<u128> {
    if is_failed_login(e) {
        match e.ip_address {
            Some(ip) => ipv4_key(ip),
            None => None,
        }
    } else {
        None
    }
}

/// The second at which the detector counts the event: its timestamp, or 0 before the epoch.
pub open spec fn attempt_second(e: LogEntryView) -> u64 {
    if e.timestamp < 0 {
        0
    } else {
        e.timestamp as u64
    }
}

/// What the detector does with one event.
pub open spec fn detector_step(old: FailedLogins, new: FailedLogins, e: LogEntryView, flagged: bool) -> bool {
    match attempt_origin(e) {
        Some(k) => attempt_outcome(old, new, k, attempt_second(e), flagged),
        None => new == old && !flagged,
    }
}

pub open spec fn text_or_empty(o: Option<Seq<char>>) -> Seq<char> {
    match o {
        Some(s) => s,
        None => Seq::empty(),
    }
}

/// The row stored for event `e` with the detector's decision `flagged`. Absent fields are
/// empty; the raw line is the row's id, so that storing an event again replaces its row.
pub open spec fn event_row(e: LogEntryView, flagged: bool) -> DbLogEntryView {
    DbLogEntryView {
        id: e.raw,
        timestamp: text_or_empty(utc_text_of(e.timestamp)),
        source_ip: text_or_empty(e.ip_address),
        event_type: match e.source {
            LogSource::NginxAccess => "http_request"@,
            LogSource::AuthLog => if e.success == Some(true) {
                "login_success"@
            } else {
                "login_failure"@
            },
        },
        targeted_service: match e.source {
            LogSource::NginxAccess => "nginx"@,
            LogSource::AuthLog => "sshd"@,
        },
        targeted_endpoint: match e.source {
            LogSource::NginxAccess => text_or_empty(e.request),
            LogSource::AuthLog => text_or_empty(e.user),
        },
        request: text_or_empty(e.request),
        status: match e.status_code {
            Some(c) => decimal_digits(c as nat),
            None => Seq::empty(),
        },
        action_taken: if flagged {
            "block"@
        } else {
            "allow"@
        },
        threat_level: if flagged {
            "high"@
        } else if is_failed_login(e) {
            "medium"@
        } else {
            "low"@
        },
    }
}

fn copy_or_empty(o: &Option<String>) -> (r: String)
    ensures
        r@ == text_or_empty(opt_view(*o)),
{
    match o {
        Some(s) => s.clone(),
        None => String::new(),
    }
}

/// The row stored for `e` with the detector's decision `flagged`.
pub fn row_for_event(e: &LogEntry, flagged: bool) -> (r: DbLogEntry)
    ensures
        r@ == event_row(e@, flagged),
{
    let timestamp = match utc_text(e.timestamp) {
        Some(t) => t,
        None => String::new(),
    };
    let is_failed = match (e.source, e.success) {
        (LogSource::AuthLog, Some(false)) => true,
        _ => false,
    };
    DbLogEntry {
        id: e.raw.clone(),
        timestamp,
        source_ip: copy_or_empty(&e.ip_address),
        event_type: match e.source {
            LogSource::NginxAccess => "http_request".to_owned(),
            LogSource::AuthLog => match e.success {
                Some(true) => "login_success".to_owned(),
                _ => "login_failure".to_owned(),
            },
        },
        targeted_service: match e.source {
            LogSource::NginxAccess => "nginx".to_owned(),
            LogSource::AuthLog => "sshd".to_owned(),
        },
        targeted_endpoint: match e.source {
            LogSource::NginxAccess => copy_or_empty(&e.request),
            LogSource::AuthLog => copy_or_empty(&e.user),
        },
        request: copy_or_empty(&e.request),
        status: match e.status_code {
            Some(c) => decimal_text(c),
            None => String::new(),
        },
        action_taken: if flagged {
            "block".to_owned()
        } else {
            "allow".to_owned()
        },
        threat_level: if flagged {
            "high".to_owned()
        } else if is_failed {
            "medium".to_owned()
        } else {
            "low".to_owned()
        },
    }
}

/// Runs one event through the detector, where it is a failed login from an IPv4 address,
/// and hands its row to the store.
pub fn ingest_event<D: Database>(detector: &mut FailedLogins, store: &mut D, event: &LogEntry) -> (r:
    Disposition)
    requires
        old(store).valid(),
        old(detector).wf(),
    ensures
        final(store).valid(),
        final(detector).wf(),
        detector_step(*old(detector), *final(detector), event@, r.flagged),
        r.stored ==> inserted(
            old(store).stored_rows(),
            event_row(event@, r.flagged),
            final(store).stored_rows(),
        ),
        !r.stored ==> final(store).stored_rows() == old(store).stored_rows(),
{
    let is_failed = match (event.source, event.success) {
        (LogSource::AuthLog, Some(false)) => true,
        _ => false,
    };
    let origin = if is_failed {
        match &event.ip_address {
            Some(ip) => ipv4_key_of(ip.as_str()),
            None => None,
        }
    } else {
        None
    };
    let flagged = match origin {
        Some(k) => {
            let second: u64 = if event.timestamp < 0 {
                0
            } else {
                event.timestamp as u64
            };
            detector.register_attempt_at(k, second)
        },
        None => false,
    };
    let row = row_for_event(event, flagged);
    let stored = match store.insert_log(row) {
        Ok(()) => true,
        Err(_) => false,
    };
    Disposition { flagged, stored }
}

/// `events` were ingested one after the other: the detector went through the states `ds`
/// and the store through `ss`, and event `i` had disposition `outs[i]`.
pub open spec fn ingest_run(
    ds: Seq<FailedLogins>,
    ss: Seq<Seq<DbLogEntryView>>,
    events: Seq<LogEntryView>,
    outs: Seq<Disposition>,
) -> bool {
    &&& ds.len() == events.len() + 1
    &&& ss.len() == events.len() + 1
    &&& outs.len() == events.len()
    &&& forall|i: int|
        0 <= i < events.len() ==> {
            &&& detector_step(ds[i], ds[i + 1], events[i], (#[trigger] outs[i]).flagged)
            &&& outs[i].stored ==> inserted(ss[i], event_row(events[i], outs[i].flagged), ss[i + 1])
            &&& !outs[i].stored ==> ss[i + 1] == ss[i]
        }
}

/// Ingests `events` in order; the result holds what became of each.
pub fn ingest_events<D: Database>(
    detector: &mut FailedLogins,
    store: &mut D,
    events: &Vec<LogEntry>,
) -> (r: Vec<Disposition>)
    requires
        old(store).valid(),
        old(detector).wf(),
    ensures
        final(store).valid(),
        final(detector).wf(),
        exists|ds: Seq<FailedLogins>, ss: Seq<Seq<DbLogEntryView>>|
            #[trigger] ingest_run(ds, ss, entry_views(events@), r@) && ds[0] == *old(detector)
                && ds.last() == *final(detector) && ss[0] == old(store).stored_rows() && ss.last()
                == final(store).stored_rows(),
{
    let mut outs: Vec<Disposition> = Vec::new();
    let ghost mut ds = seq![*detector];
    let ghost mut ss = seq![store.stored_rows()];
    let ghost evs = entry_views(events@);
    let mut i: usize = 0;
    while i < events.len()
        invariant
            i <= events.len(),
            evs == entry_views(events@),
            store.valid(),
            detector.wf(),
            ingest_run(ds, ss, evs.take(i as int), outs@),
            ds[0] == *old(detector),
            ds.last() == *detector,
            ss[0] == old(store).stored_rows(),
            ss.last() == store.stored_rows(),
        decreases events.len() - i,
    {
        let d = ingest_event(detector, store, &events[i]);
        proof {
            let ds0 = ds;
            let ss0 = ss;
            ds = ds.push(*detector);
            ss = ss.push(store.stored_rows());
            assert(evs[i as int] == events@[i as int]@);
            assert forall|k: int| 0 <= k < i + 1 implies #[trigger] evs.take(i + 1)[k] == evs[k] by {}
            assert(ds[i as int] == ds0.last());
            assert(ss[i as int] == ss0.last());
            assert forall|k: int| 0 <= k < i implies ds[k] == ds0[k] && ds[k + 1] == ds0[k + 1]
                && ss[k] == ss0[k] && ss[k + 1] == ss0[k + 1] && evs.take(i + 1)[k] == evs.take(
                i as int,
            )[k] by {}
        }
        outs.push(d);
        proof {
            let n = (i + 1) as int;
            assert forall|k: int| 0 <= k < n implies {
                &&& detector_step(ds[k], ds[k + 1], evs.take(n)[k], (#[trigger] outs@[k]).flagged)
                &&& outs@[k].stored ==> inserted(ss[k], event_row(evs.take(n)[k], outs@[k].flagged), ss[k + 1])
                &&& !outs@[k].stored ==> ss[k + 1] == ss[k]
            } by {
                if k < i {
                    assert(evs.take(n)[k] == evs.take(i as int)[k]);
                }
            }
        }
        i = i + 1;
    }
    assert(evs.take(events.len() as int) =~= evs);
    outs
}

/// The number of dispositions that satisfy `pick`.
pub open spec fn count_where(outs: Seq<Disposition>, pick: spec_fn(Disposition) -> bool) -> nat
    decreases outs.len(),
{
    if outs.len() == 0 {
        0
    } else {
        count_where(outs.drop_last(), pick) + if pick(outs.last()) {
            1nat
        } else {
            0nat
        }
    }
}

/// Counts the events that were stored, that were flagged and whose store failed.
pub fn summarize(outs: &Vec<Disposition>) -> (r: IngestSummary)
    ensures
        r.stored == count_where(outs@, |d: Disposition| d.stored),
        r.flagged == count_where(outs@, |d: Disposition| d.flagged),
        r.store_failures == count_where(outs@, |d: Disposition| !d.stored),
{
    let mut summary = IngestSummary { stored: 0, flagged: 0, store_failures: 0 };
    let mut i: usize = 0;
    while i < outs.len()
        invariant
            i <= outs.len(),
            summary.stored == count_where(outs@.take(i as int), |d: Disposition| d.stored),
            summary.flagged == count_where(outs@.take(i as int), |d: Disposition| d.flagged),
            summary.store_failures == count_where(outs@.take(i as int), |d: Disposition| !d.stored),
            summary.stored <= i && summary.flagged <= i && summary.store_failures <= i,
        decreases outs.len() - i,
    {
        assert(outs@.take(i + 1).drop_last() =~= outs@.take(i as int));
        if outs[i].stored {
            summary.stored = summary.stored + 1;
        } else {
            summary.store_failures = summary.store_failures + 1;
        }
        if outs[i].flagged {
            summary.flagged = summary.flagged + 1;
        }
        i = i + 1;
    }
    assert(outs@.take(outs.len() as int) =~= outs@);
    summary
}

} // verus!
