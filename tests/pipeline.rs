use logguard::db::MockDB;
use logguard::failed_login::FailedLogins;
use logguard::log::LogEntry;
use logguard::pipeline::{ingest_event, ingest_events, row_for_event, summarize};
use logguard::text::ipv4_key_of;

fn failed(ip: &str, time: &str, port: u32) -> LogEntry {
    let line = format!("Mar 12 {} host sshd[1]: Failed password for root from {} port {} ssh2", time, ip, port);
    LogEntry::from_auth_log_in_year(&line, "2024").unwrap()
}

#[test]
fn ipv4_keys() {
    assert_eq!(ipv4_key_of("192.168.1.1"), Some(0xC0A8_0101));
    assert_eq!(ipv4_key_of("0.0.0.0"), Some(0));
    assert_eq!(ipv4_key_of("255.255.255.255"), Some(0xFFFF_FFFF));
    assert_eq!(ipv4_key_of("010.000.001.002"), Some(0x0A00_0102));
    assert_eq!(ipv4_key_of("256.1.1.1"), None);
    assert_eq!(ipv4_key_of("1.1.1.999"), None);
    assert_eq!(ipv4_key_of("1.1.1.0001"), None);
    assert_eq!(ipv4_key_of("1.1.1"), None);
    assert_eq!(ipv4_key_of("1.1.1.1 "), None);
    assert_eq!(ipv4_key_of(""), None);
}

#[test]
fn web_event_row() {
    let line = r#"192.168.1.1 - - [12/Mar/2024:14:56:23 +0000] "GET /index.html HTTP/1.1" 200 512"#;
    let e = LogEntry::from_nginx_log(line).unwrap();
    let row = row_for_event(&e, false);
    assert_eq!(row.id, line);
    assert_eq!(row.timestamp, "2024-03-12 14:56:23");
    assert_eq!(row.source_ip, "192.168.1.1");
    assert_eq!(row.event_type, "http_request");
    assert_eq!(row.targeted_service, "nginx");
    assert_eq!(row.request, "GET /index.html HTTP/1.1");
    assert_eq!(row.status, "200");
    assert_eq!(row.action_taken, "allow");
    assert_eq!(row.threat_level, "low");
}

#[test]
fn auth_event_row() {
    let e = failed("10.0.0.5", "14:56:23", 22);
    let row = row_for_event(&e, true);
    assert_eq!(row.event_type, "login_failure");
    assert_eq!(row.targeted_service, "sshd");
    assert_eq!(row.targeted_endpoint, "root");
    assert_eq!(row.request, "");
    assert_eq!(row.status, "");
    assert_eq!(row.action_taken, "block");
    assert_eq!(row.threat_level, "high");
    assert_eq!(row_for_event(&e, false).threat_level, "medium");
}

#[test]
fn repeated_failures_get_flagged_and_stored() {
    let mut detector = FailedLogins::new_at(3, 100, 1, 1, 60, 0);
    let mut store = MockDB::new();
    let events = vec![
        failed("10.0.0.5", "14:56:20", 1),
        failed("10.0.0.5", "14:56:21", 2),
        failed("10.0.0.6", "14:56:21", 3),
        failed("10.0.0.5", "14:56:22", 4),
    ];
    let flags: Vec<bool> = events.iter().map(|e| ingest_event(&mut detector, &mut store, e).flagged).collect();
    assert_eq!(flags, vec![false, false, false, true]);
    let rows = store.fetch_logs(None).unwrap();
    assert_eq!(rows.len(), 4);
    assert_eq!(rows[0].action_taken, "block");
    assert_eq!(rows[0].timestamp, "2024-03-12 14:56:22");
}

#[test]
fn successful_logins_and_web_hits_skip_the_detector() {
    let mut detector = FailedLogins::new_at(1, 1, 1, 1, 60, 0);
    let mut store = MockDB::new();
    let ok = LogEntry::from_auth_log_in_year(
        "Mar 12 14:56:23 h sshd[1]: Accepted password for amy from 2.2.2.3 port 22 ssh2",
        "2024",
    )
    .unwrap();
    let web = LogEntry::from_nginx_log(r#"2.2.2.3 - - [12/Mar/2024:14:56:23 +0000] "GET / HTTP/1.1" 200 1"#).unwrap();
    let d1 = ingest_event(&mut detector, &mut store, &ok);
    let d2 = ingest_event(&mut detector, &mut store, &web);
    assert!(!d1.flagged && d1.stored);
    assert!(!d2.flagged && d2.stored);
    assert_eq!(detector.per_minute.entries.len(), 0);
}

#[test]
fn batch_summary_counts() {
    let mut detector = FailedLogins::new_at(2, 100, 1, 1, 60, 0);
    let mut store = MockDB::new();
    let events = vec![
        failed("10.0.0.5", "14:56:20", 1),
        failed("10.0.0.5", "14:56:21", 2),
        failed("10.0.0.5", "14:56:21", 2),
    ];
    let outs = ingest_events(&mut detector, &mut store, &events);
    assert_eq!(outs.iter().map(|d| d.flagged).collect::<Vec<_>>(), vec![false, true, true]);
    let s = summarize(&outs);
    assert_eq!(s.stored, 3);
    assert_eq!(s.store_failures, 0);
    assert_eq!(s.flagged, 2);
    // the last event repeats the second line: its row replaces the earlier one
    assert_eq!(store.fetch_logs(None).unwrap().len(), 2);
}
