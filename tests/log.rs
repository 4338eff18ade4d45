use logguard::log::{parse_all_logs_in_year, parse_auth_log, parse_logs_in_year, parse_nginx_log, LogEntry, LogSource};

fn utc_text(ts: i64) -> String {
    chrono::DateTime::from_timestamp(ts, 0).unwrap().to_string()
}

#[test]
fn test_parse_valid_nginx_log() {
    let log_entry = r#"192.168.1.1 - - [12/Mar/2024:14:56:23 +0000] "GET /index.html HTTP/1.1" 200 512"#;
    let parsed = LogEntry::from_nginx_log(log_entry);

    let parsed = parsed.unwrap();
    assert_eq!(parsed.ip_address, Some("192.168.1.1".to_string()));
    assert_eq!(parsed.request, Some("GET /index.html HTTP/1.1".to_string()));
    assert_eq!(utc_text(parsed.timestamp), "2024-03-12 14:56:23 UTC".to_string());
    assert_eq!(parsed.status_code, Some(200));
}

#[test]
fn test_parse_log_with_missing_fields() {
    let log_entry = r#"192.168.1.1 - - [12/Mar/2024:14:56:23 +0000] "GET /index.html HTTP/1.1""#;
    let result = LogEntry::from_nginx_log(log_entry);
    let result = result.unwrap();
    assert_eq!(result.ip_address, Some("192.168.1.1".to_string()));
    assert_eq!(result.request, Some("GET /index.html HTTP/1.1".to_string()));
    assert_eq!(utc_text(result.timestamp), "2024-03-12 14:56:23 UTC".to_string());
    assert_eq!(result.status_code, Some(0));
    assert_eq!(result.user_agent, Some("unknown".to_string()));
}

#[test]
fn test_parse_log_with_extra_spaces() {
    let log_entry = r#"   192.168.1.1    - -   [12/Mar/2024:14:56:23 +0000]  "GET   /index.html HTTP/1.1"   200   512 "#;
    let parsed = LogEntry::from_nginx_log(log_entry);
    let parsed = parsed.unwrap();
    assert_eq!(parsed.ip_address, Some("192.168.1.1".to_string()));
    assert_eq!(parsed.request, Some("GET   /index.html HTTP/1.1".to_string()));
    assert_eq!(utc_text(parsed.timestamp), "2024-03-12 14:56:23 UTC".to_string());
    assert_eq!(parsed.status_code, Some(200));
}

#[test]
fn test_parse_log_with_empty_line() {
    let log_entry = "";
    let result = LogEntry::from_nginx_log(log_entry);

    assert!(result.is_none());
}

#[test]
fn test_parse_multiple_log_entries() {
    let logs = vec![
        r#"192.168.1.1 - - [12/Mar/2024:14:56:23 +0000] "GET /index.html HTTP/1.1" 200 512"#,
        r#"10.0.0.2 - - [12/Mar/2024:15:10:45 +0000] "POST /api/data HTTP/1.1" 201 1024"#,
    ];

    for log in logs {
        let parsed = LogEntry::from_nginx_log(log);
        let parsed = parsed.unwrap();
        assert!(parsed.ip_address.as_ref().map_or(false, |ip| !ip.is_empty()));
        assert!(parsed.status_code.unwrap_or(0) > 0);
    }
}

#[test]
fn nginx_line_with_referer_and_agent() {
    let line = r#"10.0.0.2 - - [12/Mar/2024:15:10:45 +0000] "POST /api/data HTTP/1.1" 201 1024 "https://example.com/" "curl/8.0""#;
    let f = parse_nginx_log(line).unwrap();
    assert_eq!(f.status, 201);
    assert_eq!(f.size, 1024);
    assert_eq!(f.referer, Some("https://example.com/".to_string()));
    assert_eq!(f.user_agent, Some("curl/8.0".to_string()));
    let e = LogEntry::from_nginx_log(line).unwrap();
    assert_eq!(e.source, LogSource::NginxAccess);
    assert_eq!(e.user_agent, Some("curl/8.0".to_string()));
    assert_eq!(e.user, None);
    assert_eq!(e.auth_action, None);
    assert_eq!(e.raw, line.to_string());
    assert_eq!(utc_text(e.timestamp), "2024-03-12 15:10:45 UTC");
}

#[test]
fn nginx_line_with_one_quoted_part_gives_referer_only() {
    let line = r#"10.0.0.2 - - [12/Mar/2024:15:10:45 +0000] "GET / HTTP/1.1" 200 5 "-""#;
    let f = parse_nginx_log(line).unwrap();
    assert_eq!(f.referer, Some("-".to_string()));
    assert_eq!(f.user_agent, None);
    assert_eq!(LogEntry::from_nginx_log(line).unwrap().user_agent, Some("unknown".to_string()));
}

#[test]
fn nginx_status_out_of_range_reads_zero() {
    let line = r#"1.2.3.4 - - [12/Mar/2024:14:56:23 +0000] "GET / HTTP/1.1" 70000 99999999999"#;
    let f = parse_nginx_log(line).unwrap();
    assert_eq!(f.status, 0);
    assert_eq!(f.size, 0);
    let f = parse_nginx_log(r#"1.2.3.4 - - [12/Mar/2024:14:56:23 +0000] "GET / HTTP/1.1" 065535 4294967295"#).unwrap();
    assert_eq!(f.status, 65535);
    assert_eq!(f.size, 4294967295);
}

#[test]
fn nginx_status_without_size() {
    let f = parse_nginx_log(r#"1.2.3.4 - - [12/Mar/2024:14:56:23 +0000] "GET / HTTP/1.1" 404"#).unwrap();
    assert_eq!(f.status, 404);
    assert_eq!(f.size, 0);
}

#[test]
fn nginx_fields_are_trimmed() {
    let f = parse_nginx_log(r#"1.2.3.4 - - [ 12/Mar/2024:14:56:23 +0000 ] "  GET / HTTP/1.1 " 200 1 " ref " "  agent  ""#).unwrap();
    assert_eq!(f.timestamp, "12/Mar/2024:14:56:23 +0000");
    assert_eq!(f.request, "GET / HTTP/1.1");
    assert_eq!(f.referer, Some("ref".to_string()));
    assert_eq!(f.user_agent, Some("agent".to_string()));
}

#[test]
fn malformed_nginx_lines_fail() {
    for line in [
        r#"not a log line"#,
        r#"192.168.1 - - [12/Mar/2024:14:56:23 +0000] "GET / HTTP/1.1" 200 1"#,
        r#"192.168.1.1 - [12/Mar/2024:14:56:23 +0000] "GET / HTTP/1.1" 200 1"#,
        r#"192.168.1.1 - - 12/Mar/2024:14:56:23 +0000 "GET / HTTP/1.1" 200 1"#,
        r#"192.168.1.1 - - [12/Mar/2024:14:56:23 +0000] GET / HTTP/1.1 200 1"#,
        r#"192.168.1.1 - - [12/Mar/2024:14:56:23 +0000] "" 200 1"#,
        r#"192.168.1.1 - - [12/Mar/2024:14:56:23 +0000] "GET / HTTP/1.1" 200x"#,
        r#"192.168.1.1 - - [12/Mar/2024:14:56:23 +0000] "GET / HTTP/1.1" 200 1 "unterminated"#,
    ] {
        assert!(parse_nginx_log(line).is_none(), "{}", line);
        assert!(LogEntry::from_nginx_log(line).is_none(), "{}", line);
    }
}

#[test]
fn nginx_line_with_bad_timestamp_fails() {
    let line = r#"192.168.1.1 - - [32/Foo/2024:14:56:23 +0000] "GET / HTTP/1.1" 200 1"#;
    assert!(parse_nginx_log(line).is_some());
    assert!(LogEntry::from_nginx_log(line).is_none());
}

const FAILED: &str = "Mar 12 14:56:23 host sshd[1234]: Failed password for root from 10.0.0.5 port 22 ssh2";
const ACCEPTED: &str = "Mar  2 09:00:01 web-1 sshd[77]: Accepted password for alice_2 from 192.168.0.10 port 50022 ssh2";

#[test]
fn auth_failed_line_parses() {
    let f = parse_auth_log(FAILED).unwrap();
    assert_eq!(f.stamp, "Mar 12 14:56:23");
    assert!(!f.accepted);
    assert_eq!(f.user, "root");
    assert_eq!(f.ip, "10.0.0.5");
    let e = LogEntry::from_auth_log_in_year(FAILED, "2024").unwrap();
    assert_eq!(e.source, LogSource::AuthLog);
    assert_eq!(e.ip_address, Some("10.0.0.5".to_string()));
    assert_eq!(e.user, Some("root".to_string()));
    assert_eq!(e.auth_action, Some("Failed".to_string()));
    assert_eq!(e.success, Some(false));
    assert_eq!(e.request, None);
    assert_eq!(e.status_code, None);
    assert_eq!(utc_text(e.timestamp), "2024-03-12 14:56:23 UTC");
}

#[test]
fn auth_accepted_line_parses() {
    let e = LogEntry::from_auth_log_in_year(ACCEPTED, "2023").unwrap();
    assert_eq!(e.auth_action, Some("Accepted".to_string()));
    assert_eq!(e.success, Some(true));
    assert_eq!(e.user, Some("alice_2".to_string()));
    assert_eq!(e.ip_address, Some("192.168.0.10".to_string()));
    assert_eq!(utc_text(e.timestamp), "2023-03-02 09:00:01 UTC");
    assert!(LogEntry::from_auth_log(ACCEPTED).is_some());
}

#[test]
fn lines_without_the_auth_shape_fail() {
    for line in [
        "",
        "Mar 12 14:56:23 host sshd[1234]: pam_unix(sshd:session): session opened for user root",
        "Mar 12 14:56:23 host sshd[1234]: Failed password for root from 10.0.0.5 port 22",
        "Mar 12 14:56:23 host sshd[1234]: Failed password for root from 10.0.0 port 22 ssh2",
        "Mar 12 14:56:23 host cron[1234]: Failed password for root from 10.0.0.5 port 22 ssh2",
        "Mar 12 14:56:23 host sshd[1234]: Rejected password for root from 10.0.0.5 port 22 ssh2",
        "Mar 12 host sshd[1234]: Failed password for root from 10.0.0.5 port 22 ssh2",
        "Mar 12 14:56:23 host sshd[1234]: Failed password for  from 10.0.0.5 port 22 ssh2",
        "Mar 12 14:56:23 host sshd[1234]: Failed password for root from 10.0.0.5 port x ssh2",
    ] {
        assert!(parse_auth_log(line).is_none(), "{}", line);
        assert!(LogEntry::from_auth_log_in_year(line, "2024").is_none(), "{}", line);
        assert!(LogEntry::from_auth_log(line).is_none(), "{}", line);
    }
}

#[test]
fn auth_line_with_bad_date_fails() {
    let line = "Foo 12 14:56:23 host sshd[1]: Failed password for root from 10.0.0.5 port 22 ssh2";
    assert!(parse_auth_log(line).is_some());
    assert!(LogEntry::from_auth_log_in_year(line, "2024").is_none());
}

#[test]
fn parse_logs_skips_lines_that_do_not_parse() {
    let lines = vec![
        r#"192.168.1.1 - - [12/Mar/2024:14:56:23 +0000] "GET /index.html HTTP/1.1" 200 512"#.to_string(),
        "garbage".to_string(),
        r#"10.0.0.2 - - [12/Mar/2024:15:10:45 +0000] "POST /api/data HTTP/1.1" 201 1024"#.to_string(),
    ];
    let entries = parse_logs_in_year(&lines, LogSource::NginxAccess, "2024");
    assert_eq!(entries.len(), 2);
    assert_eq!(entries[0].ip_address, Some("192.168.1.1".to_string()));
    assert_eq!(entries[1].ip_address, Some("10.0.0.2".to_string()));
    assert_eq!(parse_logs_in_year(&lines, LogSource::AuthLog, "2024").len(), 0);
}

#[test]
fn parse_all_logs_orders_by_timestamp() {
    let web = vec![
        r#"1.1.1.1 - - [12/Mar/2024:15:00:00 +0000] "GET /b HTTP/1.1" 200 1"#.to_string(),
        r#"1.1.1.2 - - [12/Mar/2024:14:00:00 +0000] "GET /a HTTP/1.1" 200 1"#.to_string(),
        r#"1.1.1.3 - - [12/Mar/2024:16:00:00 +0000] "GET /c HTTP/1.1" 200 1"#.to_string(),
    ];
    let auth = vec![
        "Mar 12 15:00:00 h sshd[1]: Failed password for bob from 2.2.2.2 port 22 ssh2".to_string(),
        "Mar 12 13:00:00 h sshd[1]: Accepted password for amy from 2.2.2.3 port 22 ssh2".to_string(),
    ];
    let all = parse_all_logs_in_year(&web, &auth, "2024");
    let ips: Vec<String> = all.iter().map(|e| e.ip_address.clone().unwrap()).collect();
    // equal timestamps keep their order: the web line comes before the auth line
    assert_eq!(ips, vec!["2.2.2.3", "1.1.1.2", "1.1.1.1", "2.2.2.2", "1.1.1.3"]);
    assert!(all.windows(2).all(|w| w[0].timestamp <= w[1].timestamp));
}

#[test]
fn parse_logs_and_parse_all_logs_with_the_current_year() {
    let web = vec![
        r#"1.1.1.1 - - [12/Mar/2024:15:00:00 +0000] "GET /b HTTP/1.1" 200 1"#.to_string(),
        r#"1.1.1.2 - - [12/Mar/2024:14:00:00 +0000] "GET /a HTTP/1.1" 200 1"#.to_string(),
    ];
    let auth = vec!["Mar 12 15:00:00 h sshd[1]: Failed password for bob from 2.2.2.2 port 22 ssh2".to_string()];
    assert_eq!(logguard::log::parse_logs(&web, LogSource::NginxAccess).len(), 2);
    assert_eq!(logguard::log::parse_logs(&auth, LogSource::AuthLog).len(), 1);
    let all = logguard::log::parse_all_logs(&web, &auth);
    assert_eq!(all.len(), 3);
    assert_eq!(all[0].ip_address, Some("1.1.1.2".to_string()));
    assert!(all.windows(2).all(|w| w[0].timestamp <= w[1].timestamp));
}

#[test]
fn nginx_size_written_as_dash_reads_zero() {
    let line = r#"1.2.3.4 - - [12/Mar/2024:14:56:23 +0000] "GET / HTTP/1.1" 200 -"#;
    let f = parse_nginx_log(line).unwrap();
    assert_eq!(f.status, 200);
    assert_eq!(f.size, 0);
    let e = LogEntry::from_nginx_log(line).unwrap();
    assert_eq!(e.status_code, Some(200));
    assert_eq!(e.request, Some("GET / HTTP/1.1".to_string()));
    let f = parse_nginx_log(r#"1.2.3.4 - - [12/Mar/2024:14:56:23 +0000] "GET / HTTP/1.1" 200 - "-" "agent""#).unwrap();
    assert_eq!(f.user_agent, Some("agent".to_string()));
    assert!(parse_nginx_log(r#"1.2.3.4 - - [12/Mar/2024:14:56:23 +0000] "GET / HTTP/1.1" 200 -x"#).is_none());
}

#[test]
fn nginx_request_needs_its_closing_quote() {
    assert!(parse_nginx_log(r#"1.2.3.4 - - [12/Mar/2024:14:56:23 +0000] "GET /"#).is_none());
    assert!(LogEntry::from_nginx_log(r#"192.168.1.1 - - [12/Mar/2024:14:56:23 +0000] "GET /index.html HTTP/1.1"#).is_none());
}

#[test]
fn nginx_offset_gives_the_utc_instant() {
    let e = LogEntry::from_nginx_log(r#"1.2.3.4 - - [12/Mar/2024:14:56:23 +0200] "GET / HTTP/1.1" 200 1"#).unwrap();
    assert_eq!(utc_text(e.timestamp), "2024-03-12 12:56:23 UTC");
}

#[test]
fn auth_line_must_match_from_start_to_end() {
    assert!(parse_auth_log(&format!("{} ", FAILED)).is_none());
    assert!(parse_auth_log(&format!(" {}", FAILED)).is_none());
    assert!(parse_auth_log(&format!("{}\n", FAILED)).is_none());
    assert!(parse_auth_log(FAILED).is_some());
}

#[test]
fn current_year_is_four_digits() {
    let y = logguard::log::current_year();
    assert_eq!(y.len(), 4);
    assert!(y.chars().all(|c| c.is_ascii_digit()));
}
