use logguard::db::{fetch_limit, rows_for_insert, Database, DbLogEntry, DbLogRow, MockDB, DEFAULT_FETCH_LIMIT};

fn entry(id: &str, timestamp: &str) -> DbLogEntry {
    DbLogEntry {
        id: id.to_string(),
        timestamp: timestamp.to_string(),
        source_ip: "192.168.1.1".to_string(),
        event_type: "login".to_string(),
        targeted_service: "auth".to_string(),
        targeted_endpoint: "/login".to_string(),
        request: "POST /login".to_string(),
        status: "200".to_string(),
        action_taken: "allow".to_string(),
        threat_level: "low".to_string(),
    }
}

fn ids(rows: &[DbLogEntry]) -> Vec<String> {
    rows.iter().map(|r| r.id.clone()).collect()
}

#[test]
fn test_fetch_logs() {
    let mut db = MockDB::new();

    let log = entry("123", "2021-01-01T00:00:00");

    let result = db.insert_log(log).unwrap();
    assert_eq!(result, ());

    let logs = db.fetch_logs(None).unwrap();
    assert_eq!(logs.len(), 1);
}

#[test]
fn inserted_row_is_fetched_back() {
    let mut db = MockDB::new();
    db.insert_log(entry("a", "2024-01-01T00:00:00")).unwrap();
    let logs = db.fetch_logs(None).unwrap();
    assert_eq!(logs.len(), 1);
    let row = &logs[0];
    assert_eq!(row.id, "a");
    assert_eq!(row.timestamp, "2024-01-01T00:00:00");
    assert_eq!(row.source_ip, "192.168.1.1");
    assert_eq!(row.event_type, "login");
    assert_eq!(row.targeted_service, "auth");
    assert_eq!(row.targeted_endpoint, "/login");
    assert_eq!(row.request, "POST /login");
    assert_eq!(row.status, "200");
    assert_eq!(row.action_taken, "allow");
    assert_eq!(row.threat_level, "low");
}

#[test]
fn ten_generated_rows_are_all_fetched() {
    let mut db = MockDB::new();
    for i in 0..10 {
        db.insert_log(entry(&format!("id-{}", i), &format!("2024-01-01T00:00:{:02}", i))).unwrap();
    }
    let logs = db.fetch_logs(None).unwrap();
    assert_eq!(logs.len(), 10);
}

#[test]
fn fetch_without_limit_returns_at_most_fifty() {
    let mut db = MockDB::new();
    for i in 0..51 {
        db.insert_log(entry(&format!("id-{}", i), &format!("2024-01-01T00:{:02}:00", i))).unwrap();
    }
    let logs = db.fetch_logs(None).unwrap();
    assert_eq!(logs.len(), 50);
    assert_eq!(logs[0].id, "id-50");
    assert_eq!(logs[49].id, "id-1");
    assert_eq!(db.fetch_logs(Some(51)).unwrap().len(), 51);
}

#[test]
fn fetch_is_latest_first_and_bounded() {
    let mut db = MockDB::new();
    db.insert_log(entry("b", "2024-01-02")).unwrap();
    db.insert_log(entry("a", "2024-01-01")).unwrap();
    db.insert_log(entry("d", "2024-01-04")).unwrap();
    db.insert_log(entry("c", "2024-01-03")).unwrap();
    assert_eq!(ids(&db.fetch_logs(None).unwrap()), vec!["d", "c", "b", "a"]);
    assert_eq!(ids(&db.fetch_logs(Some(2)).unwrap()), vec!["d", "c"]);
    assert_eq!(db.fetch_logs(Some(0)).unwrap().len(), 0);
    assert_eq!(db.fetch_logs(Some(100)).unwrap().len(), 4);
}

#[test]
fn equal_timestamps_keep_insertion_order() {
    let mut db = MockDB::new();
    db.insert_log(entry("x", "2024-01-01")).unwrap();
    db.insert_log(entry("y", "2024-01-01")).unwrap();
    db.insert_log(entry("z", "2023-12-31")).unwrap();
    assert_eq!(ids(&db.fetch_logs(None).unwrap()), vec!["x", "y", "z"]);
}

#[test]
fn insert_with_known_id_replaces_the_row() {
    let mut db = MockDB::new();
    db.insert_log(entry("a", "2024-01-01")).unwrap();
    db.insert_log(entry("b", "2024-01-02")).unwrap();
    let mut newer = entry("a", "2024-01-03");
    newer.threat_level = "high".to_string();
    db.insert_log(newer).unwrap();
    let logs = db.fetch_logs(None).unwrap();
    assert_eq!(ids(&logs), vec!["a", "b"]);
    assert_eq!(logs[0].threat_level, "high");
}

#[test]
fn store_is_usable_through_the_trait() {
    fn store_and_read<D: Database>(db: &mut D, e: DbLogEntry) -> usize {
        Database::insert_log(db, e).unwrap();
        Database::fetch_logs(db, None).unwrap().len()
    }
    let mut db = MockDB::new();
    assert_eq!(store_and_read(&mut db, entry("1", "2024")), 1);
    assert_eq!(store_and_read(&mut db, entry("2", "2025")), 2);
}

#[test]
fn rows_for_insert_drop_store_fields() {
    let logs = vec![entry("1", "t1"), entry("2", "t2")];
    let rows: Vec<DbLogRow> = rows_for_insert(&logs);
    assert_eq!(rows.len(), 2);
    assert_eq!(rows[0].source_ip, "192.168.1.1");
    assert_eq!(rows[1].action_taken, "allow");
    assert_eq!(rows[1].threat_level, "low");
    assert_eq!(rows[0].request, "POST /login");
}

#[test]
fn fetch_limit_defaults_to_fifty() {
    assert_eq!(fetch_limit(None), 50);
    assert_eq!(DEFAULT_FETCH_LIMIT, 50);
    assert_eq!(fetch_limit(Some(7)), 7);
}
