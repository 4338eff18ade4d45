//! Stored log rows and the in-memory store.
use vstd::prelude::*;

verus! {

/// The number of rows that the durable store returns where no limit is given.
pub const DEFAULT_FETCH_LIMIT: u32 = 50;

/// A stored log row. `id` and `timestamp` are assigned by the store.
#[derive(Clone, Debug)]
pub struct DbLogEntry {
    pub id: String,
    pub timestamp: String,
    pub source_ip: String,
    pub event_type: String,
    pub targeted_service: String,
    pub targeted_endpoint: String,
    pub request: String,
    pub status: String,
    pub action_taken: String,
    pub threat_level: String,
}

pub struct DbLogEntryView {
    pub id: Seq<char>,
    pub timestamp: Seq<char>,
    pub source_ip: Seq<char>,
    pub event_type: Seq<char>,
    pub targeted_service: Seq<char>,
    pub targeted_endpoint: Seq<char>,
    pub request: Seq<char>,
    pub status: Seq<char>,
    pub action_taken: Seq<char>,
    pub threat_level: Seq<char>,
}

impl View for DbLogEntry {
    type V = DbLogEntryView;

    open spec fn view(&self) -> DbLogEntryView {
        DbLogEntryView {
            id: self.id@,
            timestamp: self.timestamp@,
            source_ip: self.source_ip@,
            event_type: self.event_type@,
            targeted_service: self.targeted_service@,
            targeted_endpoint: self.targeted_endpoint@,
            request: self.request@,
            status: self.status@,
            action_taken: self.action_taken@,
            threat_level: self.threat_level@,
        }
    }
}

impl DbLogEntry {
    /// A copy of this row.
    pub fn duplicate(&self) -> (r: DbLogEntry)
        ensures
            r@ == self@,
    {
        DbLogEntry {
            id: self.id.clone(),
            timestamp: self.timestamp.clone(),
            source_ip: self.source_ip.clone(),
            event_type: self.event_type.clone(),
            targeted_service: self.targeted_service.clone(),
            targeted_endpoint: self.targeted_endpoint.clone(),
            request: self.request.clone(),
            status: self.status.clone(),
            action_taken: self.action_taken.clone(),
            threat_level: self.threat_level.clone(),
        }
    }
}

/// The columns that a client writes: a stored row without its store-assigned `id` and
/// `timestamp`.
#[derive(Clone, Debug)]
pub struct DbLogRow {
    pub source_ip: String,
    pub event_type: String,
    pub request: String,
    pub status: String,
    pub threat_level: String,
    pub targeted_service: String,
    pub targeted_endpoint: String,
    pub action_taken: String,
}

/// What a bulk insert reports.
pub struct InsertResult {
    pub rows: u64,
    pub bytes: u64,
    pub error: Option<String>,
}

/// `r` holds the client-written columns of `e`.
pub open spec fn row_of(e: DbLogEntryView, r: DbLogRow) -> bool {
    &&& r.source_ip@ == e.source_ip
    &&& r.event_type@ == e.event_type
    &&& r.request@ == e.request
    &&& r.status@ == e.status
    &&& r.threat_level@ == e.threat_level
    &&& r.targeted_service@ == e.targeted_service
    &&& r.targeted_endpoint@ == e.targeted_endpoint
    &&& r.action_taken@ == e.action_taken
}

impl DbLogRow {
    /// The client-written columns of `e`.
    pub fn from_entry(e: &DbLogEntry) -> (r: DbLogRow)
        ensures
            row_of(e@, r),
    {
        DbLogRow {
            source_ip: e.source_ip.clone(),
            event_type: e.event_type.clone(),
            request: e.request.clone(),
            status: e.status.clone(),
            threat_level: e.threat_level.clone(),
            targeted_service: e.targeted_service.clone(),
            targeted_endpoint: e.targeted_endpoint.clone(),
            action_taken: e.action_taken.clone(),
        }
    }
}

/// The rows that a bulk insert of `logs` writes, one per entry and in order.
pub fn rows_for_insert(logs: &Vec<DbLogEntry>) -> (r: Vec<DbLogRow>)
    ensures
        r@.len() == logs@.len(),
        forall|i: int| 0 <= i < r@.len() ==> row_of(logs@[i]@, #[trigger] r@[i]),
{
    let mut out: Vec<DbLogRow> = Vec::new();
    let mut i: usize = 0;
    while i < logs.len()
        invariant
            i <= logs.len(),
            out@.len() == i,
            forall|k: int| 0 <= k < i ==> row_of(logs@[k]@, #[trigger] out@[k]),
        decreases logs.len() - i,
    {
        out.push(DbLogRow::from_entry(&logs[i]));
        i = i + 1;
    }
    out
}

/// The row limit of a read from the durable store.
pub fn fetch_limit(limit: Option<u32>) -> (r: u32)
    ensures
        r == match limit {
            Some(k) => k,
            None => DEFAULT_FETCH_LIMIT,
        },
{
    match limit {
        Some(k) => k,
        None => DEFAULT_FETCH_LIMIT,
    }
}

/// `a` comes strictly before `b` in character order.
pub open spec fn text_before(a: Seq<char>, b: Seq<char>) -> bool
    decreases a.len(),
{
    if a.len() == 0 {
        b.len() > 0
    } else if b.len() == 0 {
        false
    } else if a[0] != b[0] {
        (a[0] as u32) < (b[0] as u32)
    } else {
        text_before(a.drop_first(), b.drop_first())
    }
}

pub proof fn lemma_text_before_irreflexive(a: Seq<char>)
    ensures
        !text_before(a, a),
    decreases a.len(),
{
    if a.len() > 0 {
        lemma_text_before_irreflexive(a.drop_first());
    }
}

pub proof fn lemma_text_before_transitive(a: Seq<char>, b: Seq<char>, c: Seq<char>)
    requires
        text_before(a, b),
        text_before(b, c),
    ensures
        text_before(a, c),
    decreases a.len(),
{
    if a.len() > 0 && b.len() > 0 && c.len() > 0 && a[0] == b[0] && b[0] == c[0] {
        lemma_text_before_transitive(a.drop_first(), b.drop_first(), c.drop_first());
    }
}

fn text_before_exec(a: &str, b: &str) -> (r: bool)
    ensures
        r == text_before(a@, b@),
{
    let n = a.unicode_len();
    let m = b.unicode_len();
    let mut i: usize = 0;
    assert(a@.subrange(0, n as int) =~= a@);
    assert(b@.subrange(0, m as int) =~= b@);
    while i < n && i < m && a.get_char(i) == b.get_char(i)
        invariant
            n == a@.len(),
            m == b@.len(),
            i <= n,
            i <= m,
            text_before(a@.subrange(i as int, n as int), b@.subrange(i as int, m as int))
                == text_before(a@, b@),
        decreases n - i,
    {
        assert(a@.subrange(i as int, n as int).drop_first() =~= a@.subrange(i + 1, n as int));
        assert(b@.subrange(i as int, m as int).drop_first() =~= b@.subrange(i + 1, m as int));
        i = i + 1;
    }
    if i == n {
        i < m
    } else if i == m {
        false
    } else {
        (a.get_char(i) as u32) < (b.get_char(i) as u32)
    }
}

pub open spec fn entry_views(s: Seq<DbLogEntry>) -> Seq<DbLogEntryView> {
    s.map_values(|e: DbLogEntry| e@)
}

/// Rows ordered by timestamp, latest first.
pub open spec fn latest_first(s: Seq<DbLogEntryView>) -> bool {
    forall|i: int, j: int|
        0 <= i < j < s.len() ==> !text_before(#[trigger] s[i].timestamp, #[trigger] s[j].timestamp)
}

/// No two rows share an id.
pub open spec fn ids_unique(s: Seq<DbLogEntryView>) -> bool {
    forall|i: int, j: int| 0 <= i < s.len() && 0 <= j < s.len() && i != j ==> #[trigger] s[i].id != #[trigger] s[j].id
}

/// An in-memory store of rows, keyed by id and kept latest first.
pub struct MockDB {
    logs: Vec<DbLogEntry>,
}

/// The rows that a read with `limit` returns from `stored`: the first `limit` of them, or
/// the first `DEFAULT_FETCH_LIMIT` where no limit is given.
pub open spec fn fetched_rows(stored: Seq<DbLogEntryView>, limit: Option<u32>) -> Seq<DbLogEntryView> {
    let k = match limit {
        Some(k) => k,
        None => DEFAULT_FETCH_LIMIT,
    };
    if k as int <= stored.len() {
        stored.take(k as int)
    } else {
        stored
    }
}

/// `new` is `old` with `log` inserted: `log` replaces the row with its id, if any, and every
/// other row stays.
pub open spec fn inserted(old: Seq<DbLogEntryView>, log: DbLogEntryView, new: Seq<DbLogEntryView>) -> bool {
    &&& new.contains(log)
    &&& forall|i: int| 0 <= i < new.len() && #[trigger] new[i].id == log.id ==> new[i] == log
    &&& forall|x: DbLogEntryView| x.id != log.id ==> (#[trigger] new.contains(x) <==> old.contains(x))
}

impl MockDB {
    /// The rows held, latest first.
    pub closed spec fn stored(&self) -> Seq<DbLogEntryView> {
        entry_views(self.logs@)
    }

    /// The rows are latest first and their ids are distinct.
    pub open spec fn wf(&self) -> bool {
        latest_first(self.stored()) && ids_unique(self.stored())
    }

    pub fn new() -> (r: MockDB)
        ensures
            r.wf(),
            r.stored().len() == 0,
    {
        MockDB { logs: Vec::new() }
    }

    /// Stores `log`, replacing the row with the same id.
    pub fn insert_log(&mut self, log: DbLogEntry) -> (r: Result<(), String>)
        requires
            old(self).wf(),
        ensures
            final(self).wf(),
            r is Ok,
            inserted(old(self).stored(), log@, final(self).stored()),
    {
        let ghost s0 = self.stored();
        let mut i: usize = 0;
        while i < self.logs.len() && self.logs[i].id != log.id
            invariant
                i <= self.logs.len(),
                self.stored() == s0,
                forall|k: int| 0 <= k < i ==> (#[trigger] s0[k]).id != log@.id,
            decreases self.logs.len() - i,
        {
            i = i + 1;
        }
        if i < self.logs.len() {
            assert(s0[i as int] == self.logs@[i as int]@);
            assert(s0[i as int].id == log@.id);
            self.logs.remove(i);
            proof {
                let s1 = s0.remove(i as int);
                assert(self.stored() =~= s1);
                assert forall|a: int, b: int| 0 <= a < b < s1.len() implies !text_before(
                    #[trigger] s1[a].timestamp,
                    #[trigger] s1[b].timestamp,
                ) by {
                    let a0 = if a < i { a } else { a + 1 };
                    let b0 = if b < i { b } else { b + 1 };
                    assert(s1[a] == s0[a0] && s1[b] == s0[b0]);
                }
                assert forall|a: int, b: int| 0 <= a < s1.len() && 0 <= b < s1.len() && a != b implies #[trigger] s1[a].id != #[trigger] s1[b].id by {
                    let a0 = if a < i { a } else { a + 1 };
                    let b0 = if b < i { b } else { b + 1 };
                    assert(s1[a] == s0[a0] && s1[b] == s0[b0]);
                }
                assert forall|k: int| 0 <= k < s1.len() implies (#[trigger] s1[k]).id != log@.id by {
                    let k0 = if k < i { k } else { k + 1 };
                    assert(s1[k] == s0[k0]);
                }
                assert forall|x: DbLogEntryView| x.id != log@.id implies (#[trigger] s1.contains(x) <==> s0.contains(x)) by {
                    if s0.contains(x) {
                        let k = choose|k: int| 0 <= k < s0.len() && s0[k] == x;
                        assert(k != i);
                        let k1 = if k < i { k } else { k - 1 };
                        assert(s1[k1] == x);
                    }
                    if s1.contains(x) {
                        let k = choose|k: int| 0 <= k < s1.len() && s1[k] == x;
                        let k0 = if k < i { k } else { k + 1 };
                        assert(s0[k0] == x);
                    }
                }
            }
        }
        let ghost s1 = self.stored();
        let mut p: usize = 0;
        while p < self.logs.len() && !text_before_exec(self.logs[p].timestamp.as_str(), log.timestamp.as_str())
            invariant
                p <= self.logs.len(),
                self.stored() == s1,
                forall|k: int| 0 <= k < p ==> !text_before((#[trigger] s1[k]).timestamp, log@.timestamp),
            decreases self.logs.len() - p,
        {
            p = p + 1;
        }
        let ghost lv = log@;
        self.logs.insert(p, log);
        proof {
            let s2 = s1.insert(p as int, lv);
            assert(self.stored() =~= s2);
            assert(s2[p as int] == lv);
            assert forall|a: int, b: int| 0 <= a < b < s2.len() implies !text_before(
                #[trigger] s2[a].timestamp,
                #[trigger] s2[b].timestamp,
            ) by {
                if a < p && b == p {
                } else if a < p && b > p {
                    assert(s2[a] == s1[a] && s2[b] == s1[b - 1]);
                } else if a < p {
                    assert(s2[a] == s1[a] && s2[b] == s1[b]);
                } else if a == p {
                    assert(s2[b] == s1[b - 1]);
                    assert(text_before(s1[p as int].timestamp, lv.timestamp));
                    if text_before(lv.timestamp, s1[b - 1].timestamp) {
                        lemma_text_before_transitive(s1[p as int].timestamp, lv.timestamp, s1[b - 1].timestamp);
                        if b - 1 == p {
                            lemma_text_before_irreflexive(s1[p as int].timestamp);
                        }
                    }
                } else {
                    assert(s2[a] == s1[a - 1] && s2[b] == s1[b - 1]);
                }
            }
            assert forall|a: int, b: int| 0 <= a < s2.len() && 0 <= b < s2.len() && a != b implies #[trigger] s2[a].id != #[trigger] s2[b].id by {
                let a1 = if a < p { a } else { a - 1 };
                let b1 = if b < p { b } else { b - 1 };
                if a != p && b != p {
                    assert(s2[a] == s1[a1] && s2[b] == s1[b1]);
                } else if a == p {
                    assert(s2[b] == s1[b1]);
                } else {
                    assert(s2[a] == s1[a1]);
                }
            }
            assert(s2.contains(lv));
            assert forall|k: int| 0 <= k < s2.len() && #[trigger] s2[k].id == lv.id implies s2[k] == lv by {
                if k < p {
                    assert(s2[k] == s1[k]);
                } else if k > p {
                    assert(s2[k] == s1[k - 1]);
                }
            }
            assert forall|x: DbLogEntryView| x.id != lv.id implies (#[trigger] s2.contains(x) <==> s0.contains(x)) by {
                if s1.contains(x) {
                    let k = choose|k: int| 0 <= k < s1.len() && s1[k] == x;
                    let k2 = if k < p { k } else { k + 1 };
                    assert(s2[k2] == x);
                }
                if s2.contains(x) {
                    let k = choose|k: int| 0 <= k < s2.len() && s2[k] == x;
                    assert(k != p);
                    let k1 = if k < p { k } else { k - 1 };
                    assert(s1[k1] == x);
                }
                assert(s1.contains(x) <==> s0.contains(x));
            }
        }
        Ok(())
    }

    /// The first `limit` rows, latest first; the first `DEFAULT_FETCH_LIMIT` where no
    /// limit is given.
    pub fn fetch_logs(&self, limit: Option<u32>) -> (r: Result<Vec<DbLogEntry>, String>)
        ensures
            r matches Ok(rows) && entry_views(rows@) == fetched_rows(self.stored(), limit),
    {
        let k = fetch_limit(limit);
        let n: usize = if (k as usize) <= self.logs.len() {
            k as usize
        } else {
            self.logs.len()
        };
        let mut rows: Vec<DbLogEntry> = Vec::new();
        let mut i: usize = 0;
        while i < n
            invariant
                n <= self.logs.len(),
                i <= n,
                entry_views(rows@) == self.stored().take(i as int),
            decreases n - i,
        {
            assert(self.stored()[i as int] == self.logs@[i as int]@);
            let d = self.logs[i].duplicate();
            let ghost before = rows@;
            rows.push(d);
            assert(entry_views(rows@) =~= entry_views(before).push(d@));
            i = i + 1;
            assert(entry_views(rows@) =~= self.stored().take(i as int));
        }
        assert(self.stored().take(self.logs.len() as int) =~= self.stored());
        Ok(rows)
    }
}

/// A store of log rows.
pub trait Database {
    /// The rows held, in the order in which a read returns them.
    spec fn stored_rows(&self) -> Seq<DbLogEntryView>;

    /// The store's own invariant.
    spec fn valid(&self) -> bool;

    /// Stores `log`, replacing the row with the same id.
    fn insert_log(&mut self, log: DbLogEntry) -> (r: Result<(), String>)
        requires
            old(self).valid(),
        ensures
            final(self).valid(),
            r is Ok ==> inserted(old(self).stored_rows(), log@, final(self).stored_rows()),
            r is Err ==> final(self).stored_rows() == old(self).stored_rows(),
    ;

    /// The first `limit` rows, latest first, or the first `DEFAULT_FETCH_LIMIT` where no
    /// limit is given.
    fn fetch_logs(&self, limit: Option<u32>) -> (r: Result<Vec<DbLogEntry>, String>)
        requires
            self.valid(),
        ensures
            r matches Ok(rows) ==> entry_views(rows@) == fetched_rows(self.stored_rows(), limit),
    ;
}

impl Database for MockDB {
    open spec fn stored_rows(&self) -> Seq<DbLogEntryView> {
        self.stored()
    }

    open spec fn valid(&self) -> bool {
        self.wf()
    }

    fn insert_log(&mut self, log: DbLogEntry) -> (r: Result<(), String>) {
        MockDB::insert_log(self, log)
    }

    fn fetch_logs(&self, limit: Option<u32>) -> (r: Result<Vec<DbLogEntry>, String>) {
        MockDB::fetch_logs(self, limit)
    }
}

/// Insert, then read: where the store holds no more rows than a read without a limit
/// returns, a row that was inserted is among them; and a read with limit `k` returns at
/// most `k` rows, latest first.
pub proof fn lemma_insert_then_fetch(
    before: Seq<DbLogEntryView>,
    log: DbLogEntryView,
    after: Seq<DbLogEntryView>,
    k: u32,
)
    requires
        inserted(before, log, after),
        latest_first(after),
        after.len() <= DEFAULT_FETCH_LIMIT,
    ensures
        fetched_rows(after, None).contains(log),
        fetched_rows(after, Some(k)).len() <= k,
        latest_first(fetched_rows(after, Some(k))),
{
    assert(fetched_rows(after, None) == after);
    let r = fetched_rows(after, Some(k));
    if k as int <= after.len() {
        assert forall|i: int, j: int| 0 <= i < j < r.len() implies !text_before(
            #[trigger] r[i].timestamp,
            #[trigger] r[j].timestamp,
        ) by {
            assert(r[i] == after[i] && r[j] == after[j]);
        }
    }
}

} // verus!
