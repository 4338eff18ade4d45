//! Log lines of the supported sources and their canonical event.
use vstd::prelude::*;
use crate::text::{
    digits_value, is_digit, is_space, find_char, find_from, ipv4_end, ipv4_end_at, lemma_span_end_bounds,
    literal_at, matches_at, clock_end, clock_end_at, scan_start, span_start, number_end, number_end_at, scan_end, span_end, trim_bounds,
    trim_of, bounded_value, chars_of, string_of, CharClass,
};
use crate::time::{
    naive_timestamp_of, offset_timestamp_of, parse_naive_timestamp, parse_offset_timestamp,
    unix_now_secs, utc_text,
};

verus! {

/// The format of the bracketed timestamp of a web access line.
pub const WEB_TIME_FORMAT: &'static str = "%d/%b/%Y:%H:%M:%S %z";

/// The format of a syslog timestamp once a year has been put in front of it.
pub const AUTH_TIME_FORMAT: &'static str = "%Y %b %d %H:%M:%S";

/// The kind of source that a line came from.
#[derive(Clone, Copy, Debug, PartialEq, Eq, Structural)]
pub enum LogSource {
    NginxAccess,
    AuthLog,
}

/// The fields of a web access line, before its timestamp is read.
pub struct WebFields {
    pub ip: String,
    pub timestamp: String,
    pub request: String,
    pub status: u16,
    pub size: u32,
    pub referer: Option<String>,
    pub user_agent: Option<String>,
}

pub struct WebFieldsView {
    pub ip: Seq<char>,
    pub timestamp: Seq<char>,
    pub request: Seq<char>,
    pub status: u16,
    pub size: u32,
    pub referer: Option<Seq<char>>,
    pub user_agent: Option<Seq<char>>,
}

pub open spec fn opt_view(o: Option<String>) -> Option<Seq<char>> {
    match o {
        Some(s) => Some(s@),
        None => None,
    }
}

impl View for WebFields {
    type V = WebFieldsView;

    open spec fn view(&self) -> WebFieldsView {
        WebFieldsView {
            ip: self.ip@,
            timestamp: self.timestamp@,
            request: self.request@,
            status: self.status,
            size: self.size,
            referer: opt_view(self.referer),
            user_agent: opt_view(self.user_agent),
        }
    }
}

/// Address, `- -` and bracketed timestamp: the positions of the address and of the
/// timestamp's text, and the position after the closing bracket.
pub open spec fn web_head(s: Seq<char>) -> Option<(int, int, int, int)> {
    let p = span_end(s, 0, CharClass::Space);
    match ipv4_end(s, p) {
        None => None,
        Some(a) => {
            let q = span_end(s, a, CharClass::Space);
            let r = span_end(s, q + 3, CharClass::Space);
            if q > a && matches_at(s, q, seq!['-', ' ', '-']) && r > q + 3 && r < s.len()
                && s[r] == '[' {
                let e = find_char(s, r + 1, ']');
                if e > r + 1 && e < s.len() {
                    Some((p, a, r + 1, e))
                } else {
                    None
                }
            } else {
                None
            }
        },
    }
}

/// The quoted request after position `t`: its text's positions and the position after
/// the closing quote.
pub open spec fn web_request(s: Seq<char>, t: int) -> Option<(int, int, int)> {
    let u = span_end(s, t, CharClass::Space);
    if u > t && u < s.len() && s[u] == '"' {
        let e = find_char(s, u + 1, '"');
        if e > u + 1 && e < s.len() {
            Some((u + 1, e, e + 1))
        } else {
            None
        }
    } else {
        None
    }
}

/// An optional number after whitespace from `t`: its positions and where parsing goes on.
/// A `-` in its place stands for a number that is not known, and reads as none.
pub open spec fn number_part(s: Seq<char>, t: int) -> (Option<(int, int)>, int) {
    let w = span_end(s, t, CharClass::Space);
    if w > t {
        match number_end(s, w) {
            Some(d) => (Some((w, d)), d),
            None => if w < s.len() && s[w] == '-' {
                (None, w + 1)
            } else {
                (None, t)
            },
        }
    } else {
        (None, t)
    }
}

/// An optional quoted text after whitespace from `t`: its positions and where parsing
/// goes on.
pub open spec fn quoted_part(s: Seq<char>, t: int) -> (Option<(int, int)>, int) {
    let w = span_end(s, t, CharClass::Space);
    if w > t && w < s.len() && s[w] == '"' {
        let e = find_char(s, w + 1, '"');
        if e < s.len() {
            (Some((w + 1, e)), e + 1)
        } else {
            (None, t)
        }
    } else {
        (None, t)
    }
}

/// The value of an optional number when it is at most `max`; 0 otherwise.
pub open spec fn value_or_zero(s: Seq<char>, part: Option<(int, int)>, max: nat) -> nat {
    match part {
        Some((a, b)) => if digits_value(s.subrange(a, b)) <= max {
            digits_value(s.subrange(a, b))
        } else {
            0
        },
        None => 0,
    }
}

pub open spec fn trimmed_part(s: Seq<char>, part: Option<(int, int)>) -> Option<Seq<char>> {
    match part {
        Some((a, b)) => Some(trim_of(s, a, b)),
        None => None,
    }
}

/// The fields of a web access line:
/// `<address> - - [<timestamp>] "<request>" [<status> [<size>]] ["<referer>" ["<agent>"]]`,
/// with whitespace of any length between the parts and around the line. A `-` in place of
/// the status or the size reads as 0, as does a number too large for its type.
pub open spec fn web_fields_of(s: Seq<char>) -> Option<WebFieldsView> {
    match web_head(s) {
        None => None,
        Some(h) => match web_request(s, h.3 + 1) {
            None => None,
            Some(q) => {
                let st = number_part(s, q.2);
                let sz = number_part(s, st.1);
                let rf = quoted_part(s, sz.1);
                let ua = quoted_part(s, rf.1);
                if span_end(s, ua.1, CharClass::Space) == s.len() {
                    Some(
                        WebFieldsView {
                            ip: s.subrange(h.0, h.1),
                            timestamp: trim_of(s, h.2, h.3),
                            request: trim_of(s, q.0, q.1),
                            status: value_or_zero(s, st.0, 65535) as u16,
                            size: value_or_zero(s, sz.0, 4294967295) as u32,
                            referer: trimmed_part(s, rf.0),
                            user_agent: trimmed_part(s, ua.0),
                        },
                    )
                } else {
                    None
                }
            },
        },
    }
}

fn web_head_at(v: &Vec<char>) -> (r: Option<(usize, usize, usize, usize)>)
    ensures
        match r {
            Some(h) => web_head(v@) == Some((h.0 as int, h.1 as int, h.2 as int, h.3 as int))
                && h.0 <= h.1 && h.1 <= h.2 && h.2 < h.3 < v.len(),
            None => web_head(v@) is None,
        },
{
    let p = scan_end(v, 0, CharClass::Space);
    let a = match ipv4_end_at(v, p) {
        Some(a) => a,
        None => return None,
    };
    let q = scan_end(v, a, CharClass::Space);
    proof {
        reveal_strlit("- -");
        assert("- -"@ =~= seq!['-', ' ', '-']);
    }
    if !(q > a && literal_at(v, q, "- -")) {
        return None;
    }
    let r = scan_end(v, q + 3, CharClass::Space);
    if !(r > q + 3 && r < v.len() && v[r] == '[') {
        return None;
    }
    let e = find_from(v, r + 1, ']');
    if e > r + 1 && e < v.len() {
        Some((p, a, r + 1, e))
    } else {
        None
    }
}

fn web_request_at(v: &Vec<char>, t: usize) -> (r: Option<(usize, usize, usize)>)
    requires
        t <= v.len(),
    ensures
        match r {
            Some(q) => web_request(v@, t as int) == Some((q.0 as int, q.1 as int, q.2 as int))
                && q.0 <= q.1 <= q.2 <= v.len(),
            None => web_request(v@, t as int) is None,
        },
{
    let u = scan_end(v, t, CharClass::Space);
    if !(u > t && u < v.len() && v[u] == '"') {
        return None;
    }
    let e = find_from(v, u + 1, '"');
    if e > u + 1 && e < v.len() {
        Some((u + 1, e, e + 1))
    } else {
        None
    }
}

fn number_part_at(v: &Vec<char>, t: usize) -> (r: (Option<(usize, usize)>, usize))
    requires
        t <= v.len(),
    ensures
        number_part(v@, t as int).1 == r.1 as int,
        r.1 <= v.len(),
        match r.0 {
            Some(p) => number_part(v@, t as int).0 == Some((p.0 as int, p.1 as int)) && p.0
                <= p.1 <= v.len() && forall|i: int| p.0 <= i < p.1 ==> is_digit(#[trigger] v@[i]),
            None => number_part(v@, t as int).0 is None,
        },
{
    let w = scan_end(v, t, CharClass::Space);
    if w > t {
        match number_end_at(v, w) {
            Some(d) => {
                proof {
                    lemma_span_end_bounds(v@, w as int, CharClass::Digit);
                }
                (Some((w, d)), d)
            },
            None => if w < v.len() && v[w] == '-' {
                (None, w + 1)
            } else {
                (None, t)
            },
        }
    } else {
        (None, t)
    }
}

fn quoted_part_at(v: &Vec<char>, t: usize) -> (r: (Option<(usize, usize)>, usize))
    requires
        t <= v.len(),
    ensures
        quoted_part(v@, t as int).1 == r.1 as int,
        r.1 <= v.len(),
        match r.0 {
            Some(p) => quoted_part(v@, t as int).0 == Some((p.0 as int, p.1 as int)) && p.0
                <= p.1 <= v.len(),
            None => quoted_part(v@, t as int).0 is None,
        },
{
    let w = scan_end(v, t, CharClass::Space);
    if w > t && w < v.len() && v[w] == '"' {
        let e = find_from(v, w + 1, '"');
        if e < v.len() {
            (Some((w + 1, e)), e + 1)
        } else {
            (None, t)
        }
    } else {
        (None, t)
    }
}

fn value_or_zero_at(v: &Vec<char>, part: Option<(usize, usize)>, max: u64) -> (r: u64)
    requires
        match part {
            Some(p) => p.0 <= p.1 <= v.len() && forall|i: int|
                p.0 <= i < p.1 ==> is_digit(#[trigger] v@[i]),
            None => true,
        },
    ensures
        r == value_or_zero(
            v@,
            match part {
                Some(p) => Some((p.0 as int, p.1 as int)),
                None => None,
            },
            max as nat,
        ),
        r <= max,
{
    match part {
        Some(p) => bounded_value(v, p.0, p.1, max),
        None => 0,
    }
}

fn trimmed_string(line: &str, v: &Vec<char>, lo: usize, hi: usize) -> (r: String)
    requires
        v@ == line@,
        lo <= hi <= v.len(),
    ensures
        r@ == trim_of(v@, lo as int, hi as int),
{
    let (a, b) = trim_bounds(v, lo, hi);
    string_of(line, a, b)
}

fn trimmed_part_at(line: &str, v: &Vec<char>, part: Option<(usize, usize)>) -> (r: Option<
    String,
>)
    requires
        v@ == line@,
        match part {
            Some(p) => p.0 <= p.1 <= v.len(),
            None => true,
        },
    ensures
        opt_view(r) == trimmed_part(
            v@,
            match part {
                Some(p) => Some((p.0 as int, p.1 as int)),
                None => None,
            },
        ),
{
    match part {
        Some(p) => Some(trimmed_string(line, v, p.0, p.1)),
        None => None,
    }
}

/// Splits a web access line into its fields; `None` where the line does not have the
/// shape of one.
pub fn parse_nginx_log(line: &str) -> (r: Option<WebFields>)
    ensures
        match r {
            Some(f) => web_fields_of(line@) == Some(f@),
            None => web_fields_of(line@) is None,
        },
{
    let v = chars_of(line);
    let h = match web_head_at(&v) {
        Some(h) => h,
        None => return None,
    };
    let q = match web_request_at(&v, h.3 + 1) {
        Some(q) => q,
        None => return None,
    };
    let st = number_part_at(&v, q.2);
    let sz = number_part_at(&v, st.1);
    let rf = quoted_part_at(&v, sz.1);
    let ua = quoted_part_at(&v, rf.1);
    if scan_end(&v, ua.1, CharClass::Space) != v.len() {
        return None;
    }
    let status = value_or_zero_at(&v, st.0, 65535) as u16;
    let size = value_or_zero_at(&v, sz.0, 4294967295) as u32;
    Some(
        WebFields {
            ip: string_of(line, h.0, h.1),
            timestamp: trimmed_string(line, &v, h.2, h.3),
            request: trimmed_string(line, &v, q.0, q.1),
            status,
            size,
            referer: trimmed_part_at(line, &v, rf.0),
            user_agent: trimmed_part_at(line, &v, ua.0),
        },
    )
}

/// One parsed log line.
pub struct LogEntry {
    /// Seconds since the Unix epoch, UTC.
    pub timestamp: i64,
    pub source: LogSource,
    pub ip_address: Option<String>,
    pub user: Option<String>,
    pub request: Option<String>,
    /// The HTTP status; 0 where the line gives none or one that is out of range.
    pub status_code: Option<u16>,
    pub user_agent: Option<String>,
    pub auth_action: Option<String>,
    pub success: Option<bool>,
    pub raw: String,
}

pub struct LogEntryView {
    pub timestamp: i64,
    pub source: LogSource,
    pub ip_address: Option<Seq<char>>,
    pub user: Option<Seq<char>>,
    pub request: Option<Seq<char>>,
    pub status_code: Option<u16>,
    pub user_agent: Option<Seq<char>>,
    pub auth_action: Option<Seq<char>>,
    pub success: Option<bool>,
    pub raw: Seq<char>,
}

impl View for LogEntry {
    type V = LogEntryView;

    open spec fn view(&self) -> LogEntryView {
        LogEntryView {
            timestamp: self.timestamp,
            source: self.source,
            ip_address: opt_view(self.ip_address),
            user: opt_view(self.user),
            request: opt_view(self.request),
            status_code: self.status_code,
            user_agent: opt_view(self.user_agent),
            auth_action: opt_view(self.auth_action),
            success: self.success,
            raw: self.raw@,
        }
    }
}

pub open spec fn entry_view(o: Option<LogEntry>) -> Option<LogEntryView> {
    match o {
        Some(e) => Some(e@),
        None => None,
    }
}

/// The event of a web access line with fields `f`, read at `timestamp`.
pub open spec fn web_entry(line: Seq<char>, f: WebFieldsView, timestamp: i64) -> LogEntryView {
    LogEntryView {
        timestamp,
        source: LogSource::NginxAccess,
        ip_address: Some(f.ip),
        user: None,
        request: Some(f.request),
        status_code: Some(f.status),
        user_agent: Some(
            match f.user_agent {
                Some(a) => a,
                None => "unknown"@,
            },
        ),
        auth_action: None,
        success: None,
        raw: line,
    }
}

/// The event of a web access line: `None` where the line lacks the shape or chrono cannot
/// read its timestamp.
pub open spec fn nginx_entry_of(line: Seq<char>) -> Option<LogEntryView> {
    match web_fields_of(line) {
        None => None,
        Some(f) => match offset_timestamp_of(f.timestamp, WEB_TIME_FORMAT@) {
            None => None,
            Some(t) => Some(web_entry(line, f, t)),
        },
    }
}

/// Builds the event of the web access line `line`, whose fields are `f` and whose
/// timestamp reads as `timestamp`.
pub fn entry_from_web_fields(line: &str, f: WebFields, timestamp: i64) -> (r: LogEntry)
    ensures
        r@ == web_entry(line@, f@, timestamp),
{
    let user_agent = match f.user_agent {
        Some(a) => a,
        None => "unknown".to_owned(),
    };
    LogEntry {
        timestamp,
        source: LogSource::NginxAccess,
        ip_address: Some(f.ip),
        user: None,
        request: Some(f.request),
        status_code: Some(f.status),
        user_agent: Some(user_agent),
        auth_action: None,
        success: None,
        raw: line.to_owned(),
    }
}

impl LogEntry {
    /// Parses a web access line.
    pub fn from_nginx_log(line: &str) -> (r: Option<LogEntry>)
        ensures
            entry_view(r) == nginx_entry_of(line@),
    {
        let f = match parse_nginx_log(line) {
            Some(f) => f,
            None => return None,
        };
        match parse_offset_timestamp(f.timestamp.as_str(), WEB_TIME_FORMAT) {
            Some(t) => Some(entry_from_web_fields(line, f, t)),
            None => None,
        }
    }
}

/// The fields of an authentication line, before its timestamp is read.
pub struct AuthFields {
    pub stamp: String,
    pub accepted: bool,
    pub user: String,
    pub ip: String,
}

pub struct AuthFieldsView {
    pub stamp: Seq<char>,
    pub accepted: bool,
    pub user: Seq<char>,
    pub ip: Seq<char>,
}

impl View for AuthFields {
    type V = AuthFieldsView;

    open spec fn view(&self) -> AuthFieldsView {
        AuthFieldsView { stamp: self.stamp@, accepted: self.accepted, user: self.user@, ip: self.ip@ }
    }
}

/// The syslog timestamp `<month> <day> <hh:mm:ss>` that opens the line at its first
/// character, followed by a space: its positions.
pub open spec fn auth_stamp(s: Seq<char>) -> Option<(int, int)> {
    let p = 0;
    let m = span_end(s, p, CharClass::Word);
    let d = span_end(s, m, CharClass::Space);
    match number_end(s, d) {
        None => None,
        Some(de) => {
            let c = span_end(s, de, CharClass::Space);
            if m > p && d > m && c > de {
                match clock_end(s, c) {
                    Some(te) => if te < s.len() && s[te] == ' ' {
                        Some((p, te))
                    } else {
                        None
                    },
                    None => None,
                }
            } else {
                None
            }
        },
    }
}

/// The end of the line, read from the right:
/// `]: (Failed|Accepted) password for <user> from <address> port <port> ssh2`.
/// Gives the position of `]: `, whether the verb is `Accepted`, and the positions of the
/// user and of the address.
pub open spec fn auth_tail(s: Seq<char>) -> Option<(int, bool, int, int, int, int)> {
    let e = s.len() as int;
    let pd = e - 5;
    let ps = span_start(s, pd, CharClass::Digit);
    let ipe = ps - 6;
    let ips = span_start(s, ipe, CharClass::DottedDigit);
    let ue = ips - 6;
    let us = span_start(s, ue, CharClass::Word);
    let ve = us - 14;
    let accepted = matches_at(s, ve - 8, "Accepted"@);
    let vs = if accepted {
        ve - 8
    } else {
        ve - 6
    };
    if matches_at(s, pd, " ssh2"@) && ps < pd && matches_at(s, ipe, " port "@) && ipv4_end(
        s,
        ips,
    ) == Some(ipe) && matches_at(s, ue, " from "@) && us < ue && matches_at(
        s,
        ve,
        " password for "@,
    ) && (accepted || matches_at(s, ve - 6, "Failed"@)) && matches_at(s, vs - 3, "]: "@) {
        Some((vs - 3, accepted, us, ue, ips, ipe))
    } else {
        None
    }
}

/// ` sshd[` stands within `s[lo..hi]`.
pub open spec fn has_daemon_tag(s: Seq<char>, lo: int, hi: int) -> bool {
    exists|k: int| lo <= k && k + 6 <= hi && #[trigger] matches_at(s, k, " sshd["@)
}

/// The fields of an authentication line:
/// `<month> <day> <hh:mm:ss> ... sshd[...]: (Failed|Accepted) password for <user> from
/// <address> port <port> ssh2`, from the first character to the last, with spaces of any
/// number between the parts of the timestamp.
pub open spec fn auth_fields_of(s: Seq<char>) -> Option<AuthFieldsView> {
    match (auth_stamp(s), auth_tail(s)) {
        (Some(st), Some(t)) => if has_daemon_tag(s, st.1 + 1, t.0) {
            Some(
                AuthFieldsView {
                    stamp: s.subrange(st.0, st.1),
                    accepted: t.1,
                    user: s.subrange(t.2, t.3),
                    ip: s.subrange(t.4, t.5),
                },
            )
        } else {
            None
        },
        _ => None,
    }
}

fn auth_stamp_at(v: &Vec<char>) -> (r: Option<(usize, usize)>)
    ensures
        match r {
            Some(st) => auth_stamp(v@) == Some((st.0 as int, st.1 as int)) && st.0 <= st.1
                < v.len(),
            None => auth_stamp(v@) is None,
        },
{
    let p: usize = 0;
    let m = scan_end(v, p, CharClass::Word);
    let d = scan_end(v, m, CharClass::Space);
    let de = match number_end_at(v, d) {
        Some(de) => de,
        None => return None,
    };
    let c = scan_end(v, de, CharClass::Space);
    if !(m > p && d > m && c > de) {
        return None;
    }
    match clock_end_at(v, c) {
        Some(te) => if te < v.len() && v[te] == ' ' {
            Some((p, te))
        } else {
            None
        },
        None => None,
    }
}

fn auth_tail_at(v: &Vec<char>) -> (r: Option<(usize, bool, usize, usize, usize, usize)>)
    ensures
        match r {
            Some(t) => auth_tail(v@) == Some(
                (t.0 as int, t.1, t.2 as int, t.3 as int, t.4 as int, t.5 as int),
            ) && t.2 <= t.3 <= v.len() && t.4 <= t.5 <= v.len() && t.0 <= v.len(),
            None => auth_tail(v@) is None,
        },
{
    let e = v.len();
    if e < 5 || !literal_at(v, e - 5, " ssh2") {
        return None;
    }
    let pd = e - 5;
    let ps = scan_start(v, pd, CharClass::Digit);
    if !(ps < pd) || ps < 6 || !literal_at(v, ps - 6, " port ") {
        return None;
    }
    let ipe = ps - 6;
    let ips = scan_start(v, ipe, CharClass::DottedDigit);
    match ipv4_end_at(v, ips) {
        Some(x) => if x != ipe {
            return None;
        },
        None => return None,
    }
    if ips < 6 || !literal_at(v, ips - 6, " from ") {
        return None;
    }
    let ue = ips - 6;
    let us = scan_start(v, ue, CharClass::Word);
    if !(us < ue) || us < 14 || !literal_at(v, us - 14, " password for ") {
        return None;
    }
    let ve = us - 14;
    let accepted = ve >= 8 && literal_at(v, ve - 8, "Accepted");
    if !accepted && !(ve >= 6 && literal_at(v, ve - 6, "Failed")) {
        return None;
    }
    let vs = if accepted {
        ve - 8
    } else {
        ve - 6
    };
    if vs < 3 || !literal_at(v, vs - 3, "]: ") {
        return None;
    }
    Some((vs - 3, accepted, us, ue, ips, ipe))
}

fn has_daemon_tag_at(v: &Vec<char>, lo: usize, hi: usize) -> (r: bool)
    requires
        hi <= v.len(),
    ensures
        r == has_daemon_tag(v@, lo as int, hi as int),
{
    let mut k = lo;
    while k <= hi && hi - k >= 6
        invariant
            hi <= v.len(),
            lo <= k,
            forall|j: int| lo <= j < k ==> !#[trigger] matches_at(v@, j, " sshd["@),
        decreases hi - k,
    {
        if literal_at(v, k, " sshd[") {
            return true;
        }
        k = k + 1;
    }
    assert forall|j: int| lo <= j && j + 6 <= hi implies !#[trigger] matches_at(
        v@,
        j,
        " sshd["@,
    ) by {
        assert(j < k);
    }
    false
}

/// Splits an authentication line into its fields; `None` where the line does not have the
/// shape of one.
pub fn parse_auth_log(line: &str) -> (r: Option<AuthFields>)
    ensures
        match r {
            Some(f) => auth_fields_of(line@) == Some(f@),
            None => auth_fields_of(line@) is None,
        },
{
    let v = chars_of(line);
    let st = match auth_stamp_at(&v) {
        Some(st) => st,
        None => return None,
    };
    let t = match auth_tail_at(&v) {
        Some(t) => t,
        None => return None,
    };
    if !has_daemon_tag_at(&v, st.1 + 1, t.0) {
        return None;
    }
    Some(
        AuthFields {
            stamp: string_of(line, st.0, st.1),
            accepted: t.1,
            user: string_of(line, t.2, t.3),
            ip: string_of(line, t.4, t.5),
        },
    )
}

/// The event of an authentication line with fields `f`, read at `timestamp`.
pub open spec fn auth_entry(line: Seq<char>, f: AuthFieldsView, timestamp: i64) -> LogEntryView {
    LogEntryView {
        timestamp,
        source: LogSource::AuthLog,
        ip_address: Some(f.ip),
        user: Some(f.user),
        request: None,
        status_code: None,
        user_agent: None,
        auth_action: Some(
            if f.accepted {
                "Accepted"@
            } else {
                "Failed"@
            },
        ),
        success: Some(f.accepted),
        raw: line,
    }
}

/// The text handed to chrono for a syslog timestamp: the year, a space and the stamp.
pub open spec fn dated_stamp(year: Seq<char>, stamp: Seq<char>) -> Seq<char> {
    year + " "@ + stamp
}

/// The event of an authentication line whose timestamp is taken to fall in `year`:
/// `None` where the line lacks the shape or chrono cannot read the timestamp.
pub open spec fn auth_entry_of(line: Seq<char>, year: Seq<char>) -> Option<LogEntryView> {
    match auth_fields_of(line) {
        None => None,
        Some(f) => match naive_timestamp_of(dated_stamp(year, f.stamp), AUTH_TIME_FORMAT@) {
            None => None,
            Some(t) => Some(auth_entry(line, f, t)),
        },
    }
}

/// Builds the event of the authentication line `line`, whose fields are `f` and whose
/// timestamp reads as `timestamp`.
pub fn entry_from_auth_fields(line: &str, f: AuthFields, timestamp: i64) -> (r: LogEntry)
    ensures
        r@ == auth_entry(line@, f@, timestamp),
{
    let action = if f.accepted {
        "Accepted".to_owned()
    } else {
        "Failed".to_owned()
    };
    LogEntry {
        timestamp,
        source: LogSource::AuthLog,
        ip_address: Some(f.ip),
        user: Some(f.user),
        request: None,
        status_code: None,
        user_agent: None,
        auth_action: Some(action),
        success: Some(f.accepted),
        raw: line.to_owned(),
    }
}

/// The current year in UTC as text, read from the clock; empty where chrono cannot write
/// the current time.
pub fn current_year() -> String {
    let now = unix_now_secs();
    let t: i64 = if now <= 9223372036854775807u64 {
        now as i64
    } else {
        9223372036854775807i64
    };
    match utc_text(t) {
        Some(text) => {
            let v = chars_of(text.as_str());
            let e = find_from(&v, 0, '-');
            string_of(text.as_str(), 0, e)
        },
        None => String::new(),
    }
}

impl LogEntry {
    /// Parses an authentication line whose timestamp, which names no year, falls in `year`.
    pub fn from_auth_log_in_year(line: &str, year: &str) -> (r: Option<LogEntry>)
        ensures
            entry_view(r) == auth_entry_of(line@, year@),
    {
        let f = match parse_auth_log(line) {
            Some(f) => f,
            None => return None,
        };
        let mut text = year.to_owned();
        text.append(" ");
        text.append(f.stamp.as_str());
        match parse_naive_timestamp(text.as_str(), AUTH_TIME_FORMAT) {
            Some(t) => Some(entry_from_auth_fields(line, f, t)),
            None => None,
        }
    }

    /// Parses an authentication line; its timestamp is taken to fall in the current year.
    pub fn from_auth_log(line: &str) -> (r: Option<LogEntry>)
        ensures
            exists|year: Seq<char>| entry_view(r) == #[trigger] auth_entry_of(line@, year),
            auth_fields_of(line@) is None ==> r is None,
    {
        let year = current_year();
        LogEntry::from_auth_log_in_year(line, year.as_str())
    }

    /// Parses a line of the given source.
    pub fn parse_line(line: &str, source: LogSource, year: &str) -> (r: Option<LogEntry>)
        ensures
            entry_view(r) == match source {
                LogSource::NginxAccess => nginx_entry_of(line@),
                LogSource::AuthLog => auth_entry_of(line@, year@),
            },
    {
        match source {
            LogSource::NginxAccess => LogEntry::from_nginx_log(line),
            LogSource::AuthLog => LogEntry::from_auth_log_in_year(line, year),
        }
    }
}

pub open spec fn entry_views(v: Seq<LogEntry>) -> Seq<LogEntryView> {
    v.map_values(|e: LogEntry| e@)
}

/// The event of a line of the given source, where it has one.
pub open spec fn line_entry_of(line: Seq<char>, source: LogSource, year: Seq<char>) -> Option<
    LogEntryView,
> {
    match source {
        LogSource::NginxAccess => nginx_entry_of(line),
        LogSource::AuthLog => auth_entry_of(line, year),
    }
}

/// The events of `lines`, in their order; lines without one are skipped.
pub open spec fn entries_of(lines: Seq<String>, source: LogSource, year: Seq<char>) -> Seq<
    LogEntryView,
>
    decreases lines.len(),
{
    if lines.len() == 0 {
        Seq::empty()
    } else {
        let rest = entries_of(lines.drop_last(), source, year);
        match line_entry_of(lines.last()@, source, year) {
            Some(e) => rest.push(e),
            None => rest,
        }
    }
}

/// The first position of `s` whose event is later than `t`, or the length.
pub open spec fn first_later(s: Seq<LogEntryView>, t: i64) -> int
    decreases s.len(),
{
    if s.len() == 0 {
        0
    } else if s[0].timestamp > t {
        0
    } else {
        1 + first_later(s.drop_first(), t)
    }
}

/// `x` put into `s` after every event that is not later than it.
pub open spec fn insert_by_time(s: Seq<LogEntryView>, x: LogEntryView) -> Seq<LogEntryView> {
    s.insert(first_later(s, x.timestamp), x)
}

/// `s` ordered by timestamp, events with equal timestamps kept in their order in `s`.
pub open spec fn sort_by_time(s: Seq<LogEntryView>) -> Seq<LogEntryView>
    decreases s.len(),
{
    if s.len() == 0 {
        Seq::empty()
    } else {
        insert_by_time(sort_by_time(s.drop_last()), s.last())
    }
}

proof fn lemma_first_later_step(s: Seq<LogEntryView>, t: i64, i: int)
    requires
        0 <= i < s.len(),
        forall|j: int| 0 <= j < i ==> s[j].timestamp <= t,
    ensures
        s[i].timestamp > t ==> first_later(s, t) == i,
        0 <= first_later(s, t) <= s.len(),
        first_later(s, t) >= i,
    decreases i,
{
    if i > 0 {
        lemma_first_later_step(s.drop_first(), t, i - 1);
    } else {
        lemma_first_later_bounds(s, t);
    }
}

proof fn lemma_first_later_bounds(s: Seq<LogEntryView>, t: i64)
    ensures
        0 <= first_later(s, t) <= s.len(),
        (forall|j: int| 0 <= j < s.len() ==> s[j].timestamp <= t) ==> first_later(s, t)
            == s.len(),
    decreases s.len(),
{
    if s.len() > 0 {
        lemma_first_later_bounds(s.drop_first(), t);
        if forall|j: int| 0 <= j < s.len() ==> s[j].timestamp <= t {
            assert forall|j: int| 0 <= j < s.drop_first().len() implies s.drop_first()[j].timestamp
                <= t by {
                assert(s.drop_first()[j] == s[j + 1]);
            }
        }
    }
}

fn insert_entry_by_time(out: &mut Vec<LogEntry>, e: LogEntry)
    ensures
        entry_views(final(out)@) == insert_by_time(entry_views(old(out)@), e@),
{
    let ghost s = entry_views(out@);
    let mut i: usize = 0;
    while i < out.len() && out[i].timestamp <= e.timestamp
        invariant
            s == entry_views(out@),
            i <= out.len(),
            forall|j: int| 0 <= j < i ==> s[j].timestamp <= e.timestamp,
        decreases out.len() - i,
    {
        i = i + 1;
    }
    proof {
        if i < out.len() {
            lemma_first_later_step(s, e.timestamp, i as int);
        } else {
            lemma_first_later_bounds(s, e.timestamp);
        }
    }
    out.insert(i, e);
    assert(entry_views(out@) =~= s.insert(i as int, e@));
}

/// Parses `lines` of one source; lines that do not parse are skipped. Syslog timestamps
/// are taken to fall in `year`.
pub fn parse_logs_in_year(lines: &Vec<String>, source: LogSource, year: &str) -> (r: Vec<
    LogEntry,
>)
    ensures
        entry_views(r@) == entries_of(lines@, source, year@),
{
    let mut out: Vec<LogEntry> = Vec::new();
    let mut i: usize = 0;
    while i < lines.len()
        invariant
            i <= lines.len(),
            entry_views(out@) == entries_of(lines@.subrange(0, i as int), source, year@),
        decreases lines.len() - i,
    {
        assert(lines@.subrange(0, i + 1).drop_last() =~= lines@.subrange(0, i as int));
        match LogEntry::parse_line(lines[i].as_str(), source, year) {
            Some(e) => {
                out.push(e);
                assert(entry_views(out@) =~= entries_of(lines@.subrange(0, i as int), source, year@).push(e@));
            },
            None => {},
        }
        i = i + 1;
    }
    assert(lines@.subrange(0, lines.len() as int) =~= lines@);
    out
}

/// Parses `lines` of one source; lines that do not parse are skipped. Syslog timestamps
/// are taken to fall in the current year.
pub fn parse_logs(lines: &Vec<String>, source: LogSource) -> (r: Vec<LogEntry>)
    ensures
        exists|year: Seq<char>| entry_views(r@) == #[trigger] entries_of(lines@, source, year),
{
    let year = current_year();
    parse_logs_in_year(lines, source, year.as_str())
}

/// Puts the events of `lines` of one source into `out`, each by its timestamp.
fn insert_parsed_by_time(
    out: &mut Vec<LogEntry>,
    lines: &Vec<String>,
    source: LogSource,
    year: &str,
    Ghost(before): Ghost<Seq<LogEntryView>>,
)
    requires
        entry_views(old(out)@) == sort_by_time(before),
    ensures
        entry_views(final(out)@) == sort_by_time(before + entries_of(lines@, source, year@)),
{
    let mut i: usize = 0;
    assert(before + entries_of(lines@.subrange(0, 0), source, year@) =~= before);
    while i < lines.len()
        invariant
            i <= lines.len(),
            entry_views(out@) == sort_by_time(
                before + entries_of(lines@.subrange(0, i as int), source, year@),
            ),
        decreases lines.len() - i,
    {
        let ghost prev = before + entries_of(lines@.subrange(0, i as int), source, year@);
        assert(lines@.subrange(0, i + 1).drop_last() =~= lines@.subrange(0, i as int));
        match LogEntry::parse_line(lines[i].as_str(), source, year) {
            Some(e) => {
                let ghost ev = e@;
                insert_entry_by_time(out, e);
                assert(prev.push(ev).drop_last() =~= prev);
                assert(before + entries_of(lines@.subrange(0, i + 1), source, year@) =~= prev.push(
                    ev,
                ));
            },
            None => {},
        }
        i = i + 1;
    }
    assert(lines@.subrange(0, lines.len() as int) =~= lines@);
}

/// Parses the lines of both sources and orders the events by timestamp; events with
/// equal timestamps keep their order, web access lines first. Syslog timestamps are
/// taken to fall in `year`.
pub fn parse_all_logs_in_year(web_lines: &Vec<String>, auth_lines: &Vec<String>, year: &str) -> (r:
    Vec<LogEntry>)
    ensures
        entry_views(r@) == sort_by_time(
            entries_of(web_lines@, LogSource::NginxAccess, year@) + entries_of(
                auth_lines@,
                LogSource::AuthLog,
                year@,
            ),
        ),
{
    let mut out: Vec<LogEntry> = Vec::new();
    let ghost empty = Seq::<LogEntryView>::empty();
    assert(entry_views(out@) =~= sort_by_time(empty));
    insert_parsed_by_time(&mut out, web_lines, LogSource::NginxAccess, year, Ghost(empty));
    let ghost web = entries_of(web_lines@, LogSource::NginxAccess, year@);
    assert(empty + web =~= web);
    insert_parsed_by_time(&mut out, auth_lines, LogSource::AuthLog, year, Ghost(web));
    out
}

/// Parses the lines of both sources and orders the events by timestamp, as
/// `parse_all_logs_in_year` does for the current year.
pub fn parse_all_logs(web_lines: &Vec<String>, auth_lines: &Vec<String>) -> (r: Vec<LogEntry>)
    ensures
        exists|year: Seq<char>|
            entry_views(r@) == #[trigger] sort_by_time(
                entries_of(web_lines@, LogSource::NginxAccess, year) + entries_of(
                    auth_lines@,
                    LogSource::AuthLog,
                    year,
                ),
            ),
{
    let year = current_year();
    parse_all_logs_in_year(web_lines, auth_lines, year.as_str())
}

proof fn lemma_spaces_to_end(s: Seq<char>, t: int)
    requires
        0 <= t <= s.len(),
        forall|i: int| t <= i < s.len() ==> is_space(#[trigger] s[i]),
    ensures
        span_end(s, t, CharClass::Space) == s.len(),
    decreases s.len() - t,
{
    if t < s.len() {
        lemma_spaces_to_end(s, t + 1);
    }
}

/// Where the line has the address, the bracketed timestamp and the quoted request, the
/// position after the request.
pub open spec fn request_end(s: Seq<char>) -> Option<int> {
    match web_head(s) {
        Some(h) => match web_request(s, h.3 + 1) {
            Some(q) => Some(q.2),
            None => None,
        },
        None => None,
    }
}

/// A web access line needs no status, size, referer or user agent: where an address, a
/// bracketed timestamp and a quoted request are followed by nothing but whitespace, the
/// line's fields parse, with status and size 0 and neither referer nor user agent.
pub proof fn lemma_web_line_without_tail(s: Seq<char>, t: int)
    requires
        request_end(s) == Some(t),
        forall|i: int| t <= i < s.len() ==> is_space(#[trigger] s[i]),
    ensures
        web_fields_of(s) matches Some(f) && f.status == 0 && f.size == 0 && f.referer is None
            && f.user_agent is None,
{
    let h = web_head(s)->0;
    lemma_web_head_bounds(s);
    lemma_web_request_bounds(s, h.3 + 1);
    lemma_spaces_to_end(s, t);
    lemma_span_end_bounds(s, s.len() as int, CharClass::Digit);
}

proof fn lemma_web_head_bounds(s: Seq<char>)
    requires
        web_head(s) is Some,
    ensures
        web_head(s) matches Some(h) && 0 <= h.3 < s.len(),
{
}

proof fn lemma_web_request_bounds(s: Seq<char>, t: int)
    requires
        0 <= t <= s.len(),
        web_request(s, t) is Some,
    ensures
        web_request(s, t) matches Some(q) && 0 <= q.2 <= s.len(),
{
    lemma_span_end_bounds(s, t, CharClass::Space);
    let u = span_end(s, t, CharClass::Space);
    lemma_find_char_bounds(s, u + 1, '"');
}

proof fn lemma_find_char_bounds(s: Seq<char>, i: int, c: char)
    requires
        0 <= i,
    ensures
        i <= find_char(s, i, c) <= s.len() || (i > s.len() && find_char(s, i, c) == s.len()),
        find_char(s, i, c) < s.len() ==> s[find_char(s, i, c)] == c,
    decreases s.len() - i,
{
    if i < s.len() && s[i] != c {
        lemma_find_char_bounds(s, i + 1, c);
    }
}

/// A web access line whose fields parse and whose timestamp chrono reads gives a web access
/// event whose status is the one parsed (0 where the line has none).
pub proof fn lemma_web_line_parses(s: Seq<char>)
    requires
        web_fields_of(s) is Some,
        web_fields_of(s) matches Some(f) && offset_timestamp_of(f.timestamp, WEB_TIME_FORMAT@) is Some,
    ensures
        nginx_entry_of(s) matches Some(e) && web_fields_of(s) matches Some(f)
            && e.source == LogSource::NginxAccess && e.status_code == Some(f.status)
            && e.ip_address == Some(f.ip),
{
}

/// A line without the shape of an authentication line gives no event, whatever the year.
pub proof fn lemma_auth_mismatch_fails(s: Seq<char>, year: Seq<char>)
    requires
        auth_fields_of(s) is None,
    ensures
        auth_entry_of(s, year) is None,
        line_entry_of(s, LogSource::AuthLog, year) is None,
{
}

/// Events ordered by timestamp, earliest first.
pub open spec fn ordered_by_time(s: Seq<LogEntryView>) -> bool {
    forall|i: int, j: int| 0 <= i < j < s.len() ==> #[trigger] s[i].timestamp <= #[trigger] s[j].timestamp
}

proof fn lemma_first_later_facts(s: Seq<LogEntryView>, t: i64)
    ensures
        0 <= first_later(s, t) <= s.len(),
        forall|j: int| 0 <= j < first_later(s, t) ==> #[trigger] s[j].timestamp <= t,
        first_later(s, t) < s.len() ==> s[first_later(s, t)].timestamp > t,
    decreases s.len(),
{
    if s.len() > 0 && s[0].timestamp <= t {
        let d = s.drop_first();
        lemma_first_later_facts(d, t);
        assert forall|j: int| 0 <= j < first_later(s, t) implies #[trigger] s[j].timestamp <= t by {
            if j > 0 {
                assert(s[j] == d[j - 1]);
            }
        }
    }
}

/// Ordering by time gives the same events, earliest first.
pub proof fn lemma_sort_by_time_orders(s: Seq<LogEntryView>)
    ensures
        ordered_by_time(sort_by_time(s)),
        sort_by_time(s).to_multiset() == s.to_multiset(),
    decreases s.len(),
{
    broadcast use vstd::seq_lib::to_multiset_build, vstd::seq_lib::to_multiset_insert;

    if s.len() > 0 {
        let d = s.drop_last();
        let x = s.last();
        lemma_sort_by_time_orders(d);
        let r = sort_by_time(d);
        let p = first_later(r, x.timestamp);
        lemma_first_later_facts(r, x.timestamp);
        let q = r.insert(p, x);
        assert forall|i: int, j: int| 0 <= i < j < q.len() implies #[trigger] q[i].timestamp
            <= #[trigger] q[j].timestamp by {
            if j < p {
                assert(q[i] == r[i] && q[j] == r[j]);
            } else if j == p {
                assert(q[i] == r[i]);
            } else if i < p {
                assert(q[i] == r[i] && q[j] == r[j - 1]);
                assert(r[i].timestamp <= x.timestamp);
                assert(r[p].timestamp > x.timestamp);
                if p < j - 1 {
                    assert(r[p].timestamp <= r[j - 1].timestamp);
                }
            } else if i == p {
                assert(q[j] == r[j - 1]);
                assert(r[p].timestamp > x.timestamp);
                if p < j - 1 {
                    assert(r[p].timestamp <= r[j - 1].timestamp);
                }
            } else {
                assert(q[i] == r[i - 1] && q[j] == r[j - 1]);
            }
        }
        assert(d.push(x) =~= s);
        assert(d.push(x).to_multiset() =~= d.to_multiset().insert(x));
        assert(q.to_multiset() =~= r.to_multiset().insert(x));
        assert(sort_by_time(s) == q);
    } else {
        assert(s =~= Seq::<LogEntryView>::empty());
        assert(sort_by_time(s) =~= s);
    }
}

} // verus!
