//! Decoding one raw log line into a structured event.
//!
//! A line is a JSON envelope with `host`, `program`, `timestamp` and
//! `message` fields.  Lines whose program is not the access-point daemon are
//! not applicable and produce no event.  The free-text message of an
//! applicable line is run through a small grammar: an interface name up to
//! the first `": "`, the fixed word `"STA "`, a hardware address, and one of
//! a fixed, ordered list of action phrases.

use crate::order::str_eq;
use crate::{Error, Timestamp};
use vstd::prelude::*;
use vstd::string::StrSliceExecFns;
use vstd::string::StringExecFns;

verus! {

/// What a recognized event says happened between a device and a station.
#[derive(Clone, Copy, PartialEq, Eq, Structural, Debug)]
pub enum Action {
    Associated,
    Disassociated,
    Observed,
}

/// A structured event: one applicable, recognized log line.
#[derive(Debug, PartialEq, Eq)]
pub struct Event {
    pub timestamp: Timestamp,
    pub hostname: String,
    pub interface: String,
    pub mac: String,
    pub action: Action,
}

/// The mathematical content of an [`Event`].
pub ghost struct EventView {
    pub timestamp: Timestamp,
    pub hostname: Seq<char>,
    pub interface: Seq<char>,
    pub mac: Seq<char>,
    pub action: Action,
}

impl View for Event {
    type V = EventView;

    open spec fn view(&self) -> EventView {
        EventView {
            timestamp: self.timestamp,
            hostname: self.hostname@,
            interface: self.interface@,
            mac: self.mac@,
            action: self.action,
        }
    }
}

/// The four fields of a decoded JSON envelope, timestamp still as text.
pub struct RawRecord {
    pub host: String,
    pub program: String,
    pub timestamp: String,
    pub message: String,
}

/// The mathematical content of a [`RawRecord`].
pub ghost struct RawRecordView {
    pub host: Seq<char>,
    pub program: Seq<char>,
    pub timestamp: Seq<char>,
    pub message: Seq<char>,
}

impl View for RawRecord {
    type V = RawRecordView;

    open spec fn view(&self) -> RawRecordView {
        RawRecordView {
            host: self.host@,
            program: self.program@,
            timestamp: self.timestamp@,
            message: self.message@,
        }
    }
}

/// What decoding a line as a JSON envelope yields: the four fields, or
/// nothing when the text is not a JSON object with the required string
/// fields.
pub uninterp spec fn json_record_of(line: Seq<char>) -> Option<RawRecordView>;

/// What parsing a text as an RFC 3339 timestamp yields.
pub uninterp spec fn rfc3339_of(text: Seq<char>) -> Option<Timestamp>;

/// Relies on `serde_json::from_str::<serde_json::Value>` together with
/// `serde_json::Value::get` and `serde_json::Value::as_str`: parsing a JSON
/// text and reading named string members is a function of the text alone;
/// absent members and non-string values yield `None`.
#[verifier::external_body]
fn decode_json_record(line: &str) -> (r: Option<RawRecord>)
    ensures
        match r {
            Some(rec) => json_record_of(line@) == Some(rec@),
            None => json_record_of(line@) is None,
        },
{
    let v: serde_json::Value = serde_json::from_str(line).ok()?;
    let host = v.get("host")?.as_str()?.to_string();
    let program = v.get("program")?.as_str()?.to_string();
    let timestamp = v.get("timestamp")?.as_str()?.to_string();
    let message = v.get("message")?.as_str()?.to_string();
    Some(RawRecord { host, program, timestamp, message })
}

/// Relies on `chrono::DateTime::parse_from_rfc3339` and the accessors
/// `timestamp` and `timestamp_subsec_nanos`: whether a text is a valid
/// RFC 3339 date-time, and the instant it denotes, depend on the text alone.
#[verifier::external_body]
fn parse_rfc3339(text: &str) -> (r: Option<Timestamp>)
    ensures
        r == rfc3339_of(text@),
{
    match chrono::DateTime::parse_from_rfc3339(text) {
        Ok(t) => Some(Timestamp { secs: t.timestamp(), nanos: t.timestamp_subsec_nanos() }),
        Err(_) => None,
    }
}

/// Relies on `String::push`: appends exactly the one given character.
#[verifier::external_body]
fn push_char(s: &mut String, c: char)
    ensures
        final(s)@ == old(s)@.push(c),
{
    s.push(c);
}

/// A space or a horizontal tab, the blanks accepted between the hardware
/// address and the action phrase.
pub open spec fn is_space_char(c: char) -> bool {
    c == ' ' || c == '\t'
}

pub open spec fn is_hex_digit_char(c: char) -> bool {
    ('0' <= c && c <= '9') || ('a' <= c && c <= 'f') || ('A' <= c && c <= 'F')
}

/// Folds an uppercase hex digit to lowercase; leaves every other character.
pub open spec fn lower_hex(c: char) -> char {
    match c {
        'A' => 'a',
        'B' => 'b',
        'C' => 'c',
        'D' => 'd',
        'E' => 'e',
        'F' => 'f',
        _ => c,
    }
}

/// A well-formed hardware address: six groups of exactly two hex digits,
/// separated by colons — 17 characters in all.
pub open spec fn mac_ok(s: Seq<char>) -> bool {
    s.len() == 17 && forall|i: int|
        0 <= i < 17 ==> if i % 3 == 2 {
            s[i] == ':'
        } else {
            is_hex_digit_char(#[trigger] s[i])
        }
}

/// The canonical (lowercase) form of a hardware address.
pub open spec fn mac_canon(s: Seq<char>) -> Seq<char> {
    s.map_values(|c: char| lower_hex(c))
}

/// Index of the first `": "` in the sequence, or -1.
pub open spec fn find_delim(s: Seq<char>) -> int
    decreases s.len(),
{
    if s.len() < 2 {
        -1
    } else if s[0] == ':' && s[1] == ' ' {
        0
    } else {
        let r = find_delim(s.drop_first());
        if r == -1 {
            -1
        } else {
            r + 1
        }
    }
}

/// There is a `": "` at position `i`.
pub open spec fn delim_at(s: Seq<char>, i: int) -> bool {
    0 <= i && i + 2 <= s.len() && s[i] == ':' && s[i + 1] == ' '
}

/// How many blanks the sequence starts with.
pub open spec fn count_spaces(s: Seq<char>) -> int
    decreases s.len(),
{
    if s.len() == 0 || !is_space_char(s[0]) {
        0
    } else {
        1 + count_spaces(s.drop_first())
    }
}

/// The interface, hardware address and action of a message that the grammar
/// recognizes; `action` is `None` for the known but uninteresting accounting
/// notice.
pub ghost struct MsgParsed {
    pub interface: Seq<char>,
    pub mac: Seq<char>,
    pub action: Option<Action>,
}

/// The message grammar: ordered alternatives after the fixed prefix
/// `"<interface>: STA <hardware-address> "`; `None` is a grammar error.
pub open spec fn msg_spec(m: Seq<char>) -> Option<MsgParsed> {
    let k = find_delim(m);
    if k < 0 {
        None
    } else {
        let rest = m.skip(k + 2);
        if !"STA "@.is_prefix_of(rest) {
            None
        } else {
            let r2 = rest.skip("STA "@.len() as int);
            if r2.len() < 17 || !mac_ok(r2.take(17)) {
                None
            } else {
                let r3 = r2.skip(17);
                if r3.len() == 0 || !is_space_char(r3[0]) {
                    None
                } else {
                    let r4 = r3.skip(count_spaces(r3));
                    let parsed = MsgParsed {
                        interface: m.take(k),
                        mac: mac_canon(r2.take(17)),
                        action: None,
                    };
                    if "IEEE 802.11: associated"@.is_prefix_of(r4) {
                        Some(MsgParsed { action: Some(Action::Associated), ..parsed })
                    } else if "IEEE 802.11: disassociated"@.is_prefix_of(r4) {
                        Some(MsgParsed { action: Some(Action::Disassociated), ..parsed })
                    } else if "WPA: pairwise key handshake completed (RSN)"@.is_prefix_of(r4) {
                        Some(MsgParsed { action: Some(Action::Observed), ..parsed })
                    } else if "WPA: group key handshake completed (RSN)"@.is_prefix_of(r4) {
                        Some(MsgParsed { action: Some(Action::Observed), ..parsed })
                    } else if "RADIUS: starting accounting session"@.is_prefix_of(r4) {
                        Some(parsed)
                    } else {
                        None
                    }
                }
            }
        }
    }
}

proof fn find_delim_pin(s: Seq<char>, k: int)
    requires
        delim_at(s, k),
        forall|j: int| 0 <= j < k ==> !delim_at(s, j),
    ensures
        find_delim(s) == k,
    decreases k,
{
    if k == 0 {
    } else {
        assert(!delim_at(s, 0));
        let d = s.drop_first();
        assert(delim_at(d, k - 1)) by {
            assert(d[k - 1] == s[k] && d[k] == s[k + 1]);
        }
        assert forall|j: int| 0 <= j < k - 1 implies !delim_at(d, j) by {
            assert(d[j] == s[j + 1] && d[j + 1] == s[j + 2]);
            assert(!delim_at(s, j + 1));
        }
        find_delim_pin(d, k - 1);
    }
}

proof fn find_delim_none(s: Seq<char>)
    requires
        forall|j: int| !delim_at(s, j),
    ensures
        find_delim(s) == -1,
    decreases s.len(),
{
    if s.len() >= 2 {
        assert(!delim_at(s, 0));
        let d = s.drop_first();
        assert forall|j: int| !delim_at(d, j) by {
            if 0 <= j && j + 2 <= d.len() {
                assert(d[j] == s[j + 1] && d[j + 1] == s[j + 2]);
                assert(!delim_at(s, j + 1));
            }
        }
        find_delim_none(d);
    }
}

proof fn count_spaces_pin(s: Seq<char>, c: int)
    requires
        0 <= c <= s.len(),
        forall|i: int| 0 <= i < c ==> is_space_char(#[trigger] s[i]),
        c < s.len() ==> !is_space_char(s[c]),
    ensures
        count_spaces(s) == c,
    decreases c,
{
    if c == 0 {
    } else {
        assert(is_space_char(s[0]));
        let d = s.drop_first();
        assert forall|i: int| 0 <= i < c - 1 implies is_space_char(#[trigger] d[i]) by {
            assert(d[i] == s[i + 1]);
        }
        if c - 1 < d.len() {
            assert(d[c - 1] == s[c]);
        }
        count_spaces_pin(d, c - 1);
    }
}

fn is_space_exec(c: char) -> (r: bool)
    ensures
        r == is_space_char(c),
{
    c == ' ' || c == '\t'
}

fn is_hex_exec(c: char) -> (r: bool)
    ensures
        r == is_hex_digit_char(c),
{
    ('0' <= c && c <= '9') || ('a' <= c && c <= 'f') || ('A' <= c && c <= 'F')
}

fn lower_hex_exec(c: char) -> (r: char)
    ensures
        r == lower_hex(c),
{
    match c {
        'A' => 'a',
        'B' => 'b',
        'C' => 'c',
        'D' => 'd',
        'E' => 'e',
        'F' => 'f',
        _ => c,
    }
}

/// Does `lit` stand at position `p` of `msg`?
fn has_prefix(msg: &str, n: usize, p: usize, lit: &str) -> (r: bool)
    requires
        n == msg@.len(),
        p <= n,
    ensures
        r == lit@.is_prefix_of(msg@.skip(p as int)),
{
    let litlen = lit.unicode_len();
    if n - p < litlen {
        false
    } else {
        let sub = msg.substring_char(p, p + litlen);
        let e = str_eq(sub, lit);
        proof {
            let rest = msg@.skip(p as int);
            assert(sub@ =~= rest.subrange(0, litlen as int));
        }
        e
    }
}

/// Find the first `": "` of `msg`.
fn find_delim_exec(msg: &str, n: usize) -> (r: Option<usize>)
    requires
        n == msg@.len(),
    ensures
        match r {
            Some(k) => find_delim(msg@) == k as int && k + 2 <= n,
            None => find_delim(msg@) == -1,
        },
{
    if n < 2 {
        proof {
            find_delim_none(msg@);
        }
        return None;
    }
    let mut k: usize = 0;
    while k < n - 1
        invariant
            n == msg@.len(),
            2 <= n,
            k <= n - 1,
            forall|j: int| 0 <= j < k ==> !delim_at(msg@, j),
        decreases n - k,
    {
        let c0 = msg.get_char(k);
        let c1 = msg.get_char(k + 1);
        if c0 == ':' && c1 == ' ' {
            proof {
                find_delim_pin(msg@, k as int);
            }
            return Some(k);
        }
        k = k + 1;
    }
    proof {
        assert forall|j: int| !delim_at(msg@, j) by {
            if 0 <= j && j + 2 <= msg@.len() {
                assert(!delim_at(msg@, j));
            }
        }
        find_delim_none(msg@);
    }
    None
}

/// Scan the 17-character hardware-address region starting at `p`: six
/// colon-separated pairs of hex digits, canonicalized to lowercase.
fn scan_mac(msg: &str, n: usize, p: usize) -> (r: Option<String>)
    requires
        n == msg@.len(),
        p + 17 <= n,
    ensures
        ({
            let region = msg@.subrange(p as int, p as int + 17);
            match r {
                Some(mac) => mac_ok(region) && mac@ == mac_canon(region),
                None => !mac_ok(region),
            }
        }),
{
    let ghost m = msg@;
    let ghost region = m.subrange(p as int, p as int + 17);
    let mut mac = String::new();
    let mut i: usize = 0;
    proof {
        assert(mac@ =~= region.take(0).map_values(|c: char| lower_hex(c)));
    }
    while i < 17
        invariant
            n == m.len(),
            m == msg@,
            p + 17 <= n,
            region == m.subrange(p as int, p as int + 17),
            i <= 17,
            mac@ == region.take(i as int).map_values(|c: char| lower_hex(c)),
            forall|j: int|
                0 <= j < i ==> if j % 3 == 2 {
                    region[j] == ':'
                } else {
                    is_hex_digit_char(#[trigger] region[j])
                },
        decreases 17 - i,
    {
        let c = msg.get_char(p + i);
        proof {
            assert(region[i as int] == m[p + i]);
        }
        if i % 3 == 2 {
            if c != ':' {
                return None;
            }
        } else {
            if !is_hex_exec(c) {
                return None;
            }
        }
        let lc = lower_hex_exec(c);
        push_char(&mut mac, lc);
        proof {
            assert(mac@ =~= region.take(i as int + 1).map_values(|c: char| lower_hex(c)));
        }
        i = i + 1;
    }
    proof {
        assert(region.take(17) =~= region);
        assert(mac_ok(region));
    }
    Some(mac)
}

/// The contract of [`parse_message`]: the returned pieces are exactly what
/// the grammar says the message contains.
pub open spec fn parse_message_post(
    m: Seq<char>,
    r: Result<(String, String, Option<Action>), Error>,
) -> bool {
    match r {
        Ok(t) => msg_spec(m) == Some(
            MsgParsed { interface: t.0@, mac: t.1@, action: t.2 },
        ),
        Err(e) => msg_spec(m) is None && e is Parse,
    }
}

/// Run the message grammar: returns the interface name, the canonical
/// (lowercase) hardware address, and the action — `None` for the known
/// benign accounting notice — or a grammar error.
pub fn parse_message(msg: &str) -> (r: Result<(String, String, Option<Action>), Error>)
    ensures
        parse_message_post(msg@, r),
{
    let ghost m = msg@;
    let n = msg.unicode_len();
    let k = match find_delim_exec(msg, n) {
        Some(k) => k,
        None => {
            return Err(grammar_error(msg));
        },
    };
    let sta = "STA ";
    let stalen = sta.unicode_len();
    if !has_prefix(msg, n, k + 2, sta) {
        return Err(grammar_error(msg));
    }
    proof {
        let rest = m.skip(k + 2);
        assert(stalen <= rest.len());
    }
    let p = k + 2 + stalen;
    let ghost rest = m.skip(k as int + 2);
    let ghost r2 = rest.skip(stalen as int);
    proof {
        assert(r2 =~= m.skip(p as int));
    }
    if n - p < 17 {
        proof {
            assert(r2.len() < 17);
        }
        return Err(grammar_error(msg));
    }
    proof {
        assert(r2.take(17) =~= m.subrange(p as int, p as int + 17));
    }
    let mac = match scan_mac(msg, n, p) {
        Some(mac) => mac,
        None => {
            return Err(grammar_error(msg));
        },
    };
    let q = p + 17;
    let ghost r3 = r2.skip(17);
    proof {
        assert(r3 =~= m.skip(q as int));
    }
    if q == n {
        return Err(grammar_error(msg));
    }
    let c = msg.get_char(q);
    if !is_space_exec(c) {
        proof {
            assert(r3[0] == m[q as int]);
        }
        return Err(grammar_error(msg));
    }
    // one or more blanks before the action phrase
    let mut t = q;
    while t < n && is_space_exec(msg.get_char(t))
        invariant
            n == m.len(),
            m == msg@,
            q <= t <= n,
            forall|j: int| q <= j < t ==> is_space_char(#[trigger] m[j]),
        decreases n - t,
    {
        t = t + 1;
    }
    proof {
        assert forall|j: int| 0 <= j < t - q implies is_space_char(#[trigger] r3[j]) by {
            assert(r3[j] == m[q + j]);
        }
        if t < n {
            assert(r3[t - q] == m[t as int]);
        }
        count_spaces_pin(r3, t - q);
        assert(r3.skip(count_spaces(r3)) =~= m.skip(t as int));
    }
    let interface_slice = msg.substring_char(0, k);
    let interface = String::from_str(interface_slice);
    proof {
        assert(interface@ =~= m.take(k as int));
    }
    let action: Option<Action> = if has_prefix(msg, n, t, "IEEE 802.11: associated") {
        Some(Action::Associated)
    } else if has_prefix(msg, n, t, "IEEE 802.11: disassociated") {
        Some(Action::Disassociated)
    } else if has_prefix(msg, n, t, "WPA: pairwise key handshake completed (RSN)") {
        Some(Action::Observed)
    } else if has_prefix(msg, n, t, "WPA: group key handshake completed (RSN)") {
        Some(Action::Observed)
    } else if has_prefix(msg, n, t, "RADIUS: starting accounting session") {
        None
    } else {
        return Err(grammar_error(msg));
    };
    Ok((interface, mac, action))
}

/// The error reported for a message the grammar does not recognize.
fn grammar_error(msg: &str) -> (r: Error)
    ensures
        r is Parse,
{
    Error::Parse(String::from_str("unrecognized message: ").concat(msg))
}

/// The program name whose log lines are applicable.
pub open spec fn applicable_program() -> Seq<char> {
    "hostapd"@
}

/// The contract of [`parse`], case by case over the decoded envelope.
pub open spec fn parse_post(line: Seq<char>, r: Result<Option<Event>, Error>) -> bool {
    match json_record_of(line) {
        None => r matches Err(e) && e is Json,
        Some(rec) => match rfc3339_of(rec.timestamp) {
            None => r matches Err(e) && e is Json,
            Some(ts) => if rec.program != applicable_program() {
                r == Ok::<Option<Event>, Error>(None)
            } else {
                match msg_spec(rec.message) {
                    None => r matches Err(e) && e is Parse,
                    Some(p) => match p.action {
                        Some(a) => r matches Ok(Some(ev)) && ev@ == (EventView {
                            timestamp: ts,
                            hostname: rec.host,
                            interface: p.interface,
                            mac: p.mac,
                            action: a,
                        }),
                        None => r == Ok::<Option<Event>, Error>(None),
                    },
                }
            },
        },
    }
}

/// Decode one raw log line.
///
/// `Ok(Some(event))` for an applicable, recognized line; `Ok(None)` for a
/// line of another program or a known benign message; `Err` when the
/// envelope cannot be decoded or the message matches no known pattern.
pub fn parse(input: &str) -> (r: Result<Option<Event>, Error>)
    ensures
        parse_post(input@, r),
{
    let rec = match decode_json_record(input) {
        Some(rec) => rec,
        None => {
            return Err(Error::Json(String::from_str("line is not a valid log envelope")));
        },
    };
    let ts = match parse_rfc3339(rec.timestamp.as_str()) {
        Some(ts) => ts,
        None => {
            return Err(Error::Json(String::from_str("timestamp is not RFC 3339")));
        },
    };
    if !str_eq(rec.program.as_str(), "hostapd") {
        return Ok(None);
    }
    match parse_message(rec.message.as_str()) {
        Ok((interface, mac, Some(action))) => Ok(
            Some(
                Event {
                    timestamp: ts,
                    hostname: rec.host,
                    interface,
                    mac,
                    action,
                },
            ),
        ),
        Ok((_, _, None)) => Ok(None),
        Err(e) => Err(e),
    }
}

/// Hardware addresses that differ only in the case of their hex digits have
/// the same canonical form, and so name the same device.
pub proof fn lemma_mac_case_insensitive(a: Seq<char>, b: Seq<char>)
    requires
        a.len() == b.len(),
        forall|i: int| 0 <= i < a.len() ==> lower_hex(a[i]) == lower_hex(b[i]),
    ensures
        mac_canon(a) == mac_canon(b),
{
    assert(mac_canon(a) =~= mac_canon(b));
}

/// Canonicalization yields a well-formed, fully lowercase address and is
/// idempotent.
pub proof fn lemma_mac_canon_lowercase(a: Seq<char>)
    requires
        mac_ok(a),
    ensures
        mac_ok(mac_canon(a)),
        mac_canon(mac_canon(a)) == mac_canon(a),
        forall|i: int| 0 <= i < mac_canon(a).len() ==> !('A' <= #[trigger] mac_canon(a)[i] <= 'Z'),
{
    assert(mac_canon(mac_canon(a)) =~= mac_canon(a));
}

} // verus!
