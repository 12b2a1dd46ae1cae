//! The tracker protocol mapping: building the announce request's query
//! string, interpreting the bencoded response (failure, warning or success,
//! with a dictionary or compact peer list), and the refresh cooldown that
//! answers early refreshes from the cached response.
use crate::bencode::{dict_get, spec_dict_get, view_of_list, view_of_pairs, Value, ValueView};
use crate::metainfo::{as_utf8_bstring, key_bytes};
use crate::stats::Stats;
use crate::text::{dec_chars, dec_string};
use vstd::prelude::*;
use vstd::string::StringExecFns;

verus! {

/// A peer's address as a tracker reports it: four raw IPv4 octets from the
/// compact form, or the text of the `ip` field from the dictionary form.
#[derive(Debug, PartialEq, Clone)]
pub enum PeerAddr {
    V4([u8; 4], u16),
    Named(String, u16),
}

/// One peer a tracker offered: its id where the dictionary form carries one,
/// and its address.
#[derive(Debug, PartialEq, Clone)]
pub struct PeerInfo {
    pub peer_id: Option<[u8; 20]>,
    pub address: PeerAddr,
}

/// A tracker's answer to a successful announce.
#[derive(Debug, PartialEq, Clone)]
pub struct TrackerSuccessResponse {
    /// Seconds to wait before the next periodic announce.
    pub interval: u32,
    /// Where present, announces must not come more often than this.
    pub min_interval: Option<u32>,
    /// Where present, echoed as `trackerid` on every later announce.
    pub tracker_id: Option<String>,
    /// Seeders.
    pub complete: u32,
    /// Leechers.
    pub incomplete: u32,
    pub peers: Vec<PeerInfo>,
}

/// A tracker's answer: an outright failure, a success, or a success that
/// carries a warning.
#[derive(Debug, PartialEq, Clone)]
pub enum TrackerResponse {
    Failure(String),
    Warning(String, TrackerSuccessResponse),
    Success(TrackerSuccessResponse),
}

pub enum PeerAddrView {
    V4(Seq<u8>, u16),
    Named(Seq<char>, u16),
}

pub struct PeerInfoView {
    pub peer_id: Option<Seq<u8>>,
    pub address: PeerAddrView,
}

pub struct TrackerSuccessView {
    pub interval: u32,
    pub min_interval: Option<u32>,
    pub tracker_id: Option<Seq<char>>,
    pub complete: u32,
    pub incomplete: u32,
    pub peers: Seq<PeerInfoView>,
}

pub enum TrackerResponseView {
    Failure(Seq<char>),
    Warning(Seq<char>, TrackerSuccessView),
    Success(TrackerSuccessView),
}

impl View for PeerInfo {
    type V = PeerInfoView;

    open spec fn view(&self) -> PeerInfoView {
        PeerInfoView {
            peer_id: match self.peer_id {
                Option::Some(p) => Option::Some(p@),
                Option::None => Option::None,
            },
            address: match self.address {
                PeerAddr::V4(o, p) => PeerAddrView::V4(o@, p),
                PeerAddr::Named(ref n, p) => PeerAddrView::Named(n@, p),
            },
        }
    }
}

pub open spec fn view_of_peers(s: Seq<PeerInfo>) -> Seq<PeerInfoView>
    decreases s,
{
    if s.len() == 0 {
        Seq::empty()
    } else {
        view_of_peers(s.drop_last()).push(s.last()@)
    }
}

pub proof fn lemma_view_of_peers_index(s: Seq<PeerInfo>)
    ensures
        view_of_peers(s).len() == s.len(),
        forall|i: int| 0 <= i < s.len() ==> view_of_peers(s)[i] == s[i]@,
    decreases s,
{
    if s.len() > 0 {
        lemma_view_of_peers_index(s.drop_last());
        assert(view_of_peers(s) == view_of_peers(s.drop_last()).push(s.last()@));
        assert forall|i: int| 0 <= i < s.len() implies view_of_peers(s)[i] == s[i]@ by {
            if i < s.len() - 1 {
                assert(view_of_peers(s)[i] == view_of_peers(s.drop_last())[i]);
                assert(s.drop_last()[i] == s[i]);
            } else {
                assert(s.last() == s[i]);
            }
        }
    }
}

impl View for TrackerSuccessResponse {
    type V = TrackerSuccessView;

    open spec fn view(&self) -> TrackerSuccessView {
        TrackerSuccessView {
            interval: self.interval,
            min_interval: self.min_interval,
            tracker_id: match self.tracker_id {
                Option::Some(ref s) => Option::Some(s@),
                Option::None => Option::None,
            },
            complete: self.complete,
            incomplete: self.incomplete,
            peers: view_of_peers(self.peers@),
        }
    }
}

impl View for TrackerResponse {
    type V = TrackerResponseView;

    open spec fn view(&self) -> TrackerResponseView {
        match self {
            TrackerResponse::Failure(m) => TrackerResponseView::Failure(m@),
            TrackerResponse::Warning(m, p) => TrackerResponseView::Warning(m@, p@),
            TrackerResponse::Success(p) => TrackerResponseView::Success(p@),
        }
    }
}

/// An unsigned 32-bit field read from an integer value.
pub open spec fn as_u32(v: Option<ValueView>) -> Option<u32> {
    match v {
        Option::Some(ValueView::Integer(x)) => if 0 <= x <= u32::MAX {
            Option::Some(x as u32)
        } else {
            Option::None
        },
        _ => Option::None,
    }
}

/// An unsigned 16-bit field read from an integer value.
pub open spec fn as_u16(v: Option<ValueView>) -> Option<u16> {
    match v {
        Option::Some(ValueView::Integer(x)) => if 0 <= x <= u16::MAX {
            Option::Some(x as u16)
        } else {
            Option::None
        },
        _ => Option::None,
    }
}

/// A dictionary-form peer entry: required 20-byte `peer id`, text `ip` and
/// 16-bit `port`.
pub open spec fn spec_peer_info_of(v: ValueView) -> Option<PeerInfoView> {
    match v {
        ValueView::Dict(ps) => match (
            spec_dict_get(ps, key_bytes("peer id")),
            as_utf8_bstring(spec_dict_get(ps, key_bytes("ip"))),
            as_u16(spec_dict_get(ps, key_bytes("port"))),
        ) {
            (
                Option::Some(ValueView::BString(id)),
                Option::Some(ip),
                Option::Some(port),
            ) => if id.len() == 20 {
                Option::Some(
                    PeerInfoView {
                        peer_id: Option::Some(id),
                        address: PeerAddrView::Named(ip, port),
                    },
                )
            } else {
                Option::None
            },
            _ => Option::None,
        },
        _ => Option::None,
    }
}

/// The dictionary-form peers from position `i` on.
pub open spec fn spec_peers_from(items: Seq<ValueView>, i: int) -> Option<Seq<PeerInfoView>>
    decreases items.len() - i,
{
    if i < 0 || i >= items.len() {
        Option::Some(Seq::empty())
    } else {
        match (spec_peer_info_of(items[i]), spec_peers_from(items, i + 1)) {
            (Option::Some(p), Option::Some(rest)) => Option::Some(seq![p] + rest),
            _ => Option::None,
        }
    }
}

/// The compact-form peers: each 6-byte record is four IPv4 octets then a
/// big-endian port.
pub open spec fn spec_compact_peers(b: Seq<u8>) -> Seq<PeerInfoView> {
    Seq::new(
        (b.len() / 6) as nat,
        |k: int|
            PeerInfoView {
                peer_id: Option::None,
                address: PeerAddrView::V4(
                    b.subrange(6 * k, 6 * k + 4),
                    (b[6 * k + 4] as u16 * 256 + b[6 * k + 5] as u16) as u16,
                ),
            },
    )
}

/// A tracker response document.  A `failure reason` field short-circuits to
/// `Failure`; otherwise `interval`, `complete`, `incomplete` and `peers`
/// (dictionary-form list, or compact byte string of whole 6-byte records)
/// are required, and a `warning message` wraps the success as a `Warning`.
pub open spec fn spec_tracker_response_of(v: ValueView) -> Option<TrackerResponseView> {
    match v {
        ValueView::Dict(ps) => if spec_dict_get(ps, key_bytes("failure reason")) is Some {
            match as_utf8_bstring(spec_dict_get(ps, key_bytes("failure reason"))) {
                Option::Some(m) => Option::Some(TrackerResponseView::Failure(m)),
                Option::None => Option::Some(
                    TrackerResponseView::Failure("unknown failure reason"@),
                ),
            }
        } else {
            match (
                as_u32(spec_dict_get(ps, key_bytes("interval"))),
                as_u32(spec_dict_get(ps, key_bytes("complete"))),
                as_u32(spec_dict_get(ps, key_bytes("incomplete"))),
                spec_peers(spec_dict_get(ps, key_bytes("peers"))),
            ) {
                (
                    Option::Some(interval),
                    Option::Some(complete),
                    Option::Some(incomplete),
                    Option::Some(peers),
                ) => {
                    let payload = TrackerSuccessView {
                        interval,
                        min_interval: as_u32(spec_dict_get(ps, key_bytes("min interval"))),
                        tracker_id: as_utf8_bstring(spec_dict_get(ps, key_bytes("tracker id"))),
                        complete,
                        incomplete,
                        peers,
                    };
                    match as_utf8_bstring(spec_dict_get(ps, key_bytes("warning message"))) {
                        Option::Some(w) => Option::Some(TrackerResponseView::Warning(w, payload)),
                        Option::None => Option::Some(TrackerResponseView::Success(payload)),
                    }
                },
                _ => Option::None,
            }
        },
        _ => Option::None,
    }
}

/// The peer list of a response: a list of dictionary-form entries, or a
/// compact byte string of whole 6-byte records.
pub open spec fn spec_peers(v: Option<ValueView>) -> Option<Seq<PeerInfoView>> {
    match v {
        Option::Some(ValueView::List(items)) => spec_peers_from(items, 0),
        Option::Some(ValueView::BString(b)) => if b.len() % 6 == 0 {
            Option::Some(spec_compact_peers(b))
        } else {
            Option::None
        },
        _ => Option::None,
    }
}

impl PeerInfo {
    /// Read one dictionary-form peer entry.
    pub fn from_value(val: &Value) -> (r: Result<PeerInfo, String>)
        ensures
            (match r {
                Ok(p) => spec_peer_info_of(val@) == Option::Some(p@),
                Err(_) => spec_peer_info_of(val@) is None,
            }),
    {
        let ps = match val.dict() {
            Some(ps) => ps,
            None => {
                return Err("not a dictionary".to_owned());
            },
        };
        let id = match dict_get(ps, "peer id".as_bytes()) {
            Some(v) => match v.bstring() {
                Some(id) => id,
                None => {
                    return Err("missing key: peer id".to_owned());
                },
            },
            None => {
                return Err("missing key: peer id".to_owned());
            },
        };
        if id.len() != 20 {
            return Err("peer id is not 20 bytes".to_owned());
        }
        let peer_id = crate::wire::read_arr20(id.as_slice(), 0);
        let ip = match dict_get(ps, "ip".as_bytes()) {
            Some(v) => match v.bstring_utf8() {
                Some(ip) => ip,
                None => {
                    return Err("missing key: ip".to_owned());
                },
            },
            None => {
                return Err("missing key: ip".to_owned());
            },
        };
        let port = match dict_get(ps, "port".as_bytes()) {
            Some(v) => match v.integer() {
                Some(p) => {
                    let p = *p;
                    if p >= 0 && p <= u16::MAX as i64 {
                        p as u16
                    } else {
                        return Err("port out of range".to_owned());
                    }
                },
                None => {
                    return Err("missing key: port".to_owned());
                },
            },
            None => {
                return Err("missing key: port".to_owned());
            },
        };
        proof {
            assert(id@.subrange(0, 20) =~= id@);
        }
        Ok(PeerInfo { peer_id: Some(peer_id), address: PeerAddr::Named(ip, port) })
    }

    /// Read a compact peer list: whole 6-byte records, four IPv4 octets then
    /// a big-endian port each.
    #[verifier::loop_isolation(false)]
    pub fn from_compact(bytes: &[u8]) -> (r: Vec<PeerInfo>)
        requires
            bytes@.len() % 6 == 0,
        ensures
            view_of_peers(r@) == spec_compact_peers(bytes@),
    {
        let mut out: Vec<PeerInfo> = Vec::new();
        let count = bytes.len() / 6;
        let mut k: usize = 0;
        while k < count
            invariant
                0 <= k <= count,
            view_of_peers(out@) == spec_compact_peers(bytes@).take(k as int),
            decreases count - k,
        {
            let o = [bytes[6 * k], bytes[6 * k + 1], bytes[6 * k + 2], bytes[6 * k + 3]];
            let port: u16 = (bytes[6 * k + 4] as u16) * 256 + (bytes[6 * k + 5] as u16);
            let p = PeerInfo { peer_id: None, address: PeerAddr::V4(o, port) };
            proof {
                let cp = spec_compact_peers(bytes@);
                assert(o@ =~= bytes@.subrange(6 * k as int, 6 * k + 4));
                assert(p@ == cp[k as int]);
                lemma_view_of_peers_index(out@);
                lemma_view_of_peers_index(out@.push(p));
                assert(out@.push(p).drop_last() =~= out@);
                assert(view_of_peers(out@.push(p)) == view_of_peers(out@).push(p@));
                assert(cp.take(k as int).push(cp[k as int]) =~= cp.take(k + 1));
            }
            out.push(p);
            k = k + 1;
        }
        proof {
            assert(spec_compact_peers(bytes@).take(count as int) =~= spec_compact_peers(bytes@));
        }
        out
    }
}

impl TrackerResponse {
    /// Interpret a decoded tracker response document.
    #[verifier::loop_isolation(false)]
    pub fn from_value(val: &Value) -> (r: Result<TrackerResponse, String>)
        ensures
            (match r {
                Ok(t) => spec_tracker_response_of(val@) == Option::Some(t@),
                Err(_) => spec_tracker_response_of(val@) is None,
            }),
    {
        let ps = match val.dict() {
            Some(ps) => ps,
            None => {
                return Err("not a dictionary".to_owned());
            },
        };
        match dict_get(ps, "failure reason".as_bytes()) {
            Some(v) => {
                let m = match v.bstring_utf8() {
                    Some(m) => m,
                    None => "unknown failure reason".to_owned(),
                };
                return Ok(TrackerResponse::Failure(m));
            },
            None => {},
        }
        let interval = match get_u32(ps, "interval".as_bytes()) {
            Some(x) => x,
            None => {
                return Err("missing key: interval".to_owned());
            },
        };
        let complete = match get_u32(ps, "complete".as_bytes()) {
            Some(x) => x,
            None => {
                return Err("missing key: complete".to_owned());
            },
        };
        let incomplete = match get_u32(ps, "incomplete".as_bytes()) {
            Some(x) => x,
            None => {
                return Err("missing key: incomplete".to_owned());
            },
        };
        let peers = match dict_get(ps, "peers".as_bytes()) {
            Some(v) => match v {
                Value::List(items) => {
                    let ghost iv = view_of_list(items@);
                    proof {
                        crate::bencode::lemma_view_of_list_index(items@);
                    }
                    let mut peers: Vec<PeerInfo> = Vec::new();
                    let ilen = items.len();
                    let mut i: usize = 0;
                    while i < ilen
                        invariant
                            0 <= i <= ilen,
                            (match spec_peers_from(iv, i as int) {
                                Option::Some(rest) => spec_peers_from(iv, 0) == Option::Some(
                                    view_of_peers(peers@) + rest,
                                ),
                                Option::None => spec_peers_from(iv, 0) is None,
                            }),
                        decreases ilen - i,
                    {
                        match PeerInfo::from_value(&items[i]) {
                            Ok(p) => {
                                proof {
                                    lemma_view_of_peers_index(peers@);
                                    lemma_view_of_peers_index(peers@.push(p));
                                    assert(peers@.push(p).drop_last() =~= peers@);
                                    assert forall|rest: Seq<PeerInfoView>|
                                        view_of_peers(peers@) + (seq![p@] + rest) =~= view_of_peers(
                                            peers@.push(p),
                                        ) + rest by {
                                        assert(view_of_peers(peers@.push(p)) == view_of_peers(
                                            peers@,
                                        ).push(p@));
                                    }
                                }
                                peers.push(p);
                            },
                            Err(e) => {
                                return Err(e);
                            },
                        }
                        i = i + 1;
                    }
                    proof {
                        assert(view_of_peers(peers@) + Seq::<PeerInfoView>::empty()
                            =~= view_of_peers(peers@));
                    }
                    peers
                },
                Value::BString(b) => {
                    if b.len() % 6 != 0 {
                        return Err("peers is not whole 6-byte records".to_owned());
                    }
                    PeerInfo::from_compact(b.as_slice())
                },
                _ => {
                    return Err("peers is not in the correct form".to_owned());
                },
            },
            None => {
                return Err("missing key: peers".to_owned());
            },
        };
        let min_interval = get_u32(ps, "min interval".as_bytes());
        let tracker_id = match dict_get(ps, "tracker id".as_bytes()) {
            Some(v) => v.bstring_utf8(),
            None => None,
        };
        let payload = TrackerSuccessResponse {
            interval,
            min_interval,
            tracker_id,
            complete,
            incomplete,
            peers,
        };
        match dict_get(ps, "warning message".as_bytes()) {
            Some(v) => match v.bstring_utf8() {
                Some(w) => Ok(TrackerResponse::Warning(w, payload)),
                None => Ok(TrackerResponse::Success(payload)),
            },
            None => Ok(TrackerResponse::Success(payload)),
        }
    }
}

/// Look a key up and read it as an unsigned 32-bit integer.
fn get_u32(ps: &Vec<(Vec<u8>, Value)>, key: &[u8]) -> (r: Option<u32>)
    ensures
        r == as_u32(spec_dict_get(view_of_pairs(ps@), key@)),
{
    match dict_get(ps, key) {
        Some(v) => match v.integer() {
            Some(x) => {
                let x = *x;
                if x >= 0 && x <= u32::MAX as i64 {
                    Some(x as u32)
                } else {
                    None
                }
            },
            None => None,
        },
        None => None,
    }
}


/// Whether the query encode set covers this byte: controls, non-ASCII,
/// space, double quote, hash, and the angle brackets.
pub open spec fn in_query_set(b: u8) -> bool {
    b < 0x20 || b > 0x7e || b == 0x20 || b == 0x22 || b == 0x23 || b == 0x3c || b == 0x3e
}

/// The uppercase hex digit of a nibble.
pub open spec fn hex_upper(n: u8) -> char
    recommends
        n < 16,
{
    if n < 10 {
        ((0x30 + n) as u8) as char
    } else {
        ((0x37 + n) as u8) as char
    }
}

/// The percent-encoding of one byte under the query encode set.
pub open spec fn pct_byte(b: u8) -> Seq<char> {
    if in_query_set(b) {
        seq!['%', hex_upper(b >> 4), hex_upper(b & 0xf)]
    } else {
        seq![b as char]
    }
}

/// The percent-encoding of a byte string under the query encode set.
pub open spec fn spec_query_encode(bytes: Seq<u8>) -> Seq<char>
    decreases bytes.len(),
{
    if bytes.len() == 0 {
        Seq::empty()
    } else {
        pct_byte(bytes[0]) + spec_query_encode(bytes.skip(1))
    }
}

/// Relies on `percent_encoding::percent_encode` with `QUERY_ENCODE_SET`
/// (percent-encoding 1.0): bytes outside 0x21..=0x7e, and `"` `#` `<` `>`,
/// become `%` and two uppercase hex digits; every other byte stands as its
/// own character.
#[verifier::external_body]
fn percent_encode_query(bytes: &[u8]) -> (r: String)
    ensures
        r@ == spec_query_encode(bytes@),
{
    percent_encoding::percent_encode(bytes, percent_encoding::QUERY_ENCODE_SET).collect()
}

/// What an announce reports the client is doing.  A periodic refresh sends
/// no event at all.
#[derive(Debug, Clone, Copy, PartialEq, Eq, Structural)]
pub enum Event {
    Started,
    Stopped,
    Completed,
}

/// The event's name as the tracker protocol spells it.
pub open spec fn spec_event_name(e: Event) -> Seq<char> {
    match e {
        Event::Started => "started"@,
        Event::Stopped => "stopped"@,
        Event::Completed => "completed"@,
    }
}

impl Event {
    pub fn name(&self) -> (r: &'static str)
        ensures
            r@ == spec_event_name(*self),
    {
        match self {
            Event::Started => "started",
            Event::Stopped => "stopped",
            Event::Completed => "completed",
        }
    }
}

/// The whole announce query string for one request.
pub open spec fn spec_announce_url(
    uri: Seq<char>,
    info_hash: Seq<u8>,
    peer_id: Seq<u8>,
    port: u16,
    stats: Stats,
    event: Option<Event>,
    tracker_id: Option<Seq<char>>,
) -> Seq<char> {
    let base = uri + "?info_hash="@ + spec_query_encode(info_hash) + "&peer_id="@
        + spec_query_encode(peer_id) + "&port="@ + dec_chars(port as int) + "&uploaded="@
        + dec_chars(stats.uploaded as int) + "&downloaded="@ + dec_chars(stats.downloaded as int)
        + "&left="@ + dec_chars(stats.left as int) + "&compact=1"@;
    let with_event = match event {
        Option::Some(e) => base + "&event="@ + spec_event_name(e),
        Option::None => base,
    };
    match tracker_id {
        Option::Some(tid) => with_event + "&trackerid="@ + spec_query_encode(
            vstd::utf8::encode_utf8(tid),
        ),
        Option::None => with_event,
    }
}

/// The tracker client's state: what every announce must carry, the tracker
/// id to echo once one was given, and the cached response with its cooldown.
pub struct Tracker {
    /// Our own 20-byte peer id.
    pub peer_id: [u8; 20],
    /// The announce url of the tracker.
    pub tracker_uri: String,
    /// The torrent's info-hash.
    pub info_hash: [u8; 20],
    /// The port we listen on for peer connections.
    pub port: u16,
    /// The id the tracker asked us to echo, once given.
    pub tracker_id: Option<String>,
    /// The last successful response.
    pub response_cache: Option<TrackerSuccessResponse>,
    /// No network refresh before this instant (seconds).
    pub cache_until: u64,
}

impl Tracker {
    /// A fresh tracker client.
    pub fn new(peer_id: [u8; 20], tracker_uri: String, info_hash: [u8; 20], port: u16) -> (r:
        Tracker)
        ensures
            r.peer_id == peer_id,
            r.tracker_uri == tracker_uri,
            r.info_hash == info_hash,
            r.port == port,
            r.tracker_id is None,
            r.response_cache is None,
            r.cache_until == 0,
    {
        Tracker {
            peer_id,
            tracker_uri,
            info_hash,
            port,
            tracker_id: None,
            response_cache: None,
            cache_until: 0,
        }
    }

    /// The cached response a refresh must reuse: present exactly when the
    /// request names no event (a periodic refresh), a response is cached,
    /// and the cooldown has not yet passed.
    pub fn cached_for(&self, event: Option<Event>, now: u64) -> (r: Option<
        &TrackerSuccessResponse,
    >)
        ensures
            (match r {
                Some(p) => event is None && now < self.cache_until && self.response_cache
                    == Option::Some(*p),
                None => !(event is None && now < self.cache_until && self.response_cache is Some),
            }),
    {
        if event.is_none() && now < self.cache_until {
            self.response_cache.as_ref()
        } else {
            None
        }
    }

    /// The announce query string for this request.
    pub fn announce_url(&self, event: Option<Event>, stats: &Stats) -> (r: String)
        ensures
            r@ == spec_announce_url(
                self.tracker_uri@,
                self.info_hash@,
                self.peer_id@,
                self.port,
                *stats,
                event,
                match self.tracker_id {
                    Option::Some(ref t) => Option::Some(t@),
                    Option::None => Option::None,
                },
            ),
    {
        let mut url = self.tracker_uri.clone();
        url.append("?info_hash=");
        let ih = percent_encode_query(self.info_hash.as_slice());
        url.append(ih.as_str());
        url.append("&peer_id=");
        let pid = percent_encode_query(self.peer_id.as_slice());
        url.append(pid.as_str());
        url.append("&port=");
        let port_s = dec_string(self.port as u64);
        url.append(port_s.as_str());
        url.append("&uploaded=");
        let up_s = dec_string(stats.uploaded as u64);
        url.append(up_s.as_str());
        url.append("&downloaded=");
        let down_s = dec_string(stats.downloaded as u64);
        url.append(down_s.as_str());
        url.append("&left=");
        let left_s = dec_string(stats.left as u64);
        url.append(left_s.as_str());
        url.append("&compact=1");
        match event {
            Some(e) => {
                url.append("&event=");
                url.append(e.name());
            },
            None => {},
        }
        match &self.tracker_id {
            Some(tid) => {
                url.append("&trackerid=");
                let t = percent_encode_query(tid.as_str().as_bytes());
                url.append(t.as_str());
            },
            None => {},
        }
        url
    }

    /// Cache the tracker id carried by a response, where one is.
    pub fn update_tracker_id(&mut self, response: &TrackerResponse)
        ensures
            *final(self) == (Tracker {
                tracker_id: match response {
                    TrackerResponse::Success(p) => match p.tracker_id {
                        Option::Some(ref t) => Option::Some(*t),
                        Option::None => old(self).tracker_id,
                    },
                    TrackerResponse::Warning(_, p) => match p.tracker_id {
                        Option::Some(ref t) => Option::Some(*t),
                        Option::None => old(self).tracker_id,
                    },
                    TrackerResponse::Failure(_) => old(self).tracker_id,
                },
                ..*old(self)
            }),
    {
        match response {
            TrackerResponse::Success(p) | TrackerResponse::Warning(_, p) => match &p.tracker_id {
                Some(t) => {
                    self.tracker_id = Some(t.clone());
                },
                None => {},
            },
            TrackerResponse::Failure(_) => {},
        }
    }

    /// Take a fresh response in: echo its tracker id from now on, cache its
    /// payload, and hold refreshes back for the `interval` it names (or the
    /// larger `min interval`).  A failure changes nothing.
    pub fn apply_response(&mut self, response: TrackerResponse, now: u64)
        requires
            now + u32::MAX <= u64::MAX,
        ensures
            (match response {
                TrackerResponse::Success(p) => *final(self) == (Tracker {
                    tracker_id: match p.tracker_id {
                        Option::Some(t) => Option::Some(t),
                        Option::None => old(self).tracker_id,
                    },
                    response_cache: Option::Some(p),
                    cache_until: (now + spec_cooldown(p)) as u64,
                    ..*old(self)
                }),
                TrackerResponse::Warning(_, p) => *final(self) == (Tracker {
                    tracker_id: match p.tracker_id {
                        Option::Some(t) => Option::Some(t),
                        Option::None => old(self).tracker_id,
                    },
                    response_cache: Option::Some(p),
                    cache_until: (now + spec_cooldown(p)) as u64,
                    ..*old(self)
                }),
                TrackerResponse::Failure(_) => *final(self) == *old(self),
            }),
    {
        match response {
            TrackerResponse::Success(p) | TrackerResponse::Warning(_, p) => {
                let cooldown: u32 = match p.min_interval {
                    Some(m) => if m > p.interval {
                        m
                    } else {
                        p.interval
                    },
                    None => p.interval,
                };
                match p.tracker_id {
                    Some(ref t) => {
                        self.tracker_id = Some(t.clone());
                    },
                    None => {},
                }
                self.cache_until = now + cooldown as u64;
                self.response_cache = Some(p);
            },
            TrackerResponse::Failure(_) => {},
        }
    }
}

/// The refresh cooldown a response asks for: its `interval`, or its
/// `min interval` where that is larger.
pub open spec fn spec_cooldown(p: TrackerSuccessResponse) -> u32 {
    match p.min_interval {
        Option::Some(m) => if m > p.interval {
            m
        } else {
            p.interval
        },
        Option::None => p.interval,
    }
}

} // verus!
