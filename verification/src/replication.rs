//! The replication mesh model.
//!
//! Replicas exchange packets over bidirectional streams: a handshake of
//! `Hello` and `Pong` that measures latency and clock skew, a membership
//! exchange that only ever adds peers, counter updates carrying CRDT
//! snapshots, and a resync marker.  At most one session is live per peer;
//! a duplicate session race is resolved deterministically by peer-id
//! order.  The I/O around these decisions lives outside the library.

use vstd::prelude::*;
use vstd::utf8::encode_utf8;
use crate::text::{lemma_lex_trichotomy, str_cmp, str_lt};

verus! {

/// The signed offset of a peer's clock against ours, in milliseconds.
#[derive(Clone, Copy, PartialEq, Eq, Structural, Debug)]
pub enum ClockSkew {
    InSync,
    Slow(u64),
    Fast(u64),
}

impl ClockSkew {
    /// The skew of a remote clock reading against a local one, both in
    /// milliseconds.
    pub fn new(local: u64, remote: u64) -> (r: ClockSkew)
        ensures
            r == (if local == remote {
                ClockSkew::InSync
            } else if local > remote {
                ClockSkew::Slow((local - remote) as u64)
            } else {
                ClockSkew::Fast((remote - local) as u64)
            }),
    {
        if local == remote {
            ClockSkew::InSync
        } else if local > remote {
            ClockSkew::Slow(local - remote)
        } else {
            ClockSkew::Fast(remote - local)
        }
    }

    /// Maps a local instant to the peer's clock.
    pub fn remote(&self, time: u64) -> (r: u64)
        requires
            self is Slow ==> self->Slow_0 <= time,
            self is Fast ==> time + self->Fast_0 <= u64::MAX,
        ensures
            self is InSync ==> r == time,
            self is Slow ==> r == time - self->Slow_0,
            self is Fast ==> r == time + self->Fast_0,
    {
        match self {
            ClockSkew::InSync => time,
            ClockSkew::Slow(d) => time - *d,
            ClockSkew::Fast(d) => time + *d,
        }
    }

    /// The peer's clock now, judged from the local clock and the skew.
    pub fn remote_now(&self) -> (r: Option<u64>)
        ensures
            self is InSync ==> r is Some,
    {
        let now = now_millis();
        match self {
            ClockSkew::InSync => Some(now),
            ClockSkew::Slow(d) => if *d <= now {
                Some(now - *d)
            } else {
                None
            },
            ClockSkew::Fast(d) => if now <= u64::MAX - *d {
                Some(now + *d)
            } else {
                None
            },
        }
    }

    /// Says how the remote clock stands to ours.
    pub fn describe(&self) -> (r: String)
        ensures
            self is InSync ==> r@ == "remote time is the same"@,
    {
        match self {
            ClockSkew::InSync => String::from_str("remote time is the same"),
            ClockSkew::Slow(_) => String::from_str("remote time is slow"),
            ClockSkew::Fast(_) => String::from_str("remote time is fast"),
        }
    }
}

/// Relies on std::time::SystemTime::now and duration_since: milliseconds
/// since the epoch, zero for a clock before it.  Nothing is promised of
/// the value.
#[verifier::external_body]
pub fn now_millis() -> u64 {
    match std::time::SystemTime::now().duration_since(std::time::UNIX_EPOCH) {
        Ok(d) => d.as_millis() as u64,
        Err(_) => 0,
    }
}

/// Relies on std::time::SystemTime::now and duration_since: seconds since
/// the epoch, zero for a clock before it.  Nothing is promised of the
/// value.
#[verifier::external_body]
pub fn now_secs() -> u64 {
    match std::time::SystemTime::now().duration_since(std::time::UNIX_EPOCH) {
        Ok(d) => d.as_secs(),
        Err(_) => 0,
    }
}

// ------------------------------------------------------------------- wire

/// The opening message of a handshake.
#[derive(Debug)]
pub struct Hello {
    pub sender_peer_id: String,
    pub sender_urls: Vec<String>,
    pub receiver_url: Option<String>,
}

/// A clock reading, milliseconds since the epoch.
#[derive(Debug)]
pub struct Pong {
    pub current_time: u64,
}

/// One peer as announced in a membership update.
#[derive(Debug)]
pub struct Peer {
    pub peer_id: String,
    pub latency: u32,
    pub urls: Vec<String>,
}

/// One counter's replicated state on the wire.
#[derive(Debug)]
pub struct CounterUpdate {
    pub key: Vec<u8>,
    pub values: Vec<(String, u64)>,
    pub expires_at: u64,
}

/// The payload of one packet.
#[derive(Debug)]
pub enum Message {
    Hello(Hello),
    Ping,
    Pong(Pong),
    MembershipUpdate(Vec<Peer>),
    CounterUpdate(CounterUpdate),
    ReSyncEnd,
}

/// One framed message of the replication stream.
#[derive(Debug)]
pub struct Packet {
    pub message: Option<Message>,
}

/// The structured failures of a replication session.
#[derive(Clone, Copy, PartialEq, Eq, Structural, Debug)]
pub enum SessionError {
    InvalidArgument,
    AlreadyExists,
    ResourceExhausted,
    Unavailable,
    UnknownFailure,
}

/// What the transport said of a failed stream read.
#[derive(Clone, Copy, PartialEq, Eq, Structural, Debug)]
pub enum IoKind {
    BrokenPipe,
    OtherIo,
}

/// A failed stream read, classified by the I/O error found in its chain,
/// if any.
#[derive(Clone, Copy, PartialEq, Eq, Structural, Debug)]
pub struct StreamFailure {
    pub io_kind: Option<IoKind>,
}

/// A disconnect ends a session silently; any other failure propagates.
pub fn is_disconnect(err: &StreamFailure) -> (r: bool)
    ensures
        r == (err.io_kind == Some(IoKind::BrokenPipe)),
{
    match err.io_kind {
        Some(IoKind::BrokenPipe) => true,
        _ => false,
    }
}

/// What a stream hands back: a packet, a clean end, or a failure.
#[derive(Debug)]
pub enum StreamEvent {
    Received(Packet),
    Closed,
    Failed(StreamFailure),
}

/// The handshake expects the peer's `Hello` first; anything else is a
/// protocol violation.
pub fn read_hello(event: StreamEvent) -> (r: Result<Hello, SessionError>)
    ensures
        match event {
            StreamEvent::Received(p) => match p.message {
                Some(Message::Hello(h)) => r == Ok::<Hello, SessionError>(h),
                _ => r == Err::<Hello, SessionError>(SessionError::InvalidArgument),
            },
            _ => r == Err::<Hello, SessionError>(SessionError::InvalidArgument),
        },
{
    match event {
        StreamEvent::Received(p) => match p.message {
            Some(Message::Hello(h)) => Ok(h),
            _ => Err(SessionError::InvalidArgument),
        },
        _ => Err(SessionError::InvalidArgument),
    }
}

/// The handshake expects the peer's `Pong` after ours.
pub fn read_pong(event: StreamEvent) -> (r: Result<Pong, SessionError>)
    ensures
        match event {
            StreamEvent::Received(p) => match p.message {
                Some(Message::Pong(g)) => r == Ok::<Pong, SessionError>(g),
                _ => r == Err::<Pong, SessionError>(SessionError::InvalidArgument),
            },
            _ => r == Err::<Pong, SessionError>(SessionError::InvalidArgument),
        },
{
    match event {
        StreamEvent::Received(p) => match p.message {
            Some(Message::Pong(g)) => Ok(g),
            _ => Err(SessionError::InvalidArgument),
        },
        _ => Err(SessionError::InvalidArgument),
    }
}

// ------------------------------------------------------------ peer state

/// Mathematical form of a peer tracker.
pub struct TrackerV {
    pub peer_id: Seq<char>,
    pub url: Option<Seq<char>>,
    pub discovered_urls: Seq<Seq<char>>,
    pub latency: u32,
    pub clock_skew: ClockSkew,
    pub session: Option<u64>,
}

/// What the broker knows of one peer: its identity, how to reach it, the
/// measured latency and clock skew, and the live session if any.
#[derive(Debug)]
pub struct PeerTracker {
    pub peer_id: String,
    pub url: Option<String>,
    pub discovered_urls: Vec<String>,
    pub latency: u32,
    pub clock_skew: ClockSkew,
    pub session: Option<u64>,
}

impl View for PeerTracker {
    type V = TrackerV;

    open spec fn view(&self) -> TrackerV {
        TrackerV {
            peer_id: self.peer_id@,
            url: match self.url {
                Some(ref u) => Some(u@),
                None => None,
            },
            discovered_urls: self.discovered_urls@.map_values(|s: String| s@),
            latency: self.latency,
            clock_skew: self.clock_skew,
            session: self.session,
        }
    }
}

/// Mathematical form of the replication state.
pub struct StateV {
    pub discovered_urls: Seq<Seq<char>>,
    pub trackers: Seq<TrackerV>,
}

/// The replication state: the URLs peers reached us on, and one tracker
/// per known peer.
#[derive(Debug)]
pub struct ReplicationState {
    pub discovered_urls: Vec<String>,
    pub peer_trackers: Vec<PeerTracker>,
}

impl View for ReplicationState {
    type V = StateV;

    open spec fn view(&self) -> StateV {
        StateV {
            discovered_urls: self.discovered_urls@.map_values(|s: String| s@),
            trackers: self.peer_trackers@.map_values(|t: PeerTracker| t@),
        }
    }
}

/// Each peer is tracked once.
pub open spec fn trackers_wf(ts: Seq<TrackerV>) -> bool {
    forall|i: int, j: int| 0 <= i < j < ts.len() ==> ts[i].peer_id != ts[j].peer_id
}

/// The tracker of a peer id.
pub open spec fn tracker_lookup(ts: Seq<TrackerV>, id: Seq<char>) -> Option<TrackerV>
    decreases ts.len(),
{
    if ts.len() == 0 {
        None
    } else if ts[0].peer_id == id {
        Some(ts[0])
    } else {
        tracker_lookup(ts.drop_first(), id)
    }
}

/// Whether a string list holds a value.
pub open spec fn holds_str(ss: Seq<Seq<char>>, s: Seq<char>) -> bool {
    exists|k: int| 0 <= k < ss.len() && ss[k] == s
}

/// A list with a value present: unchanged when held, appended otherwise.
pub open spec fn insert_str(ss: Seq<Seq<char>>, s: Seq<char>) -> Seq<Seq<char>> {
    if holds_str(ss, s) {
        ss
    } else {
        ss.push(s)
    }
}

/// Whether a string list holds a value.
fn contains_str(ss: &Vec<String>, s: &String) -> (r: bool)
    ensures
        r == holds_str(strs(ss@), s@),
{
    let ghost v = strs(ss@);
    let mut i: usize = 0;
    while i < ss.len()
        invariant
            i <= v.len(),
            v == strs(ss@),
            v.len() == ss@.len(),
            forall|k: int| 0 <= k < i ==> v[k] != s@,
        decreases v.len() - i,
    {
        if ss[i] == *s {
            proof {
                assert(v[i as int] == s@);
            }
            return true;
        }
        i = i + 1;
    }
    false
}

/// Inserts a URL, keeping the list a set: monotone, never removing.
fn insert_url(ss: &mut Vec<String>, s: String)
    ensures
        strs(final(ss)@) == insert_str(strs(old(ss)@), s@),
        old(ss)@.len() <= final(ss)@.len(),
{
    if !contains_str(ss, &s) {
        ss.push(s);
        proof {
            assert(strs(final(ss)@) =~= strs(old(ss)@).push(s@));
        }
    }
}

/// The views of a list of strings.
pub open spec fn strs(v: Seq<String>) -> Seq<Seq<char>> {
    v.map_values(|s: String| s@)
}

/// Copies a string list, dropping repeated values, keeping first
/// occurrences in order.
fn dedup_strings(ss: &Vec<String>) -> (r: Vec<String>)
    ensures
        forall|k: int| 0 <= k < r@.len() ==> holds_str(strs(ss@), (#[trigger] r@[k])@),
        forall|k: int| 0 <= k < ss@.len() ==> holds_str(strs(r@), (#[trigger] ss@[k])@),
{
    let mut r: Vec<String> = Vec::new();
    let mut i: usize = 0;
    while i < ss.len()
        invariant
            i <= ss@.len(),
            forall|k: int| 0 <= k < r@.len() ==> holds_str(strs(ss@), (#[trigger] r@[k])@),
            forall|k: int| 0 <= k < i ==> holds_str(strs(r@), (#[trigger] ss@[k])@),
        decreases ss@.len() - i,
    {
        let ghost prev = r@;
        if !contains_str(&r, &ss[i]) {
            r.push(ss[i].clone());
            proof {
                assert(strs(r@)[prev.len() as int] == ss@[i as int]@);
                assert(strs(ss@)[i as int] == ss@[i as int]@);
            }
        }
        i = i + 1;
        proof {
            assert forall|k: int| 0 <= k < i implies holds_str(strs(r@), (#[trigger] ss@[k])@) by {
                if k < i - 1 || holds_str(strs(prev), ss@[k]@) {
                    let m = choose|m: int| 0 <= m < strs(prev).len() && strs(prev)[m] == ss@[k]@;
                    assert(r@[m] == prev[m]);
                    assert(strs(r@)[m] == ss@[k]@);
                } else {
                    assert(strs(r@)[prev.len() as int] == ss@[k]@);
                }
            }
            assert forall|k: int| 0 <= k < r@.len() implies holds_str(
                strs(ss@),
                (#[trigger] r@[k])@,
            ) by {
                if k < prev.len() {
                    assert(r@[k] == prev[k]);
                    assert(holds_str(strs(ss@), prev[k]@));
                } else {
                    assert(strs(ss@)[i - 1] == r@[k]@);
                }
            }
        }
    }
    r
}

fn strings_clone(ss: &Vec<String>) -> (r: Vec<String>)
    ensures
        r@.map_values(|x: String| x@) == ss@.map_values(|x: String| x@),
{
    let mut r: Vec<String> = Vec::new();
    let mut i: usize = 0;
    while i < ss.len()
        invariant
            r@.len() == i <= ss@.len(),
            forall|k: int| 0 <= k < i ==> r@[k]@ == ss@[k]@,
        decreases ss@.len() - i,
    {
        r.push(ss[i].clone());
        i = i + 1;
    }
    proof {
        assert(r@.map_values(|x: String| x@) =~= ss@.map_values(|x: String| x@));
    }
    r
}

/// The index of a peer's tracker, if any.
fn find_tracker(ts: &Vec<PeerTracker>, id: &String) -> (r: Option<usize>)
    ensures
        ({
            let v = ts@.map_values(|t: PeerTracker| t@);
            match r {
                Some(i) => i < v.len() && v[i as int].peer_id == id@ && tracker_lookup(v, id@)
                    == Some(v[i as int]) && (forall|k: int|
                    0 <= k < i ==> (#[trigger] v[k]).peer_id != id@),
                None => tracker_lookup(v, id@) is None,
            }
        }),
{
    let ghost v = ts@.map_values(|t: PeerTracker| t@);
    proof {
        assert(v.skip(0) =~= v);
    }
    let mut i: usize = 0;
    while i < ts.len()
        invariant
            i <= v.len(),
            v == ts@.map_values(|t: PeerTracker| t@),
            v.len() == ts@.len(),
            tracker_lookup(v, id@) == tracker_lookup(v.skip(i as int), id@),
            forall|k: int| 0 <= k < i ==> (#[trigger] v[k]).peer_id != id@,
        decreases v.len() - i,
    {
        if ts[i].peer_id == *id {
            proof {
                assert(v.skip(i as int)[0] == v[i as int]);
            }
            return Some(i);
        }
        proof {
            assert(v.skip(i as int)[0] == v[i as int]);
            assert(v.skip(i as int).drop_first() =~= v.skip(i + 1));
        }
        i = i + 1;
    }
    proof {
        assert(v.skip(i as int).len() == 0);
    }
    None
}

/// An absent peer id is at no index.
proof fn lemma_tracker_none(ts: Seq<TrackerV>, id: Seq<char>)
    requires
        tracker_lookup(ts, id) is None,
    ensures
        forall|k: int| 0 <= k < ts.len() ==> (#[trigger] ts[k]).peer_id != id,
    decreases ts.len(),
{
    if ts.len() > 0 {
        lemma_tracker_none(ts.drop_first(), id);
        assert forall|k: int| 0 <= k < ts.len() implies (#[trigger] ts[k]).peer_id != id by {
            if k > 0 {
                assert(ts.drop_first()[k - 1] == ts[k]);
                assert((#[trigger] ts.drop_first()[k - 1]).peer_id != id);
            }
        }
    }
}

/// A first-match index determines the lookup.
proof fn lemma_tracker_at(ts: Seq<TrackerV>, id: Seq<char>, i: int)
    requires
        0 <= i < ts.len(),
        ts[i].peer_id == id,
        forall|k: int| 0 <= k < i ==> (#[trigger] ts[k]).peer_id != id,
    ensures
        tracker_lookup(ts, id) == Some(ts[i]),
    decreases i,
{
    if i > 0 {
        lemma_tracker_at(ts.drop_first(), id, i - 1);
    }
}

// ----------------------------------------------------------- membership

/// What a membership update leaves behind: the known trackers stand
/// untouched and none is deleted, added trackers are sessionless
/// placeholders, every announced peer is tracked afterwards, and the
/// discovered URLs are untouched.
pub open spec fn membership_applied(pre: StateV, post: StateV, peers: Seq<Peer>) -> bool {
    &&& post.discovered_urls == pre.discovered_urls
    &&& pre.trackers.len() <= post.trackers.len()
    &&& post.trackers.take(pre.trackers.len() as int) == pre.trackers
    &&& (forall|k: int|
        pre.trackers.len() <= k < post.trackers.len() ==> {
            let t = #[trigger] post.trackers[k];
            t.session is None && t.latency == 0 && t.url is None && t.clock_skew
                == ClockSkew::InSync
        })
    &&& (forall|k: int|
        0 <= k < peers.len() ==> tracker_lookup(
            post.trackers,
            (#[trigger] peers[k]).peer_id@,
        ) is Some)
}

/// Applies a membership update: newly announced peers are added with no
/// session, no measured latency and no configured URL; peers already
/// tracked are left exactly as they were.  No peer is ever deleted.
pub fn apply_membership_update(state: &mut ReplicationState, peers: &Vec<Peer>)
    requires
        trackers_wf(old(state)@.trackers),
    ensures
        trackers_wf(final(state)@.trackers),
        membership_applied(old(state)@, final(state)@, peers@),
{
    let ghost old_ts = state@.trackers;
    let mut i: usize = 0;
    proof {
        assert(state@.trackers.take(old_ts.len() as int) =~= old_ts);
    }
    while i < peers.len()
        invariant
            i <= peers@.len(),
            trackers_wf(state@.trackers),
            state@.discovered_urls == old(state)@.discovered_urls,
            old_ts == old(state)@.trackers,
            old_ts.len() <= state@.trackers.len(),
            state@.trackers.take(old_ts.len() as int) == old_ts,
            forall|k: int|
                old_ts.len() <= k < state@.trackers.len() ==> {
                    let t = #[trigger] state@.trackers[k];
                    t.session is None && t.latency == 0 && t.url is None && t.clock_skew
                        == ClockSkew::InSync
                },
            forall|k: int|
                0 <= k < i ==> tracker_lookup(
                    state@.trackers,
                    (#[trigger] peers@[k]).peer_id@,
                ) is Some,
        decreases peers@.len() - i,
    {
        let p = &peers[i];
        let ghost ts_before = state@.trackers;
        match find_tracker(&state.peer_trackers, &p.peer_id) {
            Some(_) => {},
            None => {
                proof {
                    lemma_tracker_none(ts_before, p.peer_id@);
                }
                let t = PeerTracker {
                    peer_id: p.peer_id.clone(),
                    url: None,
                    discovered_urls: dedup_strings(&p.urls),
                    latency: 0,
                    clock_skew: ClockSkew::InSync,
                    session: None,
                };
                state.peer_trackers.push(t);
                proof {
                    assert(state@.trackers =~= ts_before.push(state@.trackers.last()));
                    assert(state@.trackers.last().peer_id == peers@[i as int].peer_id@);
                    assert forall|x: int, y: int|
                        0 <= x < y < state@.trackers.len() implies (
                    #[trigger] state@.trackers[x]).peer_id != (
                    #[trigger] state@.trackers[y]).peer_id by {
                        if y < ts_before.len() {
                            assert(ts_before[x].peer_id != ts_before[y].peer_id);
                        } else {
                            assert(state@.trackers[x] == ts_before[x]);
                            assert(ts_before[x].peer_id != peers@[i as int].peer_id@);
                        }
                    }
                    assert(state@.trackers.take(old_ts.len() as int) =~= old_ts);
                    lemma_tracker_at(
                        state@.trackers,
                        peers@[i as int].peer_id@,
                        state@.trackers.len() - 1,
                    );
                }
            },
        }
        i = i + 1;
        proof {
            assert(state@.trackers.take(ts_before.len() as int) =~= ts_before);
            assert forall|k: int|
                0 <= k < i implies tracker_lookup(
                state@.trackers,
                (#[trigger] peers@[k]).peer_id@,
            ) is Some by {
                if k < i - 1 {
                    lemma_lookup_persists(ts_before, state@.trackers, peers@[k].peer_id@);
                }
            }
        }
    }
}

/// A lookup found in a prefix is found unchanged in the whole, when
/// nothing but appends happened.
proof fn lemma_lookup_persists(before: Seq<TrackerV>, after: Seq<TrackerV>, id: Seq<char>)
    requires
        before.len() <= after.len(),
        after.take(before.len() as int) == before,
        tracker_lookup(before, id) is Some,
    ensures
        tracker_lookup(after, id) == tracker_lookup(before, id),
    decreases before.len(),
{
    if before.len() > 0 {
        assert(after[0] == before[0]) by {
            assert(after.take(before.len() as int)[0] == after[0]);
        }
        if before[0].peer_id != id {
            assert(after.drop_first().take(before.drop_first().len() as int) =~= before.drop_first())
                by {
                let bd = before.drop_first();
                let ad = after.drop_first();
                assert forall|k: int| 0 <= k < before.len() - 1 implies ad[k] == bd[k] by {
                    assert(after.take(before.len() as int)[k + 1] == after[k + 1]);
                }
            }
            lemma_lookup_persists(before.drop_first(), after.drop_first(), id);
        }
    }
}

/// A membership update never deletes a peer: every peer tracked before
/// it is tracked after it, exactly as it was.
pub proof fn lemma_membership_never_deletes(
    pre: StateV,
    post: StateV,
    peers: Seq<Peer>,
    id: Seq<char>,
)
    requires
        membership_applied(pre, post, peers),
        tracker_lookup(pre.trackers, id) is Some,
    ensures
        tracker_lookup(post.trackers, id) == tracker_lookup(pre.trackers, id),
{
    lemma_lookup_persists(pre.trackers, post.trackers, id);
}

/// Discovered URL sets are monotone within a process lifetime: an
/// insertion keeps every URL already held and never shrinks the set.
pub proof fn lemma_discovered_urls_monotone(ss: Seq<Seq<char>>, s: Seq<char>, x: Seq<char>)
    requires
        holds_str(ss, x),
    ensures
        holds_str(insert_str(ss, s), x),
        ss.len() <= insert_str(ss, s).len(),
{
    if !holds_str(ss, s) {
        let k = choose|k: int| 0 <= k < ss.len() && ss[k] == x;
        assert(ss.push(s)[k] == x);
    }
}

// ------------------------------------------------------------- handshake

/// What a finished handshake decided: the session was installed (closing
/// an older one with `AlreadyExists` when one is named), or this session
/// is the duplicate and is dropped.
#[derive(Clone, Copy, PartialEq, Eq, Structural, Debug)]
pub enum HandshakeOutcome {
    Established { close_old: Option<u64> },
    DroppedDuplicate,
}

/// The clock skew a handshake computes, from its end instant and the
/// peer's latency-adjusted clock reading.
pub open spec fn skew_of(local: u64, remote: u64) -> ClockSkew {
    if local == remote {
        ClockSkew::InSync
    } else if local > remote {
        ClockSkew::Slow((local - remote) as u64)
    } else {
        ClockSkew::Fast((remote - local) as u64)
    }
}

/// Saturating addition of instants.
pub open spec fn sat_add_ms(a: u64, b: u64) -> u64 {
    if a + b > u64::MAX {
        u64::MAX
    } else {
        (a + b) as u64
    }
}

/// Registers a finished handshake with a peer.
///
/// The URL the peer reached us on joins our discovered set.  A new peer
/// gets a tracker holding the measured latency, the clock skew against
/// the peer's latency-adjusted reading, the peer's announced URLs and
/// the new session.  For a tracked peer without a live session the new
/// session is installed.  When a session is already live, the race is
/// resolved deterministically: if the peer's id sorts below ours the new
/// session replaces the old one, which is to be closed with
/// `AlreadyExists`; otherwise the new session is the duplicate and is
/// dropped.  The URL we dialed, when any, is remembered on the tracker
/// in every case.
pub fn handshake_register(
    state: &mut ReplicationState,
    my_id: &String,
    hello: &Hello,
    peer_pong_ms: u64,
    start_ms: u64,
    end_ms: u64,
    session_id: u64,
    peer_url: &Option<String>,
) -> (r: HandshakeOutcome)
    requires
        trackers_wf(old(state)@.trackers),
        start_ms <= end_ms,
        end_ms - start_ms <= u32::MAX,
    ensures
        trackers_wf(final(state)@.trackers),
        final(state)@.discovered_urls == (match hello.receiver_url {
            Some(u) => insert_str(old(state)@.discovered_urls, u@),
            None => old(state)@.discovered_urls,
        }),
        ({
            let id = hello.sender_peer_id@;
            let new_url = (match peer_url {
                Some(u) => Some(u@),
                None => None,
            });
            match tracker_lookup(old(state)@.trackers, id) {
                Some(t) => {
                    let installed = match t.session {
                        Some(_) => str_lt(id, my_id@),
                        None => true,
                    };
                    let t2 = TrackerV {
                        session: if installed {
                            Some(session_id)
                        } else {
                            t.session
                        },
                        url: if peer_url is Some {
                            new_url
                        } else {
                            t.url
                        },
                        ..t
                    };
                    &&& final(state)@.trackers.len() == old(state)@.trackers.len()
                    &&& tracker_lookup(final(state)@.trackers, id) == Some(t2)
                    &&& (forall|k: int|
                        0 <= k < old(state)@.trackers.len() && (#[trigger] old(
                            state,
                        )@.trackers[k]).peer_id != id ==> final(state)@.trackers[k] == old(
                            state,
                        )@.trackers[k])
                    &&& r == (if installed {
                        HandshakeOutcome::Established { close_old: t.session }
                    } else {
                        HandshakeOutcome::DroppedDuplicate
                    })
                },
                None => {
                    let latency = (end_ms - start_ms) as u64;
                    let adjusted = sat_add_ms(peer_pong_ms, (latency / 2) as u64);
                    &&& final(state)@.trackers.len() == old(state)@.trackers.len() + 1
                    &&& final(state)@.trackers.take(old(state)@.trackers.len() as int) == old(
                        state,
                    )@.trackers
                    &&& ({
                        let t = final(state)@.trackers.last();
                        &&& t.peer_id == id
                        &&& t.session == Some(session_id)
                        &&& t.latency == latency as u32
                        &&& t.clock_skew == skew_of(end_ms, adjusted)
                        &&& t.url == new_url
                        &&& (forall|k: int|
                            0 <= k < t.discovered_urls.len() ==> holds_str(
                                strs(hello.sender_urls@),
                                (#[trigger] t.discovered_urls[k]),
                            ))
                        &&& (forall|k: int|
                            0 <= k < hello.sender_urls@.len() ==> holds_str(
                                t.discovered_urls,
                                (#[trigger] hello.sender_urls@[k])@,
                            ))
                    })
                    &&& r == (HandshakeOutcome::Established { close_old: None })
                },
            }
        }),
{
    match &hello.receiver_url {
        Some(u) => {
            insert_url(&mut state.discovered_urls, u.clone());
        },
        None => {},
    }
    let ghost ts0 = state@.trackers;
    match find_tracker(&state.peer_trackers, &hello.sender_peer_id) {
        Some(idx) => {
            let t = &state.peer_trackers[idx];
            let old_session = t.session;
            let installed = match old_session {
                Some(_) => str_cmp(hello.sender_peer_id.as_str(), my_id.as_str()) < 0,
                None => true,
            };
            let new_session = if installed {
                Some(session_id)
            } else {
                old_session
            };
            let new_url = match peer_url {
                Some(u) => Some(u.clone()),
                None => match &t.url {
                    Some(u) => Some(u.clone()),
                    None => None,
                },
            };
            let t2 = PeerTracker {
                peer_id: t.peer_id.clone(),
                url: new_url,
                discovered_urls: strings_clone(&t.discovered_urls),
                latency: t.latency,
                clock_skew: t.clock_skew,
                session: new_session,
            };
            proof {
                assert(t2@.peer_id == ts0[idx as int].peer_id);
                assert(t2@.discovered_urls =~= ts0[idx as int].discovered_urls);
            }
            state.peer_trackers[idx] = t2;
            proof {
                assert(state@.trackers =~= ts0.update(idx as int, state@.trackers[idx as int]));
                assert forall|x: int, y: int|
                    0 <= x < y < state@.trackers.len() implies (
                #[trigger] state@.trackers[x]).peer_id != (
                #[trigger] state@.trackers[y]).peer_id by {
                    assert(ts0[x].peer_id != ts0[y].peer_id);
                }
                lemma_tracker_at(state@.trackers, hello.sender_peer_id@, idx as int);
            }
            if installed {
                HandshakeOutcome::Established { close_old: old_session }
            } else {
                HandshakeOutcome::DroppedDuplicate
            }
        },
        None => {
            proof {
                lemma_tracker_none(ts0, hello.sender_peer_id@);
            }
            let latency64 = end_ms - start_ms;
            let half = latency64 / 2;
            let adjusted = if peer_pong_ms > u64::MAX - half {
                u64::MAX
            } else {
                peer_pong_ms + half
            };
            let new_url = match peer_url {
                Some(u) => Some(u.clone()),
                None => None,
            };
            let t = PeerTracker {
                peer_id: hello.sender_peer_id.clone(),
                url: new_url,
                discovered_urls: dedup_strings(&hello.sender_urls),
                latency: latency64 as u32,
                clock_skew: ClockSkew::new(end_ms, adjusted),
                session: Some(session_id),
            };
            state.peer_trackers.push(t);
            proof {
                assert(state@.trackers =~= ts0.push(state@.trackers.last()));
                assert(state@.trackers.take(ts0.len() as int) =~= ts0);
                assert forall|x: int, y: int|
                    0 <= x < y < state@.trackers.len() implies (
                #[trigger] state@.trackers[x]).peer_id != (
                #[trigger] state@.trackers[y]).peer_id by {
                    if y < ts0.len() {
                        assert(ts0[x].peer_id != ts0[y].peer_id);
                    } else {
                        assert(state@.trackers[x] == ts0[x]);
                        assert(ts0[x].peer_id != hello.sender_peer_id@);
                    }
                }
            }
            HandshakeOutcome::Established { close_old: None }
        },
    }
}

/// Two replicas racing to connect resolve the duplicate the same way:
/// exactly one of them has the peer's id sorting below its own, so
/// exactly one installs the new session and the other keeps the old one.
/// A pair of replicas therefore ends a mutual dial with one live session.
pub proof fn lemma_session_race_one_winner(a: Seq<char>, b: Seq<char>)
    requires
        a != b,
    ensures
        str_lt(a, b) <==> !str_lt(b, a),
{
    vstd::utf8::encode_utf8_decode_utf8(a);
    vstd::utf8::encode_utf8_decode_utf8(b);
    assert(encode_utf8(a) != encode_utf8(b));
    lemma_lex_trichotomy(encode_utf8(a), encode_utf8(b));
}

// --------------------------------------------------------------- inbound

/// What the session loop does with one inbound packet.
#[derive(Debug)]
pub enum InboundAction {
    SendPong,
    UpdatedMembership,
    ApplyUpdate(CounterUpdate),
}

/// Dispatches one inbound packet of an established session.
///
/// A ping asks for a pong; a membership update adds newly announced
/// peers; a counter update is handed back for the storage callback to
/// merge; anything else is a protocol violation that fails the session
/// with `InvalidArgument`.
pub fn process_packet(state: &mut ReplicationState, packet: Packet) -> (r: Result<
    InboundAction,
    SessionError,
>)
    requires
        trackers_wf(old(state)@.trackers),
    ensures
        trackers_wf(final(state)@.trackers),
        match packet.message {
            Some(Message::Ping) => *final(state) == *old(state) && r == Ok::<
                InboundAction,
                SessionError,
            >(InboundAction::SendPong),
            Some(Message::MembershipUpdate(ps)) => membership_applied(
                old(state)@,
                final(state)@,
                ps@,
            ) && r == Ok::<InboundAction, SessionError>(InboundAction::UpdatedMembership),
            Some(Message::CounterUpdate(u)) => *final(state) == *old(state) && r == Ok::<
                InboundAction,
                SessionError,
            >(InboundAction::ApplyUpdate(u)),
            _ => *final(state) == *old(state) && r == Err::<InboundAction, SessionError>(
                SessionError::InvalidArgument,
            ),
        },
{
    match packet.message {
        Some(Message::Ping) => Ok(InboundAction::SendPong),
        Some(Message::MembershipUpdate(ps)) => {
            apply_membership_update(state, &ps);
            Ok(InboundAction::UpdatedMembership)
        },
        Some(Message::CounterUpdate(u)) => Ok(InboundAction::ApplyUpdate(u)),
        _ => Err(SessionError::InvalidArgument),
    }
}

// ----------------------------------------------------- pending updates

/// Mathematical form of a counter update.
pub struct UpdateV {
    pub key: Seq<u8>,
    pub values: Seq<(Seq<char>, u64)>,
    pub expires_at: u64,
}

impl View for CounterUpdate {
    type V = UpdateV;

    open spec fn view(&self) -> UpdateV {
        UpdateV {
            key: self.key@,
            values: self.values@.map_values(|p: (String, u64)| (p.0@, p.1)),
            expires_at: self.expires_at,
        }
    }
}

impl CounterUpdate {
    /// Whether this update's window is still running at `now`; an
    /// expired update is not worth sending.
    pub fn is_live(&self, now: u64) -> (r: bool)
        ensures
            r == (self.expires_at > now),
    {
        self.expires_at > now
    }
}

/// The pending queue with one update replaced or appended: a key already
/// queued keeps its place and takes the later value (the receiver merges
/// by maximum, so the last writer wins safely); a new key goes to the
/// back.
pub open spec fn pend_upsert(q: Seq<UpdateV>, u: UpdateV) -> Seq<UpdateV>
    decreases q.len(),
{
    if q.len() == 0 {
        seq![u]
    } else if q[0].key == u.key {
        seq![u] + q.drop_first()
    } else {
        seq![q[0]] + pend_upsert(q.drop_first(), u)
    }
}

/// Whether a key is queued.
pub open spec fn pend_holds(q: Seq<UpdateV>, key: Seq<u8>) -> bool
    decreases q.len(),
{
    if q.len() == 0 {
        false
    } else if q[0].key == key {
        true
    } else {
        pend_holds(q.drop_first(), key)
    }
}

/// Queued keys are unique.
pub open spec fn pending_wf(q: Seq<UpdateV>) -> bool {
    forall|i: int, j: int| 0 <= i < j < q.len() ==> q[i].key != q[j].key
}

/// The per-session outbound coalescing queue: updates leave in arrival
/// order, and several updates for one key collapse into the latest.
#[derive(Debug)]
pub struct PendingUpdates {
    pub items: Vec<CounterUpdate>,
}

impl View for PendingUpdates {
    type V = Seq<UpdateV>;

    open spec fn view(&self) -> Seq<UpdateV> {
        self.items@.map_values(|u: CounterUpdate| u@)
    }
}

proof fn lemma_pend_at(q: Seq<UpdateV>, u: UpdateV, i: int)
    requires
        0 <= i < q.len(),
        q[i].key == u.key,
        forall|k: int| 0 <= k < i ==> (#[trigger] q[k]).key != u.key,
    ensures
        pend_upsert(q, u) == q.update(i, u),
    decreases i,
{
    if i == 0 {
        assert(pend_upsert(q, u) =~= q.update(0, u));
    } else {
        lemma_pend_at(q.drop_first(), u, i - 1);
        assert(q.drop_first().update(i - 1, u) =~= q.update(i, u).drop_first());
        assert(pend_upsert(q, u) =~= q.update(i, u));
    }
}

proof fn lemma_pend_push(q: Seq<UpdateV>, u: UpdateV)
    requires
        forall|k: int| 0 <= k < q.len() ==> (#[trigger] q[k]).key != u.key,
    ensures
        pend_upsert(q, u) == q.push(u),
    decreases q.len(),
{
    if q.len() == 0 {
        assert(pend_upsert(q, u) =~= q.push(u));
    } else {
        lemma_pend_push(q.drop_first(), u);
        assert(q.drop_first().push(u) =~= q.push(u).drop_first());
        assert(pend_upsert(q, u) =~= q.push(u));
    }
}

fn bytes_equal(a: &Vec<u8>, b: &Vec<u8>) -> (r: bool)
    ensures
        r == (a@ == b@),
{
    crate::text::bytes_cmp(a.as_slice(), b.as_slice()) == 0
}

impl PendingUpdates {
    /// An empty queue.
    pub fn new() -> (r: PendingUpdates)
        ensures
            r@ == Seq::<UpdateV>::empty(),
            pending_wf(r@),
    {
        let r = PendingUpdates { items: Vec::new() };
        proof {
            assert(r@ =~= Seq::<UpdateV>::empty());
        }
        r
    }

    /// How many updates wait.
    pub fn len(&self) -> (r: usize)
        ensures
            r == self@.len(),
    {
        self.items.len()
    }

    /// Queues one update, coalescing by key.
    pub fn push(&mut self, u: CounterUpdate)
        requires
            pending_wf(old(self)@),
        ensures
            final(self)@ == pend_upsert(old(self)@, u@),
            pending_wf(final(self)@),
    {
        let ghost q0 = self@;
        let mut i: usize = 0;
        while i < self.items.len()
            invariant
                i <= q0.len(),
                q0 == self@,
                q0 == old(self)@,
                pending_wf(q0),
                q0.len() == self.items@.len(),
                forall|k: int| 0 <= k < q0.len() ==> (#[trigger] q0[k]).key == self.items@[k].key@,
                forall|k: int| 0 <= k < i ==> (#[trigger] q0[k]).key != u@.key,
            decreases q0.len() - i,
        {
            if bytes_equal(&self.items[i].key, &u.key) {
                proof {
                    lemma_pend_at(q0, u@, i as int);
                }
                self.items[i] = u;
                proof {
                    assert(self@[i as int] == u@);
                    assert(self@ =~= q0.update(i as int, u@));
                    assert forall|x: int, y: int| 0 <= x < y < self@.len() implies (
                    #[trigger] self@[x]).key != (#[trigger] self@[y]).key by {
                        assert(q0[x].key != q0[y].key);
                    }
                }
                return ;
            }
            i = i + 1;
        }
        proof {
            lemma_pend_push(q0, u@);
        }
        self.items.push(u);
        proof {
            assert(self@ =~= q0.push(self@.last()));
            assert forall|x: int, y: int| 0 <= x < y < self@.len() implies (
            #[trigger] self@[x]).key != (#[trigger] self@[y]).key by {
                if y < q0.len() {
                    assert(q0[x].key != q0[y].key);
                } else {
                    assert(self@[x] == q0[x]);
                    assert(q0[x].key != u@.key);
                }
            }
        }
    }

    /// Takes the update that has waited longest, if any.
    pub fn pop_front(&mut self) -> (r: Option<CounterUpdate>)
        requires
            pending_wf(old(self)@),
        ensures
            pending_wf(final(self)@),
            match r {
                Some(u) => old(self)@.len() > 0 && u@ == old(self)@[0] && final(self)@ == old(
                    self,
                )@.drop_first(),
                None => old(self)@.len() == 0 && final(self)@ == old(self)@,
            },
    {
        if self.items.len() == 0 {
            return None;
        }
        let ghost q0 = self@;
        let u = self.items.remove(0);
        proof {
            assert(self@ =~= q0.drop_first());
            assert forall|x: int, y: int| 0 <= x < y < self@.len() implies (
            #[trigger] self@[x]).key != (#[trigger] self@[y]).key by {
                assert(q0[x + 1].key != q0[y + 1].key);
            }
        }
        Some(u)
    }
}

// ------------------------------------------------------------ peer list

/// Mathematical form of an announced peer.
pub struct PeerV {
    pub peer_id: Seq<char>,
    pub latency: u32,
    pub urls: Seq<Seq<char>>,
}

impl View for Peer {
    type V = PeerV;

    open spec fn view(&self) -> PeerV {
        PeerV { peer_id: self.peer_id@, latency: self.latency, urls: strs(self.urls@) }
    }
}

/// The announcement a tracker yields: its id, its measured latency and
/// its discovered URLs.
pub open spec fn peer_of(t: TrackerV) -> PeerV {
    PeerV { peer_id: t.peer_id, latency: t.latency, urls: t.discovered_urls }
}

/// Announcement order: ascending peer id.
pub open spec fn peer_le(a: PeerV, b: PeerV) -> bool {
    crate::text::str_le(a.peer_id, b.peer_id)
}

/// Stable insertion into a sorted announcement list.
pub open spec fn ins_peer(x: PeerV, s: Seq<PeerV>) -> Seq<PeerV>
    decreases s.len(),
{
    if s.len() > 0 && !peer_le(s.last(), x) {
        ins_peer(x, s.drop_last()).push(s.last())
    } else {
        s.push(x)
    }
}

/// Stable insertion sort of announcements by peer id.
pub open spec fn sort_peers(s: Seq<PeerV>) -> Seq<PeerV>
    decreases s.len(),
{
    if s.len() == 0 {
        Seq::empty()
    } else {
        ins_peer(s.last(), sort_peers(s.drop_last()))
    }
}

fn peer_le_exec(a: &Peer, b: &Peer) -> (r: bool)
    ensures
        r == peer_le(a@, b@),
{
    let c = str_cmp(a.peer_id.as_str(), b.peer_id.as_str());
    proof {
        if a.peer_id@ == b.peer_id@ {
            assert(encode_utf8(a.peer_id@) == encode_utf8(b.peer_id@));
        }
    }
    c <= 0
}

proof fn lemma_ins_peer_at(x: PeerV, s: Seq<PeerV>, j: int)
    requires
        0 <= j <= s.len(),
        forall|k: int| j <= k < s.len() ==> !peer_le(#[trigger] s[k], x),
        j > 0 ==> peer_le(s[j - 1], x),
    ensures
        ins_peer(x, s) == s.take(j) + seq![x] + s.skip(j),
    decreases s.len() - j,
{
    if j == s.len() {
        assert(ins_peer(x, s) =~= s.take(j) + seq![x] + s.skip(j));
    } else {
        assert(!peer_le(s[s.len() - 1], x));
        lemma_ins_peer_at(x, s.drop_last(), j);
        assert(s.drop_last().take(j) =~= s.take(j));
        assert(ins_peer(x, s) =~= s.take(j) + seq![x] + s.skip(j));
    }
}

fn peer_clone(p: &Peer) -> (r: Peer)
    ensures
        r@ == p@,
{
    let r = Peer {
        peer_id: p.peer_id.clone(),
        latency: p.latency,
        urls: strings_clone(&p.urls),
    };
    r
}

/// The peers a broker announces: one entry per tracker, sorted ascending
/// by peer id.
pub fn peers(state: &ReplicationState) -> (r: Vec<Peer>)
    ensures
        r@.map_values(|p: Peer| p@) == sort_peers(
            state@.trackers.map_values(|t: TrackerV| peer_of(t)),
        ),
{
    let ghost all = state@.trackers.map_values(|t: TrackerV| peer_of(t));
    let mut r: Vec<Peer> = Vec::new();
    let mut i: usize = 0;
    proof {
        assert(all.take(0) =~= Seq::<PeerV>::empty());
    }
    while i < state.peer_trackers.len()
        invariant
            i <= all.len(),
            all == state@.trackers.map_values(|t: TrackerV| peer_of(t)),
            all.len() == state.peer_trackers@.len(),
            forall|k: int| 0 <= k < all.len() ==> all[k] == peer_of(state.peer_trackers@[k]@),
            r@.map_values(|p: Peer| p@) == sort_peers(all.take(i as int)),
        decreases all.len() - i,
    {
        let t = &state.peer_trackers[i];
        let x = Peer {
            peer_id: t.peer_id.clone(),
            latency: t.latency,
            urls: strings_clone(&t.discovered_urls),
        };
        proof {
            assert(x@ == all[i as int]);
        }
        let ghost rv = r@.map_values(|p: Peer| p@);
        let mut j: usize = r.len();
        while j > 0 && !peer_le_exec(&r[j - 1], &x)
            invariant
                j <= r@.len(),
                rv == r@.map_values(|p: Peer| p@),
                rv.len() == r@.len(),
                forall|k: int| j <= k < rv.len() ==> !peer_le(#[trigger] rv[k], x@),
            decreases j,
        {
            j = j - 1;
        }
        let ghost gx = x@;
        let ghost prev_r = r@;
        proof {
            lemma_ins_peer_at(gx, rv, j as int);
        }
        r.insert(j, x);
        i = i + 1;
        proof {
            assert(all.take(i as int).drop_last() =~= all.take(i - 1));
            assert(all.take(i as int).last() == all[i - 1]);
            assert(r@ == prev_r.insert(j as int, r@[j as int]));
            assert forall|k: int|
                0 <= k < r@.len() implies r@.map_values(|p: Peer| p@)[k] == ins_peer(gx, rv)[k] by {
                if k < j {
                    assert(r@[k] == prev_r[k]);
                    assert(rv[k] == prev_r[k]@);
                } else if k == j {
                    assert(r@[k]@ == gx);
                } else {
                    assert(r@[k] == prev_r[k - 1]);
                    assert(rv[k - 1] == prev_r[k - 1]@);
                    assert(ins_peer(gx, rv)[k] == rv.skip(j as int)[k - j - 1]);
                }
            }
            assert(r@.map_values(|p: Peer| p@) =~= sort_peers(all.take(i as int)));
        }
    }
    proof {
        assert(all.take(all.len() as int) =~= all);
    }
    r
}

/// The URLs worth dialing for one peer: the configured URL first, then
/// every discovered URL, in order.
pub open spec fn dial_urls(t: TrackerV) -> Seq<Seq<char>> {
    (match t.url {
        Some(u) => seq![u],
        None => Seq::<Seq<char>>::empty(),
    }) + t.discovered_urls
}

/// One URL list per peer without a live session, in tracker order.
pub open spec fn reconnect_spec(ts: Seq<TrackerV>) -> Seq<Seq<Seq<char>>>
    decreases ts.len(),
{
    if ts.len() == 0 {
        Seq::empty()
    } else {
        reconnect_spec(ts.drop_last()) + (if ts.last().session is None {
            seq![dial_urls(ts.last())]
        } else {
            Seq::empty()
        })
    }
}

/// What the reconnect sweeper retries: for each peer without a live
/// session, the configured URL first and then every discovered URL.
pub fn reconnect_candidates(state: &ReplicationState) -> (r: Vec<Vec<String>>)
    ensures
        r@.map_values(|v: Vec<String>| strs(v@)) == reconnect_spec(state@.trackers),
{
    let ghost ts = state@.trackers;
    let mut r: Vec<Vec<String>> = Vec::new();
    let mut i: usize = 0;
    proof {
        assert(ts.take(0) =~= Seq::<TrackerV>::empty());
        assert(r@.map_values(|v: Vec<String>| strs(v@)) =~= reconnect_spec(ts.take(0)));
    }
    while i < state.peer_trackers.len()
        invariant
            i <= ts.len(),
            ts == state@.trackers,
            ts.len() == state.peer_trackers@.len(),
            forall|k: int| 0 <= k < ts.len() ==> ts[k] == state.peer_trackers@[k]@,
            r@.map_values(|v: Vec<String>| strs(v@)) == reconnect_spec(ts.take(i as int)),
        decreases ts.len() - i,
    {
        let t = &state.peer_trackers[i];
        match t.session {
            Some(_) => {},
            None => {
                let mut urls: Vec<String> = Vec::new();
                match &t.url {
                    Some(u) => urls.push(u.clone()),
                    None => {},
                }
                let mut j: usize = 0;
                let ghost head = strs(urls@);
                while j < t.discovered_urls.len()
                    invariant
                        j <= t.discovered_urls@.len(),
                        strs(urls@) =~= head + strs(t.discovered_urls@).take(j as int),
                    decreases t.discovered_urls@.len() - j,
                {
                    let ghost prev = urls@;
                    urls.push(t.discovered_urls[j].clone());
                    j = j + 1;
                    proof {
                        assert(strs(prev).len() == prev.len());
                        assert(strs(urls@)[prev.len() as int] == t.discovered_urls@[j - 1]@);
                        assert(strs(t.discovered_urls@)[j - 1] == t.discovered_urls@[j - 1]@);
                        assert forall|k: int|
                            0 <= k < strs(urls@).len() implies strs(urls@)[k] == (head + strs(
                            t.discovered_urls@,
                        ).take(j as int))[k] by {
                            if k < prev.len() {
                                assert(urls@[k] == prev[k]);
                                assert(strs(prev)[k] == prev[k]@);
                            }
                        }
                        assert(strs(urls@) =~= head + strs(t.discovered_urls@).take(j as int));
                    }
                }
                proof {
                    assert(strs(t.discovered_urls@).take(t.discovered_urls@.len() as int) =~= strs(
                        t.discovered_urls@,
                    ));
                    assert(strs(urls@) =~= dial_urls(ts[i as int]));
                }
                r.push(urls);
            },
        }
        i = i + 1;
        proof {
            assert(ts.take(i as int).drop_last() =~= ts.take(i - 1));
            assert(ts.take(i as int).last() == ts[i - 1]);
            assert(r@.map_values(|v: Vec<String>| strs(v@)) =~= reconnect_spec(ts.take(i as int)));
        }
    }
    proof {
        assert(ts.take(ts.len() as int) =~= ts);
    }
    r
}

/// One counter as the broker publishes it: its key, the counter itself
/// and its replicated value.
#[derive(Debug)]
pub struct CounterEntry {
    pub key: Vec<u8>,
    pub counter: crate::limit::Counter,
    pub value: crate::crdt::CrCounterValue,
}

impl CounterEntry {
    /// Bundles a counter with its key and replicated value.
    pub fn new(
        key: Vec<u8>,
        counter: crate::limit::Counter,
        value: crate::crdt::CrCounterValue,
    ) -> (r: CounterEntry)
        ensures
            r.key@ == key@,
            r.counter@ == counter@,
            r.value@ == value@,
    {
        CounterEntry { key, counter, value }
    }
}

} // verus!

