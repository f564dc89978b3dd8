//! Probing one relay: connect, complete the node-to-node handshake, and ask
//! for the tip. The steps are decided here; taking them is left to the caller.

use pallas_network::miniprotocols::handshake::n2n;
use vstd::prelude::*;

use crate::cbor::{hex_of, write_array, write_bool, write_u64, write_u8};
use crate::ip::{Ip, SockAddr};
use crate::net::ConnectError;
use crate::sort::{sort, Ranked};
use crate::text::{number, put};

verus! {

/// How far a failed probe got.
#[derive(Clone, Copy, Debug, PartialEq, Eq, Structural)]
pub enum Stage {
    Srv,
    Dns,
    /// Resolved only to private or reserved space, so it was never dialled;
    /// loopback and 0.0.0.0 would reach the census host's own node.
    Address,
    Connect,
    Handshake,
    Chainsync,
}

impl Stage {
    pub const ALL: [Stage; 6] = [
        Stage::Srv,
        Stage::Dns,
        Stage::Address,
        Stage::Connect,
        Stage::Handshake,
        Stage::Chainsync,
    ];

    pub open spec fn name(self) -> Seq<char> {
        match self {
            Stage::Srv => "srv"@,
            Stage::Dns => "dns"@,
            Stage::Address => "address"@,
            Stage::Connect => "connect"@,
            Stage::Handshake => "handshake"@,
            Stage::Chainsync => "chainsync"@,
        }
    }

    pub fn label(self) -> (s: &'static str)
        ensures
            s@ == self.name(),
    {
        match self {
            Stage::Srv => "srv",
            Stage::Dns => "dns",
            Stage::Address => "address",
            Stage::Connect => "connect",
            Stage::Handshake => "handshake",
            Stage::Chainsync => "chainsync",
        }
    }
}

#[derive(Clone, Copy, Debug, PartialEq, Eq, Structural)]
pub enum Family {
    V4,
    V6,
}

#[derive(Clone, Debug)]
pub struct Tip {
    pub slot: u64,
    pub hash: String,
    pub block: u64,
}

pub struct TipView {
    pub slot: u64,
    pub hash: Seq<char>,
    pub block: u64,
}

impl DeepView for Tip {
    type V = TipView;

    open spec fn deep_view(&self) -> TipView {
        TipView { slot: self.slot, hash: self.hash@, block: self.block }
    }
}

/// A relay that returned its tip.
#[derive(Clone, Debug)]
pub struct Reached {
    pub peer: SockAddr,
    pub family: Family,
    pub n2n_version: String,
    pub tip: Tip,
    pub rtt_ms: u64,
}

pub struct ReachedView {
    pub peer: SockAddr,
    pub family: Family,
    pub n2n_version: Seq<char>,
    pub tip: TipView,
    pub rtt_ms: u64,
}

impl DeepView for Reached {
    type V = ReachedView;

    open spec fn deep_view(&self) -> ReachedView {
        ReachedView {
            peer: self.peer,
            family: self.family,
            n2n_version: self.n2n_version@,
            tip: self.tip.deep_view(),
            rtt_ms: self.rtt_ms,
        }
    }
}

impl Reached {
    pub fn copy(&self) -> (r: Self)
        ensures
            r == *self,
    {
        Reached {
            peer: self.peer,
            family: self.family,
            n2n_version: self.n2n_version.clone(),
            tip: Tip {
                slot: self.tip.slot,
                hash: self.tip.hash.clone(),
                block: self.tip.block,
            },
            rtt_ms: self.rtt_ms,
        }
    }
}

/// A relay that returned no tip.
#[derive(Clone, Debug)]
pub struct Failed {
    pub stage: Stage,
    pub error: String,
    /// The versions a relay said it supports when it refused ours, so a
    /// relay the census can no longer talk to still reports what it speaks.
    pub versions: Option<Vec<u64>>,
}

pub struct FailedView {
    pub stage: Stage,
    pub error: Seq<char>,
    pub versions: Option<Seq<u64>>,
}

impl DeepView for Failed {
    type V = FailedView;

    open spec fn deep_view(&self) -> FailedView {
        FailedView {
            stage: self.stage,
            error: self.error@,
            versions: match self.versions {
                Some(v) => Some(v@),
                None => None,
            },
        }
    }
}

impl Failed {
    pub fn copy(&self) -> (r: Self)
        ensures
            r.deep_view() == self.deep_view(),
    {
        let versions = match &self.versions {
            Some(v) => {
                let mut own: Vec<u64> = Vec::new();
                own.extend_from_slice(v.as_slice());
                assert(own@ =~= v@);
                Some(own)
            },
            None => None,
        };
        Failed { stage: self.stage, error: self.error.clone(), versions }
    }
}

pub type Outcome = Result<Reached, Failed>;

pub type OutcomeView = Result<ReachedView, FailedView>;

/// What an outcome says.
pub open spec fn outcome(o: Outcome) -> OutcomeView {
    match o {
        Ok(r) => Ok(r.deep_view()),
        Err(f) => Err(f.deep_view()),
    }
}

/// What the outcomes of several probes say.
pub open spec fn outcomes_of(s: Seq<Option<Outcome>>) -> Seq<Option<OutcomeView>> {
    Seq::new(
        s.len(),
        |i: int|
            match s[i] {
                Some(o) => Some(outcome(o)),
                None => None,
            },
    )
}

pub fn copy_outcome(o: &Outcome) -> (r: Outcome)
    ensures
        outcome(r) == outcome(*o),
{
    match o {
        Ok(r) => Ok(r.copy()),
        Err(f) => Err(f.copy()),
    }
}

// Protocol versions.

impl Ranked for u64 {
    open spec fn ahead(&self, other: &Self) -> bool {
        *self < *other
    }

    fn is_ahead(&self, other: &Self) -> bool {
        *self < *other
    }
}

/// Do the numbers ascend?
pub open spec fn ascends(s: Seq<u64>) -> bool {
    forall|i: int, j: int| 0 <= i < j < s.len() ==> s[i] <= s[j]
}

/// Protocol versions, lowest first.
pub fn lowest_first(v: Vec<u64>) -> (out: Vec<u64>)
    ensures
        ascends(out@),
        out@.to_multiset() == v@.to_multiset(),
{
    let ghost all = v@;
    let out = sort(v);
    proof {
        crate::sort::sorting_keeps_every_value(all);
        crate::sort::sorting_puts_in_order(all);
        assert forall|i: int, j: int| 0 <= i < j < out.len() implies out[i] <= out[j] by {
            assert(!out@[j].ahead(&out@[i]));
        }
    }
    out
}

/// Calls `n2n::VersionTable::v11_and_above` and takes the keys of its table:
/// the versions 11, 12, 13 and 14, in whatever order the table is walked.
#[verifier::external_body]
fn proposed(magic: u64) -> (v: Vec<u64>)
    ensures
        v@.to_multiset() == seq![11u64, 12, 13, 14].to_multiset(),
{
    n2n::VersionTable::v11_and_above(magic).values.keys().copied().collect()
}

/// The node-to-node versions this census proposes, lowest first. The
/// negotiated version can never exceed the last of these.
pub fn offered_versions(magic: u64) -> (v: Vec<u64>)
    ensures
        v@ == seq![11u64, 12, 13, 14],
{
    let v = lowest_first(proposed(magic));
    proof {
        let leq = |a: u64, b: u64| a <= b;
        vstd::seq_lib::lemma_sorted_unique(v@, seq![11u64, 12, 13, 14], leq);
    }
    v
}

/// Version data for the survey handshake: the four-field node-to-node data
/// `[magic, initiator only, peer sharing disabled, query]`, the query flag set.
pub open spec fn survey_data(magic: u64) -> Seq<u8> {
    seq![0x84u8] + crate::cbor::head(0, magic as nat) + seq![0xf5u8, 0u8, 0xf5u8]
}

pub fn encode_survey(magic: u64) -> (out: Vec<u8>)
    ensures
        out@ == survey_data(magic),
{
    let mut out: Vec<u8> = Vec::new();
    write_array(&mut out, 4);
    write_u64(&mut out, magic);
    write_bool(&mut out, true);
    write_u8(&mut out, 0);
    write_bool(&mut out, true);
    assert(out@ =~= survey_data(magic));
    out
}

/// What came of asking a relay for its version table.
#[derive(Debug)]
pub enum Survey {
    NotConnected(ConnectError),
    Versions(Vec<u64>),
    Accepted(u64),
    Rejected(String),
    Failed(String),
    Timeout,
}

/// The versions a relay supports, lowest first. The handshake's query flag
/// makes the responder answer with its whole version table instead of picking
/// one, and the connection ends there.
pub fn surveyed(survey: Survey) -> (r: Result<Vec<u64>, String>)
    ensures
        match survey {
            Survey::Versions(v) => r matches Ok(out) && ascends(out@) && out@.to_multiset()
                == v@.to_multiset(),
            Survey::NotConnected(e) => r matches Err(m) && m@ == e.words(),
            Survey::Accepted(v) => r matches Err(m) && m@ == "accepted version "@
                + crate::text::decimal(v as nat) + " instead of answering the query"@,
            Survey::Rejected(reason) => r matches Err(m) && m@ == "rejected: "@ + reason@,
            Survey::Failed(cause) => r matches Err(m) && m@ == cause@,
            Survey::Timeout => r matches Err(m) && m@ == "timeout"@,
        },
{
    match survey {
        Survey::Versions(v) => Ok(lowest_first(v)),
        Survey::NotConnected(e) => Err(e.text()),
        Survey::Accepted(v) => {
            let mut m = "accepted version ".to_owned();
            put(&mut m, number(v).as_str());
            put(&mut m, " instead of answering the query");
            Err(m)
        },
        Survey::Rejected(reason) => {
            let mut m = "rejected: ".to_owned();
            put(&mut m, reason.as_str());
            Err(m)
        },
        Survey::Failed(cause) => Err(cause),
        Survey::Timeout => Err("timeout".to_owned()),
    }
}

// The probe.

/// What a probe waits for.
#[derive(Debug)]
pub enum Progress {
    Connecting,
    Handshaking { peer: SockAddr },
    Syncing { peer: SockAddr, version: u64 },
    Over { result: Outcome },
}

/// What came of the last step of a probe.
#[derive(Debug)]
pub enum Event {
    Connected { peer: SockAddr },
    NotConnected { error: ConnectError },
    Accepted { version: u64 },
    /// The handshake was refused; a relay with no version in common names the
    /// ones it has.
    Refused { reason: String, versions: Option<Vec<u64>> },
    VersionQuery,
    /// The relay's tip: slot and hash, none for the origin, and block.
    Tip { point: Option<(u64, Vec<u8>)>, block: u64 },
    /// The step failed, in the words of the layer below.
    Failed { cause: String },
    /// The probe's budget ran out.
    Timeout,
}

/// Can `event` come while the probe is in `now`?
pub open spec fn can_happen(now: Progress, event: Event) -> bool {
    match (now, event) {
        (Progress::Connecting, Event::Connected { .. }) => true,
        (Progress::Connecting, Event::NotConnected { .. }) => true,
        (Progress::Handshaking { .. }, Event::Accepted { .. }) => true,
        (Progress::Handshaking { .. }, Event::Refused { .. }) => true,
        (Progress::Handshaking { .. }, Event::VersionQuery) => true,
        (Progress::Handshaking { .. }, Event::Failed { .. }) => true,
        (Progress::Handshaking { .. }, Event::Timeout) => true,
        (Progress::Syncing { .. }, Event::Tip { .. }) => true,
        (Progress::Syncing { .. }, Event::Failed { .. }) => true,
        (Progress::Syncing { .. }, Event::Timeout) => true,
        _ => false,
    }
}

/// Did the probe end at `stage`, for the reason `words`?
pub open spec fn failed_at(now: Progress, stage: Stage, words: Seq<char>) -> bool {
    now matches Progress::Over { result: Err(f) } && f.deep_view() == (FailedView {
        stage,
        error: words,
        versions: None,
    })
}

pub open spec fn family_of(ip: Ip) -> Family {
    match ip {
        Ip::V4(_) => Family::V4,
        Ip::V6(_) => Family::V6,
    }
}

/// The tip that a relay at `point` and `block` reports.
pub open spec fn tip_of(point: Option<(u64, Seq<u8>)>, block: u64) -> TipView {
    match point {
        Some((slot, hash)) => TipView { slot, hash: crate::cbor::hex_text(hash), block },
        None => TipView { slot: 0, hash: "origin"@, block },
    }
}

fn fail(stage: Stage, error: String) -> (r: Progress)
    ensures
        failed_at(r, stage, error@),
{
    Progress::Over { result: Err(Failed { stage, error, versions: None }) }
}

/// Does the probe go from `now` to `r` when `event` comes `elapsed_ms` after
/// its start?
pub open spec fn steps(now: Progress, event: Event, elapsed_ms: u64, r: Progress) -> bool {
    match (now, event) {
        (_, Event::Connected { peer }) => r == (Progress::Handshaking { peer }),
        (_, Event::NotConnected { error }) => failed_at(r, Stage::Connect, error.words()),
        (Progress::Handshaking { peer }, Event::Accepted { version }) => r == (
        Progress::Syncing { peer, version }),
        (_, Event::Refused { reason, versions }) => r matches Progress::Over { result: Err(f) }
            && f.stage == Stage::Handshake && f.error@ == "rejected: "@ + reason@ && (
        match versions {
            Some(v) => f.versions matches Some(out) && ascends(out@) && out@.to_multiset()
                == v@.to_multiset(),
            None => f.versions is None,
        }),
        (_, Event::VersionQuery) => failed_at(
            r,
            Stage::Handshake,
            "peer answered with a version query"@,
        ),
        (Progress::Syncing { peer, version }, Event::Tip { point, block }) => r matches
            Progress::Over { result: Ok(reached) } && reached.deep_view() == (ReachedView {
            peer,
            family: family_of(peer.ip),
            n2n_version: crate::text::decimal(version as nat),
            tip: tip_of(crate::node::point_view(point), block),
            rtt_ms: elapsed_ms,
        }),
        (p, Event::Failed { cause }) => failed_at(
            r,
            if p is Syncing {
                Stage::Chainsync
            } else {
                Stage::Handshake
            },
            cause@,
        ),
        (p, _) => failed_at(
            r,
            if p is Syncing {
                Stage::Chainsync
            } else {
                Stage::Handshake
            },
            "timeout"@,
        ),
    }
}

/// Take the probe one step on. `elapsed_ms` is the time since it started.
pub fn advance(now: Progress, event: Event, elapsed_ms: u64) -> (r: Progress)
    requires
        can_happen(now, event),
    ensures
        steps(now, event, elapsed_ms, r),
{
    let stage = match &now {
        Progress::Syncing { .. } => Stage::Chainsync,
        _ => Stage::Handshake,
    };
    match (now, event) {
        (_, Event::Connected { peer }) => Progress::Handshaking { peer },
        (_, Event::NotConnected { error }) => fail(Stage::Connect, error.text()),
        (Progress::Handshaking { peer }, Event::Accepted { version }) => Progress::Syncing {
            peer,
            version,
        },
        (_, Event::Refused { reason, versions }) => {
            let mut error = "rejected: ".to_owned();
            put(&mut error, reason.as_str());
            let versions = match versions {
                Some(v) => Some(lowest_first(v)),
                None => None,
            };
            Progress::Over { result: Err(Failed { stage: Stage::Handshake, error, versions }) }
        },
        (_, Event::VersionQuery) => fail(
            Stage::Handshake,
            "peer answered with a version query".to_owned(),
        ),
        (Progress::Syncing { peer, version }, Event::Tip { point, block }) => {
            let tip = match point {
                Some((slot, hash)) => Tip { slot, hash: hex_of(hash.as_slice()), block },
                None => Tip { slot: 0, hash: "origin".to_owned(), block },
            };
            let family = match peer.ip {
                Ip::V4(_) => Family::V4,
                Ip::V6(_) => Family::V6,
            };
            Progress::Over {
                result: Ok(
                    Reached { peer, family, n2n_version: number(version), tip, rtt_ms: elapsed_ms },
                ),
            }
        },
        (_, Event::Failed { cause }) => fail(stage, cause),
        _ => fail(stage, "timeout".to_owned()),
    }
}

/// Is this how a probe went: from `states[i]`, `events[i]` led on at `at[i]`?
pub open spec fn is_run(states: Seq<Progress>, events: Seq<Event>, at: Seq<u64>) -> bool {
    &&& states.len() == events.len() + 1
    &&& at.len() == events.len()
    &&& states[0] is Connecting
    &&& forall|i: int|
        #![trigger events[i]]
        0 <= i < events.len() ==> can_happen(states[i], events[i]) && steps(
            states[i],
            events[i],
            at[i],
            states[i + 1],
        )
}

/// A probe takes three steps at most: it connects, shakes hands and asks for
/// the tip.
pub proof fn a_probe_takes_three_steps(states: Seq<Progress>, events: Seq<Event>, at: Seq<u64>)
    requires
        is_run(states, events, at),
    ensures
        events.len() <= 3,
{
    if events.len() > 0 {
        let first = events[0];
        if events.len() > 1 {
            let second = events[1];
            if events.len() > 2 {
                let third = events[2];
                if events.len() > 3 {
                    let fourth = events[3];
                }
            }
        }
    }
}

/// A relay is reached when the connection stands, the handshake is accepted
/// and the tip is returned, and in no other way; the outcome then tells the
/// peer, the version and the time of exactly those three.
pub proof fn a_relay_is_reached_by_its_tip(
    states: Seq<Progress>,
    events: Seq<Event>,
    at: Seq<u64>,
)
    requires
        is_run(states, events, at),
        states.last() is Over,
    ensures
        states.last()->result is Ok <==> events.len() == 3 && events[0] is Connected && events[1]
            is Accepted && events[2] is Tip,
        states.last() matches Progress::Over { result: Ok(r) } ==> {
            &&& r.peer == events[0]->Connected_peer
            &&& r.family == family_of(r.peer.ip)
            &&& r.n2n_version@ == crate::text::decimal(events[1]->Accepted_version as nat)
            &&& r.tip.block == events[2]->block
            &&& r.rtt_ms == at[2]
        },
{
    a_probe_takes_three_steps(states, events, at);
    if events.len() > 0 {
        let first = events[0];
        if events.len() > 1 {
            let second = events[1];
            if events.len() > 2 {
                let third = events[2];
            }
        }
    }
}

} // verus!
