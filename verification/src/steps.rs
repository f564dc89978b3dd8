//! What the steps of a run come to: what is not dialled, how a probe and a
//! session with the node go on, what is entered and what is reported.

use vstd::prelude::*;

use crate::asn::{use_of, SpecialUse};
use crate::net::ConnectError;
use crate::node::{Failure, Phase, Reply, Setting};
use crate::probe::{Event, Family, OutcomeView, Progress, Stage};
use crate::report::relay_of;
use crate::resolve::EndpointView;
use crate::schedule::{entered, known_of, longest};
use crate::standing::Inputs;
use crate::text::decimal;

verus! {

// Probes.

/// Did the probe fail at `stage`, with these words and no list of versions?
pub open spec fn fails(r: Progress, stage: Stage, words: Seq<char>) -> bool {
    r matches Progress::Over { result: Err(f) } && f.stage == stage && f.error@ == words
        && f.versions is None
}

/// A connection leads to the handshake with that peer, an accepted handshake to
/// asking that peer for its tip, and a tip ends the probe.
pub proof fn a_probe_goes_on(now: Progress, event: Event, ms: u64, r: Progress)
    requires
        crate::probe::can_happen(now, event),
        crate::probe::steps(now, event, ms, r),
    ensures
        event matches Event::Connected { peer } ==> (r matches Progress::Handshaking { peer: p }
            && p == peer),
        event matches Event::Accepted { version } ==> (r matches Progress::Syncing {
            peer: p,
            version: v,
        } && v == version && p == now->Handshaking_peer),
        event matches Event::Tip { point, block } ==> (r matches Progress::Over { result: Ok(x) }
            && {
            &&& x.peer == now->Syncing_peer
            &&& x.family == Family::V6 <==> x.peer.ip is V6
            &&& x.family == Family::V4 <==> x.peer.ip is V4
            &&& x.n2n_version@ == decimal(now->version as nat)
            &&& x.rtt_ms == ms
            &&& x.tip.block == block
            &&& match point {
                Some((slot, hash)) => x.tip.slot == slot && x.tip.hash@ == crate::cbor::hex_text(
                    hash@,
                ),
                None => x.tip.slot == 0 && x.tip.hash@ == "origin"@,
            }
        }),
{
}

/// A probe that gets no connection fails at connecting; one that is refused, is
/// asked for versions, breaks or runs out of time fails at the handshake until
/// that is accepted, and at the chain after it.
pub proof fn a_probe_fails_where_it_is(now: Progress, event: Event, ms: u64, r: Progress)
    requires
        crate::probe::can_happen(now, event),
        crate::probe::steps(now, event, ms, r),
    ensures
        event matches Event::NotConnected { error } ==> fails(
            r,
            Stage::Connect,
            match error {
                ConnectError::Connect(m) => m@,
                ConnectError::Timeout => "timeout"@,
            },
        ),
        event matches Event::Refused { reason, versions } ==> (r matches Progress::Over {
            result: Err(f),
        } && f.stage == Stage::Handshake && f.error@ == "rejected: "@ + reason@ && (f.versions
            is Some <==> versions is Some)),
        event is VersionQuery ==> fails(
            r,
            Stage::Handshake,
            "peer answered with a version query"@,
        ),
        now is Handshaking ==> (event matches Event::Failed { cause } ==> fails(
            r,
            Stage::Handshake,
            cause@,
        )),
        now is Syncing ==> (event matches Event::Failed { cause } ==> fails(
            r,
            Stage::Chainsync,
            cause@,
        )),
        now is Handshaking && event is Timeout ==> fails(r, Stage::Handshake, "timeout"@),
        now is Syncing && event is Timeout ==> fails(r, Stage::Chainsync, "timeout"@),
{
}

/// The survey offers the magic, that this side only initiates, that it shares
/// no peers and that it asks for the version table.
pub proof fn the_survey_asks_for_the_table(magic: u64)
    ensures
        ({
            let b = crate::probe::survey_data(magic);
            let n = b.len() as int;
            &&& b[0] == 0x84
            &&& b.subrange(1, n - 3) == crate::cbor::head(0, magic as nat)
            &&& b[n - 3] == 0xf5
            &&& b[n - 2] == 0
            &&& b[n - 1] == 0xf5
        }),
{
    let b = crate::probe::survey_data(magic);
    let n = b.len() as int;
    assert(b.subrange(1, n - 3) =~= crate::cbor::head(0, magic as nat));
}

// Sessions.

/// Did the session end without a snapshot, in a way that is worth no retry?
pub open spec fn gives_up(r: Phase, words: Seq<char>) -> bool {
    r matches Phase::Over { result: Err(Failure::Setup(m)) } && m@ == words
}

/// Did the query itself fail?
pub open spec fn query_fails(r: Phase, words: Seq<char>) -> bool {
    r matches Phase::Over { result: Err(Failure::Query(m)) } && m@ == words
}

/// A session goes from connecting to the handshake, to acquiring the tip, to
/// the era, to the chain point and to the query, and keeps what it has learnt.
pub proof fn a_session_goes_on(now: Phase, reply: Reply, at: Setting, r: Phase)
    requires
        crate::node::can_come(now, reply),
        crate::node::steps(now, reply, at, r),
    ensures
        now is Connect && reply is Connected ==> r is Handshake,
        now is Handshake ==> (reply matches Reply::Accepted { version } ==> (r
            matches Phase::Acquire { version: v } && v == version)),
        now is Acquire && reply is Acquired ==> r is Era && r->Era_version == now->Acquire_version,
        now is Era ==> (reply matches Reply::Era { era } ==> r is Point && r->Point_version
            == now->Era_version && r->Point_era == era),
        now is Point ==> (reply matches Reply::ChainPoint { point } ==> r is Query
            && r->Query_version == now->Point_version && r->Query_era == now->Point_era
            && r->Query_point == point),
{
}

/// A session fails in the words of the step that it is at; only where the query
/// itself failed is the other shape worth a try.
pub proof fn a_session_fails_where_it_is(now: Phase, reply: Reply, at: Setting, r: Phase)
    requires
        crate::node::can_come(now, reply),
        crate::node::steps(now, reply, at, r),
    ensures
        reply is Timeout ==> gives_up(
            r,
            "no snapshot from "@ + at.socket@ + " within "@ + decimal(at.budget as nat) + "s"@,
        ),
        reply matches Reply::Failed { cause } ==> {
            &&& now is Connect ==> gives_up(
                r,
                "connecting to "@ + at.socket@ + ": "@ + cause@,
            )
            &&& now is Handshake ==> gives_up(r, "node-to-client handshake: "@ + cause@)
            &&& now is Acquire ==> gives_up(r, "acquiring the node's tip: "@ + cause@)
            &&& now is Era ==> gives_up(r, "querying the current era: "@ + cause@)
            &&& now is Point ==> gives_up(r, "querying the chain point: "@ + cause@)
            &&& now is Query ==> query_fails(
                r,
                "GetBigLedgerPeerSnapshot as "@ + (if at.shape is Plain {
                    "Plain"@
                } else {
                    "Kinded"@
                }) + ": "@ + cause@,
            )
        },
        now is Handshake ==> (reply matches Reply::Rejected { reason } ==> gives_up(
            r,
            "node-to-client handshake rejected: "@ + reason@,
        )),
        now is Handshake && reply is VersionQuery ==> gives_up(
            r,
            "node answered the handshake with a version query"@,
        ),
        now is Query ==> (reply matches Reply::Answer { bytes } ==> (crate::node::response_of(
            bytes@,
        ) is Err ==> r matches Phase::Over { result: Err(Failure::Query(_)) })),
{
}

/// A snapshot is of the network, at the slot and with the hash that the answer
/// carries. What the answer lacks is that of the session: its magic, and its
/// chain point or the origin.
pub proof fn a_snapshot_is_of_its_session(
    snap: crate::snapshot::Snapshot<crate::node::Rational>,
    d: crate::node::DecodedView,
    chain: Option<(u64, Seq<u8>)>,
    magic: u64,
    version: u64,
)
    requires
        crate::node::is_answer(snap, d, chain, magic, version),
    ensures
        d.magic matches Some(m) ==> snap.network_magic == m,
        d.magic is None ==> snap.network_magic == magic,
        version < 0x8000 ==> snap.node_to_client_version == version,
        0x8000 <= version < 0x1_0000 ==> snap.node_to_client_version == version - 0x8000,
        d.point matches Some((slot, hash)) ==> snap.point.block_point_slot == slot
            && snap.point.block_point_hash@ == hash,
        d.point is None ==> match chain {
            Some((slot, hash)) => snap.point.block_point_slot == slot
                && snap.point.block_point_hash@ == crate::cbor::hex_text(hash),
            None => snap.point.block_point_slot == 0 && snap.point.block_point_hash@ == "origin"@,
        },
        snap.pools.deep_view() == d.pools,
{
}

// What is not dialled.

/// An endpoint is dialled unless its name did not resolve, all its addresses
/// are private or reserved, or all are IPv6 and this host has no IPv6.
pub proof fn what_can_answer_is_dialled(ep: EndpointView, ipv6: bool)
    ensures
        known_of(ep, ipv6) is None <==> {
            &&& ep.dns_error is None
            &&& ep.addrs.len() > 0 ==> exists|i: int|
                0 <= i < ep.addrs.len() && use_of(#[trigger] ep.addrs[i]) is None
            &&& ep.addrs.len() > 0 && !ipv6 ==> exists|i: int|
                0 <= i < ep.addrs.len() && (#[trigger] ep.addrs[i]) is V4
        },
{
}

/// An endpoint that is not dialled fails at the lookup with what that said, at
/// its address with what it is, or at connecting for want of IPv6.
pub proof fn what_is_not_dialled_says_why(ep: EndpointView, ipv6: bool)
    ensures
        known_of(ep, ipv6) matches Some(o) ==> (o matches Err(f) && {
            &&& f.versions is None
            &&& ep.dns_error matches Some(err) ==> f.stage == Stage::Dns && f.error == err
            &&& ep.dns_error is None ==> {
                let text = crate::ip::ip_text(ep.addrs[0]);
                let special = forall|i: int|
                    0 <= i < ep.addrs.len() ==> use_of(#[trigger] ep.addrs[i]) is Some;
                &&& special && use_of(ep.addrs[0]) == Some(SpecialUse::Private) ==> f.stage
                    == Stage::Address && f.error == "private"@ + " address "@ + text
                    + ", not probed"@
                &&& special && use_of(ep.addrs[0]) == Some(SpecialUse::Reserved) ==> f.stage
                    == Stage::Address && f.error == "reserved"@ + " address "@ + text
                    + ", not probed"@
                &&& !special ==> f.stage == Stage::Connect && f.error
                    == "IPv6 unreachable from the census host, "@ + text + " not probed"@
            }
        }),
{
}

// What came back.

/// What was probed last of an endpoint is its outcome; an endpoint that was not
/// probed keeps what was known of it.
pub proof fn the_last_probe_counts(
    outcomes: Seq<Option<OutcomeView>>,
    probed: Seq<(usize, OutcomeView)>,
    i: int,
    k: int,
)
    requires
        0 <= i < outcomes.len(),
        -1 <= k < probed.len(),
        k >= 0 ==> probed[k].0 == i,
        forall|j: int| k < j < probed.len() ==> (#[trigger] probed[j]).0 != i,
        forall|j: int| 0 <= j < probed.len() ==> (#[trigger] probed[j]).0 < outcomes.len(),
    ensures
        entered(outcomes, probed)[i] == if k >= 0 {
            Some(probed[k].1)
        } else {
            outcomes[i]
        },
    decreases probed.len(),
{
    if probed.len() > 0 {
        let front = probed.drop_last();
        let last = probed.len() - 1;
        assert(probed[last] == probed.last());
        crate::schedule::lemma_entered(outcomes, front, i);
        if k < last {
            the_last_probe_counts(outcomes, front, i, k);
        }
    }
}

/// Probes go in waves: as many as it takes for all of them, each of which takes
/// the whole budget at worst.
pub proof fn probes_go_in_waves(probes: nat, parallel: nat, timeout: nat, waves: nat)
    requires
        parallel > 0,
        probes <= waves * parallel,
        waves == 0 || (waves - 1) * parallel < probes,
    ensures
        longest(probes, parallel, timeout) == waves * timeout,
{
    let top = (probes + parallel - 1) as nat;
    if waves == 0 {
        assert(probes == 0) by (nonlinear_arith)
            requires
                probes <= waves * parallel,
                waves == 0,
                probes >= 0,
        ;
        assert(top / parallel == 0) by (nonlinear_arith)
            requires
                top == parallel - 1,
                parallel > 0,
        ;
    } else {
        let rest: int = top - waves * parallel;
        assert((waves - 1) * parallel == waves * parallel - parallel) by (nonlinear_arith);
        assert(0 <= rest < parallel);
        vstd::arithmetic::div_mod::lemma_fundamental_div_mod_converse(
            top as int,
            parallel as int,
            waves as int,
            rest,
        );
    }
}

/// Whether a shadow answered is known of a relay that has one: it did when what
/// was probed at its address says so.
pub proof fn shadows_answer_at_their_address(
    address: Option<Seq<char>>,
    answered: Map<Seq<char>, bool>,
)
    ensures
        address is None ==> crate::reversed::answered_at(address, answered) is None,
        address matches Some(k) ==> (crate::reversed::answered_at(address, answered) == Some(true)
            <==> answered.contains_key(k) && answered[k]),
        address is Some ==> crate::reversed::answered_at(address, answered) is Some,
{
}

proof fn lemma_present(v: Seq<Option<Seq<char>>>, s: Seq<char>)
    ensures
        crate::reversed::present(v).contains(s) <==> v.contains(Some(s)),
    decreases v.len(),
{
    let all = crate::reversed::present(v);
    if v.len() > 0 {
        let t = v.drop_last();
        let front = crate::reversed::present(t);
        lemma_present(t, s);
        if front.contains(s) {
            let i = front.index_of(s);
            assert(all[i] == s);
        }
        if v.last() == Some(s) {
            assert(all[front.len() as int] == s);
            assert(v[v.len() - 1] == Some(s));
        }
        if t.contains(Some(s)) {
            let i = t.index_of(Some(s));
            assert(v[i] == Some(s));
        }
        if all.contains(s) {
            let i = all.index_of(s);
            if i < front.len() {
                assert(front[i] == s);
            }
        }
        if v.contains(Some(s)) {
            let i = v.index_of(Some(s));
            if i < t.len() {
                assert(t[i] == Some(s));
            }
        }
    }
}

/// The addresses that are probed for the shadows are those of some relay's
/// shadow, each of them once.
pub proof fn every_shadow_is_probed_once(v: Seq<Option<Seq<char>>>, s: Seq<char>)
    ensures
        crate::table::distinct_names(crate::reversed::present(v)).contains(s) <==> v.contains(
            Some(s),
        ),
        crate::table::ascending(crate::table::distinct_names(crate::reversed::present(v))),
{
    lemma_present(v, s);
    crate::table::distinct_names_are_those_held(crate::reversed::present(v));
}

// What is asked for.

/// A label is its key up to the first equals sign and its value behind that,
/// and a key is a letter or an underscore followed by letters, digits and
/// underscores, of which no two lead.
pub proof fn labels_are_keys_and_values(key: Seq<char>, value: Seq<char>)
    requires
        key.len() > 0,
        key[0] == '_' || ('a' <= key[0] <= 'z') || ('A' <= key[0] <= 'Z'),
        forall|i: int|
            0 < i < key.len() ==> (#[trigger] key[i]) == '_' || ('a' <= key[i] <= 'z') || ('A'
                <= key[i] <= 'Z') || ('0' <= key[i] <= '9'),
        key.len() > 1 ==> key[0] != '_' || key[1] != '_',
    ensures
        crate::cli::label_of(key + seq!['='] + value) == Ok::<(Seq<char>, Seq<char>), Seq<char>>(
            (key, value),
        ),
{
    let s = key + seq!['='] + value;
    crate::text::lemma_first_at_is(s, '=', key.len() as int);
    assert(s.take(key.len() as int) =~= key);
    assert(s.skip(key.len() as int + 1) =~= value);
    assert(crate::cli::is_label_name(key));
}

/// What has no equals sign is no label, nor is what has a bad key.
pub proof fn other_texts_are_no_labels(s: Seq<char>, i: int)
    ensures
        !s.contains('=') ==> crate::cli::label_of(s) is Err,
        crate::cli::label_of(s) matches Ok(p) ==> {
            &&& s == p.0 + seq!['='] + p.1
            &&& p.0.len() > 0
            &&& !('0' <= p.0[0] <= '9')
            &&& p.0.len() > 1 ==> p.0[0] != '_' || p.0[1] != '_'
            &&& 0 <= i < p.0.len() ==> p.0[i] == '_' || ('a' <= p.0[i] <= 'z') || ('A' <= p.0[i]
                <= 'Z') || ('0' <= p.0[i] <= '9')
        },
{
    crate::text::lemma_first_at(s, '=');
    if let Ok(p) = crate::cli::label_of(s) {
        assert(s =~= p.0 + seq!['='] + p.1);
        assert(crate::cli::is_label_char(0, p.0[0]));
        if 0 <= i < p.0.len() {
            assert(crate::cli::is_label_char(i, p.0[i]));
        }
    }
}

// Reports.

/// A relay is reported under its address and port, with the endpoints that list
/// it. One that answered is reachable and has its peer, family, version, tip
/// and time and no error; one that failed has its stage and error and none of
/// those.
pub proof fn relays_are_reported(
    inputs: Inputs<'_>,
    asn: Seq<Option<crate::asn::AsInfoView>>,
    e: int,
)
    requires
        0 <= e < inputs.entries.len(),
    ensures
        ({
            let r = relay_of(inputs, asn, e);
            &&& r.address == inputs.entries[e].address
            &&& r.port == inputs.entries[e].port
            &&& r.asn == match asn[e] {
                Some(a) => Some(a.asn),
                None => None,
            }
            &&& r.reachable == (inputs.best()[e] matches Some(Ok(_)))
            &&& match inputs.best()[e] {
                Some(Ok(x)) => {
                    &&& r.peer == Some(crate::ip::addr_text(x.peer))
                    &&& r.family == Some(x.family)
                    &&& r.n2n_version == Some(x.n2n_version)
                    &&& r.tip == Some(x.tip)
                    &&& r.rtt_ms == Some(x.rtt_ms)
                    &&& r.stage is None
                    &&& r.error is None
                },
                Some(Err(f)) => {
                    &&& r.stage == Some(f.stage)
                    &&& r.error == Some(f.error)
                    &&& r.peer is None && r.family is None && r.n2n_version is None
                    &&& r.tip is None && r.rtt_ms is None
                },
                None => {
                    &&& r.stage is None && r.error is None
                    &&& r.peer is None && r.family is None && r.n2n_version is None
                    &&& r.tip is None && r.rtt_ms is None
                },
            }
            &&& r.shared_endpoint <==> exists|x: int|
                0 <= x < inputs.endpoints.len() && #[trigger] inputs.endpoints[x].entries.contains(
                    e as usize,
                ) && inputs.endpoints[x].entries.len() > 1
            &&& forall|k: Seq<char>|
                #[trigger] r.endpoints.contains(k) <==> exists|x: int|
                    0 <= x < inputs.endpoints.len()
                        && #[trigger] inputs.endpoints[x].entries.contains(e as usize)
                        && inputs.endpoints[x].key == k
        }),
{
    let r = relay_of(inputs, asn, e);
    let eps = inputs.endpoints;
    let n = eps.len() as int;
    let lists = crate::outcomes::lists(eps, e as usize);
    let xs = crate::outcomes::found_at(eps, e as usize);
    crate::count::lemma_select(n, lists);
    assert forall|x: int| 0 <= x < n && #[trigger] eps[x].entries.contains(e as usize) implies
        xs.contains(x) by {
        assert(lists(x));
    }
    assert forall|j: int| 0 <= j < xs.len() implies 0 <= #[trigger] xs[j] < n
        && eps[xs[j]].entries.contains(e as usize) by {
        assert(lists(xs[j]));
    }
    if exists|x: int|
        0 <= x < n && #[trigger] eps[x].entries.contains(e as usize) && eps[x].entries.len() > 1 {
        let x = choose|x: int|
            0 <= x < n && #[trigger] eps[x].entries.contains(e as usize) && eps[x].entries.len()
                > 1;
        let j = xs.index_of(x);
        assert(eps[xs[j]].entries.len() > 1);
    }
    assert forall|k: Seq<char>| #[trigger] r.endpoints.contains(k) <==> exists|x: int|
        0 <= x < n && #[trigger] eps[x].entries.contains(e as usize) && eps[x].key == k by {
        if r.endpoints.contains(k) {
            let j = r.endpoints.index_of(k);
            assert(eps[xs[j]].key == k);
            assert(eps[xs[j]].entries.contains(e as usize));
        }
        if exists|x: int|
            0 <= x < n && #[trigger] eps[x].entries.contains(e as usize) && eps[x].key == k {
            let x = choose|x: int|
                0 <= x < n && #[trigger] eps[x].entries.contains(e as usize) && eps[x].key == k;
            let j = xs.index_of(x);
            assert(r.endpoints[j] == k);
        }
    }
}

/// A row reports on its pool as the census has it and with the stake that the
/// snapshot gives it.
pub proof fn pools_are_reported<S>(
    row: crate::report::PoolReport<'_, S>,
    c: crate::census::Census,
    snap: crate::snapshot::Snapshot<S>,
    relays: Seq<crate::report::RelayReportView>,
    p: int,
)
    requires
        crate::report::reports_pool(row, c, snap, relays, p),
    ensures
        row.index == c.pools[p].index,
        *row.accumulated_stake == snap.pools[row.index as int].accumulated_stake,
        *row.relative_stake == snap.pools[row.index as int].relative_stake,
        row.relays_total == c.pools[p].relays_total,
        row.relays_reachable == c.pools[p].relays_reachable,
        row.reach == c.pools[p].reach,
        row.fraction == c.pools[p].fraction,
        row.fastest_rtt_ms == c.pools[p].fastest_rtt_ms,
        row.relays.len() == relays.len(),
{
    assert(row.relays.deep_view().len() == row.relays.len());
}

} // verus!
