//! What a run asks of whom: the snapshot, and then every endpoint once.

use rand::seq::SliceRandom;
use vstd::prelude::*;

use crate::asn::special_use;
use crate::cli::Args;
use crate::ip::{write_ip, Ip};
use crate::probe::{outcome, outcomes_of, Failed, FailedView, Outcome, OutcomeView, Stage};
use crate::resolve::{Endpoint, EndpointView};
use crate::text::{put, string_of};

verus! {

// The snapshot.

/// Where the snapshot comes from.
#[derive(Clone, Debug)]
pub enum Source {
    /// A local cardano-node behind a socket, on the network of this magic.
    Node { socket: String, magic: u64 },
    File { path: String },
}

/// Why there is nowhere to take the snapshot from.
#[derive(Clone, Copy, Debug, PartialEq, Eq, Structural)]
pub enum SourceError {
    NoMagic,
    NoSource,
}

impl SourceError {
    pub open spec fn words(self) -> Seq<char> {
        match self {
            SourceError::NoMagic => "--node-socket needs --network-magic"@,
            SourceError::NoSource => "one of --snapshot or --node-socket is required"@,
        }
    }

    pub fn text(self) -> (s: &'static str)
        ensures
            s@ == self.words(),
    {
        match self {
            SourceError::NoMagic => "--node-socket needs --network-magic",
            SourceError::NoSource => "one of --snapshot or --node-socket is required",
        }
    }
}

/// Where the snapshot is to be taken from. A socket goes before a file and
/// carries no network identity, so it needs the magic.
pub fn source(args: &Args) -> (r: Result<Source, SourceError>)
    ensures
        match (args.node_socket, args.snapshot) {
            (Some(s), _) => match args.network_magic {
                Some(m) => r matches Ok(Source::Node { socket, magic }) && socket@ == s@ && magic
                    == m,
                None => r == Err::<Source, SourceError>(SourceError::NoMagic),
            },
            (None, Some(f)) => r matches Ok(Source::File { path }) && path@ == f@,
            (None, None) => r == Err::<Source, SourceError>(SourceError::NoSource),
        },
{
    match (&args.node_socket, &args.snapshot) {
        (Some(socket), _) => match args.network_magic {
            Some(magic) => Ok(Source::Node { socket: socket.clone(), magic }),
            None => Err(SourceError::NoMagic),
        },
        (None, Some(path)) => Ok(Source::File { path: path.clone() }),
        (None, None) => Err(SourceError::NoSource),
    }
}

/// The network to probe: the one that was asked for, or the snapshot's own.
pub fn probe_magic(args: &Args, snapshot_magic: u64) -> (m: u64)
    ensures
        m == match args.network_magic {
            Some(magic) => magic,
            None => snapshot_magic,
        },
{
    match args.network_magic {
        Some(magic) => magic,
        None => snapshot_magic,
    }
}

// What is not dialled.

/// Is every address in private or reserved space?
pub open spec fn all_special(addrs: Seq<Ip>) -> bool {
    forall|i: int| 0 <= i < addrs.len() ==> crate::asn::use_of(#[trigger] addrs[i]) is Some
}

/// Is every address an IPv6 address?
pub open spec fn all_v6(addrs: Seq<Ip>) -> bool {
    forall|i: int| 0 <= i < addrs.len() ==> (#[trigger] addrs[i]) is V6
}

/// A failure without a list of versions.
pub open spec fn failure(stage: Stage, error: Seq<char>) -> OutcomeView {
    Err(FailedView { stage, error, versions: None })
}

/// What is known of an endpoint without dialling it. An endpoint that
/// resolved only to private or reserved space is never dialled: nothing public
/// can live there, and loopback or 0.0.0.0 would answer from this host's own
/// node. Nor is one with IPv6 addresses alone from a host without an IPv6
/// route.
pub open spec fn known_of(ep: EndpointView, ipv6: bool) -> Option<OutcomeView> {
    match ep.dns_error {
        Some(err) => Some(failure(Stage::Dns, err)),
        None => if ep.addrs.len() > 0 && all_special(ep.addrs) {
            Some(
                failure(
                    Stage::Address,
                    crate::asn::use_of(ep.addrs[0])->Some_0.name() + " address "@
                        + crate::ip::ip_text(ep.addrs[0]) + ", not probed"@,
                ),
            )
        } else if !ipv6 && ep.addrs.len() > 0 && all_v6(ep.addrs) {
            Some(
                failure(
                    Stage::Connect,
                    "IPv6 unreachable from the census host, "@ + crate::ip::ip_text(ep.addrs[0])
                        + " not probed"@,
                ),
            )
        } else {
            None
        },
    }
}

/// What is known of all endpoints without dialling them.
pub open spec fn known(endpoints: Seq<EndpointView>, ipv6: bool) -> Seq<Option<OutcomeView>> {
    Seq::new(endpoints.len(), |i: int| known_of(endpoints[i], ipv6))
}

fn are_special(addrs: &[Ip]) -> (r: bool)
    ensures
        r == all_special(addrs@),
{
    let mut i: usize = 0;
    while i < addrs.len()
        invariant
            i <= addrs.len(),
            forall|j: int| 0 <= j < i ==> crate::asn::use_of(#[trigger] addrs@[j]) is Some,
        decreases addrs.len() - i,
    {
        if special_use(addrs[i]).is_none() {
            assert(crate::asn::use_of(addrs@[i as int]) is None);
            return false;
        }
        i += 1;
    }
    true
}

fn are_v6(addrs: &[Ip]) -> (r: bool)
    ensures
        r == all_v6(addrs@),
{
    let mut i: usize = 0;
    while i < addrs.len()
        invariant
            i <= addrs.len(),
            forall|j: int| 0 <= j < i ==> (#[trigger] addrs@[j]) is V6,
        decreases addrs.len() - i,
    {
        if addrs[i].is_v4() {
            assert(addrs@[i as int] is V4);
            return false;
        }
        i += 1;
    }
    true
}

fn fail(stage: Stage, error: String) -> (o: Outcome)
    ensures
        outcome(o) == failure(stage, error@),
{
    Err(Failed { stage, error, versions: None })
}

/// What is known of an endpoint without dialling it.
pub fn screen(ep: &Endpoint, ipv6: bool) -> (r: Option<Outcome>)
    ensures
        (match r {
            Some(o) => Some(outcome(o)),
            None => None,
        }) == known_of(ep.deep_view(), ipv6),
{
    let addrs = ep.addrs.as_slice();
    if let Some(err) = &ep.dns_error {
        return Some(fail(Stage::Dns, err.clone()));
    }
    if addrs.len() > 0 && are_special(addrs) {
        let ip = addrs[0];
        assert(crate::asn::use_of(addrs@[0]) is Some);
        if let Some(class) = special_use(ip) {
            let mut s = String::new();
            put(&mut s, class.label());
            put(&mut s, " address ");
            put(&mut s, string_of(write_ip(ip).as_slice()).as_str());
            put(&mut s, ", not probed");
            assert(s@ =~= class.name() + " address "@ + crate::ip::ip_text(ip)
                + ", not probed"@);
            return Some(fail(Stage::Address, s));
        }
    }
    if !ipv6 && addrs.len() > 0 && are_v6(addrs) {
        let mut s = String::new();
        put(&mut s, "IPv6 unreachable from the census host, ");
        put(&mut s, string_of(write_ip(addrs[0]).as_slice()).as_str());
        put(&mut s, " not probed");
        assert(s@ =~= "IPv6 unreachable from the census host, "@ + crate::ip::ip_text(addrs@[0])
            + " not probed"@);
        return Some(fail(Stage::Connect, s));
    }
    None
}

/// What is known of all endpoints without dialling them.
pub fn screen_all(endpoints: &[Endpoint], ipv6: bool) -> (v: Vec<Option<Outcome>>)
    ensures
        outcomes_of(v@) == known(endpoints.deep_view(), ipv6),
{
    let ghost eps = endpoints.deep_view();
    let mut v: Vec<Option<Outcome>> = Vec::new();
    let mut i: usize = 0;
    while i < endpoints.len()
        invariant
            i <= endpoints.len(),
            eps == endpoints.deep_view(),
            v.len() == i,
            forall|j: int| 0 <= j < i ==> #[trigger] outcomes_of(v@)[j] == known_of(eps[j], ipv6),
        decreases endpoints.len() - i,
    {
        assert(eps[i as int] == endpoints[i as int].deep_view());
        let ghost before = outcomes_of(v@);
        v.push(screen(&endpoints[i], ipv6));
        assert forall|j: int| 0 <= j < i + 1 implies #[trigger] outcomes_of(v@)[j] == known_of(
            eps[j],
            ipv6,
        ) by {
            if j < i {
                assert(before[j] == known_of(eps[j], ipv6));
            }
        }
        i += 1;
    }
    assert(outcomes_of(v@) =~= known(eps, ipv6));
    v
}

// The order of probes.

/// Which endpoints have no outcome yet.
pub open spec fn open_at(outcomes: Seq<Option<OutcomeView>>) -> spec_fn(int) -> bool {
    |i: int| outcomes[i] is None
}

/// The endpoints that are still to be probed.
pub fn unprobed(outcomes: &[Option<Outcome>]) -> (v: Vec<usize>)
    ensures
        crate::histogram::places(v@) == crate::count::select(
            outcomes.len() as int,
            open_at(outcomes_of(outcomes@)),
        ),
{
    let ghost f = open_at(outcomes_of(outcomes@));
    let mut v: Vec<usize> = Vec::new();
    let mut i: usize = 0;
    assert(crate::histogram::places(v@) =~= Seq::<int>::empty());
    while i < outcomes.len()
        invariant
            i <= outcomes.len(),
            f == open_at(outcomes_of(outcomes@)),
            crate::histogram::places(v@) == crate::count::select(i as int, f),
        decreases outcomes.len() - i,
    {
        assert(outcomes_of(outcomes@)[i as int] is None <==> outcomes[i as int] is None);
        if outcomes[i].is_none() {
            let ghost before = crate::histogram::places(v@);
            v.push(i);
            assert(crate::histogram::places(v@) =~= before.push(i as int));
        }
        i += 1;
    }
    v
}

/// Calls `SliceRandom::shuffle` with `rand::rng()`: the items stay, in some
/// order that chance decides. `rand::rng()` gives up the process where the
/// system has no randomness to seed it with.
#[verifier::external_body]
fn shuffle(v: &mut Vec<usize>)
    ensures
        final(v)@.to_multiset() == old(v)@.to_multiset(),
{
    v.shuffle(&mut rand::rng());
}

/// The same places, in some order that chance decides.
pub fn in_any_order(at: Vec<usize>) -> (v: Vec<usize>)
    ensures
        v@.to_multiset() == at@.to_multiset(),
        v.len() == at.len(),
{
    let mut v = at;
    shuffle(&mut v);
    proof {
        v@.to_multiset_ensures();
        at@.to_multiset_ensures();
    }
    v
}

/// The endpoints without an outcome, as places.
pub open spec fn open_places(outcomes: Seq<Option<OutcomeView>>) -> Seq<usize> {
    crate::count::select(outcomes.len() as int, open_at(outcomes)).map_values(|i: int| i as usize)
}

/// The endpoints that are still to be probed, in some order that chance
/// decides.
pub fn probe_order(outcomes: &[Option<Outcome>]) -> (order: Vec<usize>)
    ensures
        order@.to_multiset() == open_places(outcomes_of(outcomes@)).to_multiset(),
        order.len() == open_places(outcomes_of(outcomes@)).len(),
{
    let at = unprobed(outcomes);
    proof {
        let all = crate::histogram::places(at@);
        assert forall|i: int| 0 <= i < at.len() implies #[trigger] at@[i] == all[i] by {}
        assert(at@ =~= open_places(outcomes_of(outcomes@)));
    }
    in_any_order(at)
}

/// Endpoints probed at once; never none.
pub fn at_once(parallel: usize) -> (n: usize)
    ensures
        n == if parallel == 0 {
            1
        } else {
            parallel
        },
{
    if parallel == 0 {
        1
    } else {
        parallel
    }
}

/// The seconds that `probes` take at worst, `parallel` at once, each within
/// `timeout` seconds: a full budget for every wave.
pub open spec fn longest(probes: nat, parallel: nat, timeout: nat) -> nat {
    (probes + parallel - 1) as nat / parallel * timeout
}

/// The seconds that `probes` take at worst.
pub fn worst_case(probes: usize, parallel: usize, timeout: u64) -> (secs: u128)
    requires
        parallel > 0,
    ensures
        secs == longest(probes as nat, parallel as nat, timeout as nat),
{
    let n: u128 = probes as u128;
    let p: u128 = parallel as u128;
    let waves: u128 = (n + p - 1) / p;
    proof {
        let top: int = n + p - 1;
        assert(0 <= top / (p as int) <= n) by (nonlinear_arith)
            requires
                top == n + p - 1,
                p >= 1,
                n >= 0,
        ;
        assert(waves * timeout <= 0xffff_ffff_ffff_ffff * 0xffff_ffff_ffff_ffff)
            by (nonlinear_arith)
            requires
                0 <= waves <= 0xffff_ffff_ffff_ffff,
                0 <= timeout <= 0xffff_ffff_ffff_ffff,
        ;
    }
    waves * (timeout as u128)
}

// What came back.

/// The outcomes once what was probed is entered; what came last counts.
pub open spec fn entered(
    outcomes: Seq<Option<OutcomeView>>,
    probed: Seq<(usize, OutcomeView)>,
) -> Seq<Option<OutcomeView>>
    decreases probed.len(),
{
    if probed.len() == 0 {
        outcomes
    } else {
        entered(outcomes, probed.drop_last()).update(
            probed.last().0 as int,
            Some(probed.last().1),
        )
    }
}

/// What was probed.
pub open spec fn probed_of(probed: Seq<(usize, Outcome)>) -> Seq<(usize, OutcomeView)> {
    Seq::new(probed.len(), |i: int| (probed[i].0, outcome(probed[i].1)))
}

/// Enters what was probed.
pub fn enter(outcomes: Vec<Option<Outcome>>, probed: Vec<(usize, Outcome)>) -> (v: Vec<
    Option<Outcome>,
>)
    requires
        forall|i: int| 0 <= i < probed.len() ==> (#[trigger] probed[i]).0 < outcomes.len(),
    ensures
        outcomes_of(v@) == entered(outcomes_of(outcomes@), probed_of(probed@)),
{
    let ghost start = outcomes_of(outcomes@);
    let ghost all = probed_of(probed@);
    let mut v = outcomes;
    let mut i: usize = 0;
    assert(all.take(0) =~= Seq::empty());
    while i < probed.len()
        invariant
            i <= probed.len(),
            v.len() == outcomes.len(),
            forall|i: int| 0 <= i < probed.len() ==> (#[trigger] probed[i]).0 < outcomes.len(),
            all == probed_of(probed@),
            outcomes_of(v@) == entered(start, all.take(i as int)),
        decreases probed.len() - i,
    {
        let ghost before = outcomes_of(v@);
        let at: usize = probed[i].0;
        let o = crate::probe::copy_outcome(&probed[i].1);
        assert(all.take(i + 1).drop_last() =~= all.take(i as int));
        assert(all.take(i + 1).last() == all[i as int]);
        v.set(at, Some(o));
        assert(outcomes_of(v@) =~= before.update(at as int, Some(outcome(o))));
        i += 1;
    }
    assert(all.take(i as int) =~= all);
    v
}

/// Where an outcome was entered, there is one.
pub proof fn lemma_entered(
    outcomes: Seq<Option<OutcomeView>>,
    probed: Seq<(usize, OutcomeView)>,
    i: int,
)
    requires
        0 <= i < outcomes.len(),
        forall|k: int| 0 <= k < probed.len() ==> (#[trigger] probed[k]).0 < outcomes.len(),
    ensures
        entered(outcomes, probed).len() == outcomes.len(),
        entered(outcomes, probed)[i] is Some <==> outcomes[i] is Some || exists|k: int|
            0 <= k < probed.len() && (#[trigger] probed[k]).0 == i,
    decreases probed.len(),
{
    if probed.len() > 0 {
        let front = probed.drop_last();
        lemma_entered(outcomes, front, i);
        if entered(outcomes, front)[i] is Some && outcomes[i] is None {
            let k = choose|k: int| 0 <= k < front.len() && (#[trigger] front[k]).0 == i;
            assert(probed[k].0 == i);
        }
        if probed.last().0 == i {
            assert(probed[probed.len() - 1].0 == i);
        } else if exists|k: int| 0 <= k < probed.len() && (#[trigger] probed[k]).0 == i {
            let k = choose|k: int| 0 <= k < probed.len() && (#[trigger] probed[k]).0 == i;
            assert(front[k].0 == i);
        }
    }
}

/// Whatever the order of the probes, every endpoint that was not known of
/// beforehand is probed, and once all of them have been entered every endpoint
/// has an outcome.
pub proof fn every_endpoint_gets_an_outcome(
    outcomes: Seq<Option<OutcomeView>>,
    order: Seq<usize>,
    probed: Seq<(usize, OutcomeView)>,
)
    requires
        outcomes.len() <= usize::MAX,
        order.to_multiset() == open_places(outcomes).to_multiset(),
        forall|k: int| 0 <= k < probed.len() ==> (#[trigger] probed[k]).0 < outcomes.len(),
        forall|j: int|
            0 <= j < order.len() ==> exists|k: int|
                0 <= k < probed.len() && (#[trigger] probed[k]).0 == #[trigger] order[j],
    ensures
        forall|i: int|
            0 <= i < outcomes.len() ==> (#[trigger] entered(outcomes, probed)[i]) is Some,
{
    let at = crate::count::select(outcomes.len() as int, open_at(outcomes));
    let put = open_places(outcomes);
    crate::count::lemma_select(outcomes.len() as int, open_at(outcomes));
    order.to_multiset_ensures();
    put.to_multiset_ensures();
    assert forall|i: int| 0 <= i < outcomes.len() implies (#[trigger] entered(
        outcomes,
        probed,
    )[i]) is Some by {
        lemma_entered(outcomes, probed, i);
        if outcomes[i] is None {
            assert(open_at(outcomes)(i));
            assert(at.contains(i));
            let a = at.index_of(i);
            assert(put[a] == i as usize);
            assert(put.contains(i as usize));
            assert(order.to_multiset().count(i as usize) > 0);
            assert(order.contains(i as usize));
            let j = order.index_of(i as usize);
            let k = choose|k: int| 0 <= k < probed.len() && (#[trigger] probed[k]).0 == order[j];
            assert(probed[k].0 == i);
        }
    }
}

} // verus!
