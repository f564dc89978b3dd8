//! Command line values.

use vstd::prelude::*;
use vstd::slice::slice_subrange;

use crate::text::{chars_of, find_char, put, same, string_of};

verus! {

pub const VERSION: &'static str = "0.1.0";

/// The git revision that is reported of a build that was told none.
pub const GIT_REV: &'static str = "unknown";

/// What the command line asked for. Paths are held as text.
#[derive(Clone, Debug)]
pub struct Args {
    /// peerSnapshotV3 file naming the big ledger pools and their relays.
    pub snapshot: Option<String>,
    /// Query the snapshot from a local cardano-node over this socket instead.
    pub node_socket: Option<String>,
    /// Taken from the snapshot file when omitted.
    pub network_magic: Option<u64>,
    /// Metrics file in node exporter textfile format; "-" writes to stdout.
    pub output: String,
    /// Labels stamped on every series.
    pub labels: Vec<(String, String)>,
    /// Per-relay JSON report.
    pub report: Option<String>,
    /// Seconds allowed per relay for DNS, connect, handshake and tip together.
    pub timeout: u64,
    /// Relays probed at once.
    pub parallel: usize,
    /// Tips this many blocks apart or closer count as the same chain.
    pub fork_tolerance: u64,
    /// iptoasn.com ip2asn TSV for placing relays in autonomous systems.
    pub asn_db: Option<String>,
    /// Autonomous systems hosting fewer relays than this are folded into "other".
    pub asn_min_relays: usize,
    /// Accepted and without effect: every address of a relay is an endpoint of
    /// its own, so no family is tried before the other.
    pub prefer_ipv4: bool,
    /// Accepted and without effect, as `prefer_ipv4` is.
    pub happy_eyeballs_delay_ms: u64,
    /// Pool identities to match by relay address.
    pub pool_index: Option<String>,
    /// Rows of the outreach lists.
    pub top_pools: usize,
}

impl Args {
    pub fn output_is_stdout(&self) -> (r: bool)
        ensures
            r == (self.output@ == "-"@),
    {
        same(self.output.as_str(), "-")
    }
}

/// What `{:?}` prints for the text `s`.
pub uninterp spec fn debug_quoted(s: Seq<char>) -> Seq<char>;

/// `format!` with `{:?}`: the text in double quotes, with the escapes that
/// `Debug` for `str` writes. Which characters it escapes, and how, is left to
/// `debug_quoted`; it depends on the text alone.
#[verifier::external_body]
pub(crate) fn quoted(s: &str) -> (r: String)
    ensures
        r@ == debug_quoted(s@),
{
    format!("{:?}", s)
}

/// May `c` stand at place `i` of a Prometheus label name?
pub open spec fn is_label_char(i: int, c: char) -> bool {
    c == '_' || crate::text::is_letter(c) || (i > 0 && crate::text::is_digit(c))
}

/// Is `key` a Prometheus label name that is not reserved for internal use?
pub open spec fn is_label_name(key: Seq<char>) -> bool {
    &&& key.len() > 0
    &&& !(key.len() >= 2 && key[0] == '_' && key[1] == '_')
    &&& forall|i: int| 0 <= i < key.len() ==> is_label_char(i, #[trigger] key[i])
}

fn check_label_name(key: &[char]) -> (r: bool)
    ensures
        r == is_label_name(key@),
{
    if key.len() == 0 || (key.len() >= 2 && key[0] == '_' && key[1] == '_') {
        return false;
    }
    let mut i: usize = 0;
    while i < key.len()
        invariant
            i <= key.len(),
            forall|m: int| 0 <= m < i ==> is_label_char(m, #[trigger] key[m]),
        decreases key.len() - i,
    {
        let c = key[i];
        if !(c == '_' || ('a' <= c && c <= 'z') || ('A' <= c && c <= 'Z') || (i > 0 && '0' <= c && c
            <= '9')) {
            assert(!is_label_char(i as int, key[i as int]));
            return false;
        }
        i += 1;
    }
    true
}

/// The key and value that `KEY=VALUE` names, or what is wrong with it.
pub open spec fn label_of(s: Seq<char>) -> Result<(Seq<char>, Seq<char>), Seq<char>> {
    let k = crate::text::first_at(s, '=');
    if k >= s.len() {
        Err("expected KEY=VALUE, got "@ + debug_quoted(s))
    } else if !is_label_name(s.take(k)) {
        Err(debug_quoted(s.take(k)) + " is not a valid label name"@)
    } else {
        Ok((s.take(k), s.skip(k + 1)))
    }
}

/// `KEY=VALUE` with a Prometheus label name as the key.
pub fn parse_label(s: &str) -> (r: Result<(String, String), String>)
    ensures
        match label_of(s@) {
            Ok(p) => r matches Ok(q) && q.0@ == p.0 && q.1@ == p.1,
            Err(m) => r matches Err(e) && e@ == m,
        },
{
    let v = chars_of(s);
    let k: usize = find_char(v.as_slice(), '=');
    if k >= v.len() {
        let mut m = "expected KEY=VALUE, got ".to_owned();
        put(&mut m, quoted(s).as_str());
        return Err(m);
    }
    let key = slice_subrange(v.as_slice(), 0, k);
    assert(key@ =~= s@.take(k as int));
    let name = string_of(key);
    if !check_label_name(key) {
        let mut m = quoted(name.as_str());
        put(&mut m, " is not a valid label name");
        return Err(m);
    }
    let value = slice_subrange(v.as_slice(), k + 1, v.len());
    assert(value@ =~= s@.skip(k + 1));
    Ok((name, string_of(value)))
}

} // verus!
