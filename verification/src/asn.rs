//! IP to autonomous system lookup from an iptoasn.com `ip2asn` TSV:
//! `range_start range_end asn country name`, one range per line.

use vstd::prelude::*;

use crate::ip::{parse_v4, parse_v6, Ip};
use crate::sort::{sort, Ranked};
use crate::text::{chars_of, decimal_chars, lines, parse_unsigned, split, string_of, word};

verus! {

#[derive(Clone, Debug, PartialEq, Eq)]
pub struct AsInfo {
    pub asn: u32,
    /// The registry handle, the first word of the description.
    pub name: String,
}

pub struct AsInfoView {
    pub asn: u32,
    pub name: Seq<char>,
}

impl DeepView for AsInfo {
    type V = AsInfoView;

    open spec fn deep_view(&self) -> AsInfoView {
        AsInfoView { asn: self.asn, name: self.name@ }
    }
}

impl AsInfo {
    pub fn copy(&self) -> (r: Self)
        ensures
            r == *self,
    {
        AsInfo { asn: self.asn, name: self.name.clone() }
    }
}

/// Addresses from `start` through `end`, as numbers.
pub struct Range {
    pub start: u128,
    pub end: u128,
    pub info: AsInfo,
}

pub struct RangeView {
    pub start: int,
    pub end: int,
    pub info: AsInfoView,
}

impl DeepView for Range {
    type V = RangeView;

    open spec fn deep_view(&self) -> RangeView {
        RangeView {
            start: self.start as int,
            end: self.end as int,
            info: self.info.deep_view(),
        }
    }
}

impl Ranked for Range {
    open spec fn ahead(&self, other: &Self) -> bool {
        self.start < other.start
    }

    fn is_ahead(&self, other: &Self) -> bool {
        self.start < other.start
    }
}

pub struct AsnDb {
    v4: Vec<Range>,
    v6: Vec<Range>,
}

/// The ranges of each family, by start.
pub struct AsnDbView {
    pub v4: Seq<RangeView>,
    pub v6: Seq<RangeView>,
}

/// Do the ranges ascend by their starts?
pub open spec fn by_start(r: Seq<RangeView>) -> bool {
    forall|i: int, j: int| 0 <= i < j < r.len() ==> r[i].start <= r[j].start
}

/// The starting order of two ranges.
pub open spec fn starts_before() -> spec_fn(RangeView, RangeView) -> bool {
    |a: RangeView, b: RangeView| a.start < b.start
}

/// What the database says of the address numbered `a`: the last range that
/// starts at or before it decides.
pub open spec fn covering(r: Seq<RangeView>, a: int) -> Option<AsInfoView>
    decreases r.len(),
{
    if r.len() == 0 {
        None
    } else if r.last().start <= a {
        if a <= r.last().end {
            Some(r.last().info)
        } else {
            None
        }
    } else {
        covering(r.drop_last(), a)
    }
}

/// What a line of the TSV says: the family, IPv4 or not, and the range. An
/// unrouted range, AS 0, says nothing.
pub open spec fn line_range(line: Seq<char>) -> Option<(bool, RangeView)> {
    let cols = crate::text::pieces(line, '\t');
    if cols.len() < 3 {
        None
    } else {
        match crate::text::unsigned(cols[2], u32::MAX as nat) {
            None => None,
            Some(asn) => if asn == 0 {
                None
            } else {
                let info = AsInfoView {
                    asn: asn as u32,
                    name: handle(
                        if cols.len() > 4 {
                            cols[4]
                        } else {
                            Seq::empty()
                        },
                        asn,
                    ),
                };
                match (crate::ip::v4_of(cols[0]), crate::ip::v4_of(cols[1])) {
                    (Some(s), Some(e)) => Some(
                        (true, RangeView { start: s as int, end: e as int, info }),
                    ),
                    _ => match (crate::ip::v6_of(cols[0]), crate::ip::v6_of(cols[1])) {
                        (Some(s), Some(e)) => Some(
                            (false, RangeView { start: s as int, end: e as int, info }),
                        ),
                        _ => None,
                    },
                }
            },
        }
    }
}

/// The first word of the description, or the AS number where there is none.
pub open spec fn handle(description: Seq<char>, asn: nat) -> Seq<char> {
    let w = crate::text::first_word(description);
    if w.len() == 0 {
        seq!['A', 'S'] + crate::text::decimal(asn)
    } else {
        w
    }
}

/// The ranges of one family among `lines`, in their order.
pub open spec fn family_ranges(lines: Seq<Seq<char>>, v4: bool) -> Seq<RangeView>
    decreases lines.len(),
{
    if lines.len() == 0 {
        Seq::empty()
    } else {
        let front = family_ranges(lines.drop_last(), v4);
        match line_range(lines.last()) {
            Some((f, r)) => if f == v4 {
                front.push(r)
            } else {
                front
            },
            None => front,
        }
    }
}

/// The database that the TSV `text` describes.
pub open spec fn db_of(text: Seq<char>) -> AsnDbView {
    let lines = crate::text::text_lines(text);
    AsnDbView {
        v4: crate::sort::sorted_by(family_ranges(lines, true), starts_before()),
        v6: crate::sort::sorted_by(family_ranges(lines, false), starts_before()),
    }
}

fn parse_line(line: &[char]) -> (r: Option<(bool, Range)>)
    ensures
        r is Some <==> line_range(line@) is Some,
        r matches Some(p) ==> line_range(line@) == Some((p.0, p.1.deep_view())),
{
    let cols = split(line, '\t');
    let ghost model = crate::text::pieces(line@, '\t');
    assert(forall|i: int| 0 <= i < cols.len() ==> crate::text::views(cols@)[i] == cols[i]@);
    if cols.len() < 3 {
        return None;
    }
    let asn: u32 = match parse_unsigned(cols[2].as_slice(), u32::MAX as u64) {
        Some(n) => n as u32,
        None => {
            return None;
        },
    };
    if asn == 0 {
        return None;
    }
    let empty: Vec<char> = Vec::new();
    assert(empty@ =~= Seq::<char>::empty());
    let mut name = if cols.len() > 4 {
        word(cols[4].as_slice())
    } else {
        word(empty.as_slice())
    };
    if name.len() == 0 {
        let digits = decimal_chars(asn as u64);
        let mut v: Vec<char> = Vec::new();
        v.push('A');
        v.push('S');
        v.extend_from_slice(digits.as_slice());
        assert(v@ =~= seq!['A', 'S'] + crate::text::decimal(asn as nat));
        name = v;
    }
    let info = AsInfo { asn, name: string_of(name.as_slice()) };
    match (parse_v4(cols[0].as_slice()), parse_v4(cols[1].as_slice())) {
        (Some(s), Some(e)) => Some((true, Range { start: s as u128, end: e as u128, info })),
        _ => match (parse_v6(cols[0].as_slice()), parse_v6(cols[1].as_slice())) {
            (Some(s), Some(e)) => Some((false, Range { start: s, end: e, info })),
            _ => None,
        },
    }
}

/// Sort ranges by their starts.
fn sort_ranges(v: Vec<Range>) -> (out: Vec<Range>)
    ensures
        out.deep_view() == crate::sort::sorted_by(v.deep_view(), starts_before()),
        by_start(out.deep_view()),
        out.len() == v.len(),
{
    let ghost all = v@;
    let out = sort(v);
    proof {
        crate::sort::sorting_keeps_every_value(all);
        let f = |r: Range| r.deep_view();
        crate::sort::lemma_sorted_map(all, f, starts_before());
        assert(all.map_values(f) =~= v.deep_view());
        assert(out@.map_values(f) =~= out.deep_view());
        crate::sort::sorting_puts_in_order(all);
        assert forall|i: int, j: int| 0 <= i < j < out.len() implies out.deep_view()[i].start
            <= out.deep_view()[j].start by {
            assert(!out[j].ahead(&out[i]));
        }
    }
    out
}

/// What the last range that starts at or before `a` says of it.
fn find(ranges: &[Range], a: u128) -> (r: Option<&AsInfo>)
    requires
        by_start(ranges.deep_view()),
    ensures
        r is Some <==> covering(ranges.deep_view(), a as int) is Some,
        r matches Some(i) ==> covering(ranges.deep_view(), a as int) == Some(i.deep_view()),
{
    let ghost m = ranges.deep_view();
    let mut lo: usize = 0;
    let mut hi: usize = ranges.len();
    while lo < hi
        invariant
            lo <= hi <= ranges.len(),
            m == ranges.deep_view(),
            by_start(m),
            forall|i: int| 0 <= i < lo ==> (#[trigger] m[i]).start <= a,
            forall|i: int| hi <= i < m.len() ==> (#[trigger] m[i]).start > a,
        decreases hi - lo,
    {
        let mid: usize = lo + (hi - lo) / 2;
        assert(m[mid as int].start == ranges[mid as int].start);
        if ranges[mid].start <= a {
            assert forall|i: int| 0 <= i < mid + 1 implies (#[trigger] m[i]).start <= a by {
                if i < mid {
                    assert(m[i].start <= m[mid as int].start);
                }
            }
            lo = mid + 1;
        } else {
            assert forall|i: int| mid <= i < m.len() implies (#[trigger] m[i]).start > a by {
                if i > mid {
                    assert(m[mid as int].start <= m[i].start);
                }
            }
            hi = mid;
        }
    }
    proof {
        lemma_covering(m, a as int, lo as int);
    }
    if lo == 0 {
        return None;
    }
    assert(m.take(lo as int).last() == ranges[lo - 1].deep_view());
    if a <= ranges[lo - 1].end {
        Some(&ranges[lo - 1].info)
    } else {
        None
    }
}

/// Ranges that start after `a` do not matter.
proof fn lemma_covering(r: Seq<RangeView>, a: int, k: int)
    requires
        0 <= k <= r.len(),
        forall|i: int| k <= i < r.len() ==> (#[trigger] r[i]).start > a,
    ensures
        covering(r, a) == covering(r.take(k), a),
    decreases r.len(),
{
    if k < r.len() {
        assert(r[r.len() - 1].start > a);
        let t = r.drop_last();
        lemma_covering(t, a, k);
        assert(t.take(k) =~= r.take(k));
    } else {
        assert(r.take(k) =~= r);
    }
}

impl View for AsnDb {
    type V = AsnDbView;

    closed spec fn view(&self) -> AsnDbView {
        AsnDbView { v4: self.v4.deep_view(), v6: self.v6.deep_view() }
    }
}

impl AsnDb {
    pub open spec fn wf(&self) -> bool {
        &&& by_start(self@.v4)
        &&& by_start(self@.v6)
        &&& self@.v4.len() + self@.v6.len() <= usize::MAX
    }

    /// What the database says of `ip`.
    pub open spec fn says(&self, ip: Ip) -> Option<AsInfoView> {
        match ip {
            Ip::V4(a) => covering(self@.v4, a as int),
            Ip::V6(a) => covering(self@.v6, a as int),
        }
    }

    /// Unrouted ranges, AS 0, are dropped so they read as no match.
    pub fn parse(text: &str) -> (db: Self)
        ensures
            db.wf(),
            db@ == db_of(text@),
    {
        let all = lines(chars_of(text).as_slice());
        let ghost model = crate::text::text_lines(text@);
        assert(forall|i: int| 0 <= i < all.len() ==> crate::text::views(all@)[i] == all[i]@);
        let mut v4: Vec<Range> = Vec::new();
        let mut v6: Vec<Range> = Vec::new();
        let mut i: usize = 0;
        assert(v4.deep_view() =~= Seq::<RangeView>::empty());
        assert(v6.deep_view() =~= Seq::<RangeView>::empty());
        while i < all.len()
            invariant
                i <= all.len(),
                model.len() == all.len(),
                forall|m: int| 0 <= m < all.len() ==> model[m] == all[m]@,
                v4.len() + v6.len() <= i,
                v4.deep_view() == family_ranges(model.take(i as int), true),
                v6.deep_view() == family_ranges(model.take(i as int), false),
            decreases all.len() - i,
        {
            assert(model.take(i + 1).drop_last() =~= model.take(i as int));
            assert(model.take(i + 1).last() == all[i as int]@);
            let ghost b4 = v4.deep_view();
            let ghost b6 = v6.deep_view();
            match parse_line(all[i].as_slice()) {
                Some((true, r)) => {
                    v4.push(r);
                    assert(v4.deep_view() =~= b4.push(r.deep_view()));
                },
                Some((false, r)) => {
                    v6.push(r);
                    assert(v6.deep_view() =~= b6.push(r.deep_view()));
                },
                None => {},
            }
            i += 1;
        }
        assert(model.take(i as int) =~= model);
        let v4 = sort_ranges(v4);
        let v6 = sort_ranges(v6);
        AsnDb { v4, v6 }
    }

    /// How many ranges there are.
    pub fn len(&self) -> (n: usize)
        requires
            self.wf(),
        ensures
            n == self@.v4.len() + self@.v6.len(),
    {
        self.v4.len() + self.v6.len()
    }

    pub fn lookup(&self, ip: Ip) -> (r: Option<&AsInfo>)
        requires
            self.wf(),
        ensures
            r is Some <==> self.says(ip) is Some,
            r matches Some(i) ==> self.says(ip) == Some(i.deep_view()),
    {
        match ip {
            Ip::V4(a) => find(self.v4.as_slice(), a as u128),
            Ip::V6(a) => find(self.v6.as_slice(), a),
        }
    }
}

/// Why no public relay can live at an address.
#[derive(Clone, Copy, Debug, PartialEq, Eq, Structural)]
pub enum SpecialUse {
    /// Set aside for private networks.
    Private,
    /// Loopback, link-local, documentation, multicast and the like.
    Reserved,
}

impl SpecialUse {
    pub fn label(self) -> (s: &'static str)
        ensures
            s@ == self.name(),
    {
        match self {
            SpecialUse::Private => "private",
            SpecialUse::Reserved => "reserved",
        }
    }

    pub open spec fn name(self) -> Seq<char> {
        match self {
            SpecialUse::Private => "private"@,
            SpecialUse::Reserved => "reserved"@,
        }
    }
}

/// The IPv4 networks set aside for private use: 10/8, 172.16/12, 192.168/16.
pub open spec fn is_private_v4(a: u32) -> bool {
    ||| 0x0a00_0000 <= a <= 0x0aff_ffff
    ||| 0xac10_0000 <= a <= 0xac1f_ffff
    ||| 0xc0a8_0000 <= a <= 0xc0a8_ffff
}

/// The other IPv4 networks that carry no public hosts: 0/8, 100.64/10,
/// 127/8, 169.254/16, 192.0.0/24, 192.0.2/24, 198.18/15, 198.51.100/24,
/// 203.0.113/24, and everything from 224.0.0.0 up.
pub open spec fn is_reserved_v4(a: u32) -> bool {
    ||| a <= 0x00ff_ffff
    ||| 0x6440_0000 <= a <= 0x647f_ffff
    ||| 0x7f00_0000 <= a <= 0x7fff_ffff
    ||| 0xa9fe_0000 <= a <= 0xa9fe_ffff
    ||| 0xc000_0000 <= a <= 0xc000_00ff
    ||| 0xc000_0200 <= a <= 0xc000_02ff
    ||| 0xc612_0000 <= a <= 0xc613_ffff
    ||| 0xc633_6400 <= a <= 0xc633_64ff
    ||| 0xcb00_7100 <= a <= 0xcb00_71ff
    ||| 0xe000_0000 <= a
}

/// The IPv6 network set aside for private use: fc00::/7.
pub open spec fn is_private_v6(a: u128) -> bool {
    0xfc00_0000_0000_0000_0000_0000_0000_0000 <= a
        <= 0xfdff_ffff_ffff_ffff_ffff_ffff_ffff_ffff
}

/// The other IPv6 networks that carry no public hosts: ::/128, ::1/128,
/// 100::/64, 2001:db8::/32, fe80::/10, ff00::/8.
pub open spec fn is_reserved_v6(a: u128) -> bool {
    ||| a <= 1
    ||| 0x0100_0000_0000_0000_0000_0000_0000_0000 <= a
        <= 0x0100_0000_0000_0000_ffff_ffff_ffff_ffff
    ||| 0x2001_0db8_0000_0000_0000_0000_0000_0000 <= a
        <= 0x2001_0db8_ffff_ffff_ffff_ffff_ffff_ffff
    ||| 0xfe80_0000_0000_0000_0000_0000_0000_0000 <= a
        <= 0xfebf_ffff_ffff_ffff_ffff_ffff_ffff_ffff
    ||| 0xff00_0000_0000_0000_0000_0000_0000_0000 <= a
}

/// The special use of `ip`; none for public space.
pub open spec fn use_of(ip: Ip) -> Option<SpecialUse> {
    match ip {
        Ip::V4(a) => if is_private_v4(a) {
            Some(SpecialUse::Private)
        } else if is_reserved_v4(a) {
            Some(SpecialUse::Reserved)
        } else {
            None
        },
        Ip::V6(a) => if is_private_v6(a) {
            Some(SpecialUse::Private)
        } else if is_reserved_v6(a) {
            Some(SpecialUse::Reserved)
        } else {
            None
        },
    }
}

/// Private or reserved space, where no public relay can live.
pub fn special_use(ip: Ip) -> (r: Option<SpecialUse>)
    ensures
        r == use_of(ip),
{
    match ip {
        Ip::V4(a) => {
            if (0x0a00_0000 <= a && a <= 0x0aff_ffff) || (0xac10_0000 <= a && a <= 0xac1f_ffff) || (
            0xc0a8_0000 <= a && a <= 0xc0a8_ffff) {
                Some(SpecialUse::Private)
            } else if a <= 0x00ff_ffff || (0x6440_0000 <= a && a <= 0x647f_ffff) || (0x7f00_0000
                <= a && a <= 0x7fff_ffff) || (0xa9fe_0000 <= a && a <= 0xa9fe_ffff) || (
            0xc000_0000 <= a && a <= 0xc000_00ff) || (0xc000_0200 <= a && a <= 0xc000_02ff) || (
            0xc612_0000 <= a && a <= 0xc613_ffff) || (0xc633_6400 <= a && a <= 0xc633_64ff) || (
            0xcb00_7100 <= a && a <= 0xcb00_71ff) || 0xe000_0000 <= a {
                Some(SpecialUse::Reserved)
            } else {
                None
            }
        },
        Ip::V6(a) => {
            if 0xfc00_0000_0000_0000_0000_0000_0000_0000 <= a && a
                <= 0xfdff_ffff_ffff_ffff_ffff_ffff_ffff_ffff {
                Some(SpecialUse::Private)
            } else if a <= 1 || (0x0100_0000_0000_0000_0000_0000_0000_0000 <= a && a
                <= 0x0100_0000_0000_0000_ffff_ffff_ffff_ffff) || (
            0x2001_0db8_0000_0000_0000_0000_0000_0000 <= a && a
                <= 0x2001_0db8_ffff_ffff_ffff_ffff_ffff_ffff) || (
            0xfe80_0000_0000_0000_0000_0000_0000_0000 <= a && a
                <= 0xfebf_ffff_ffff_ffff_ffff_ffff_ffff_ffff)
                || 0xff00_0000_0000_0000_0000_0000_0000_0000 <= a {
                Some(SpecialUse::Reserved)
            } else {
                None
            }
        },
    }
}

proof fn lemma_family_routed(lines: Seq<Seq<char>>, v4: bool, i: int)
    requires
        0 <= i < family_ranges(lines, v4).len(),
    ensures
        family_ranges(lines, v4)[i].info.asn != 0,
    decreases lines.len(),
{
    let front = family_ranges(lines.drop_last(), v4);
    if i < front.len() {
        lemma_family_routed(lines.drop_last(), v4, i);
    }
}

proof fn lemma_covered(r: Seq<RangeView>, a: int)
    ensures
        covering(r, a) matches Some(info) ==> exists|i: int|
            0 <= i < r.len() && (#[trigger] r[i]).start <= a <= r[i].end && r[i].info == info,
    decreases r.len(),
{
    if r.len() > 0 {
        if r.last().start <= a {
            if a <= r.last().end {
                assert(r[r.len() - 1].info == r.last().info);
            }
        } else {
            let front = r.drop_last();
            lemma_covered(front, a);
            if let Some(info) = covering(front, a) {
                let i = choose|i: int|
                    0 <= i < front.len() && (#[trigger] front[i]).start <= a <= front[i].end
                        && front[i].info == info;
                assert(r[i] == front[i]);
            }
        }
    }
}

/// What a database read from `text` says of an address is what one of its
/// lines says of a range that holds the address, and never AS 0, which stands
/// for what is not routed.
pub proof fn a_lookup_finds_a_range(text: Seq<char>, v4: bool, a: int)
    ensures
        ({
            let lines = crate::text::text_lines(text);
            let ranges = if v4 {
                db_of(text).v4
            } else {
                db_of(text).v6
            };
            covering(ranges, a) matches Some(info) ==> {
                &&& info.asn != 0
                &&& exists|i: int|
                    0 <= i < family_ranges(lines, v4).len() && (#[trigger] family_ranges(
                        lines,
                        v4,
                    )[i]).start <= a <= family_ranges(lines, v4)[i].end && family_ranges(
                        lines,
                        v4,
                    )[i].info == info
            }
        }),
{
    let all = family_ranges(crate::text::text_lines(text), v4);
    let ranges = crate::sort::sorted_by(all, starts_before());
    lemma_covered(ranges, a);
    if let Some(info) = covering(ranges, a) {
        let i = choose|i: int|
            0 <= i < ranges.len() && (#[trigger] ranges[i]).start <= a <= ranges[i].end
                && ranges[i].info == info;
        let j = crate::sort::lemma_sorted_by_from(all, starts_before(), i);
        assert(all[j] == ranges[i]);
        lemma_family_routed(crate::text::text_lines(text), v4, j);
    }
}

} // verus!
