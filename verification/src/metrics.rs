//! The metrics, in the textfile format of the node exporter.

use vstd::prelude::*;

use crate::amounts::{on_main, Amounts};
use crate::census::Census;
use crate::chains::ChainGroup;
use crate::cli::VERSION;
use crate::histogram::{bound_label, Cumulative, Histogram};
use crate::networks::AsnGroup;
use crate::operators::{OutreachRow, Reach};
use crate::probe::Stage;
use crate::text::{chars_of, decimal_wide, join, number, put, same, string_of};

verus! {

pub const PREFIX: &'static str = "cardano_census_";

/// A piece of the output.
pub enum Item {
    /// What a family of series is.
    Family { name: Seq<char>, kind: Seq<char>, help: Seq<char> },
    /// The value of one series. These are the labels of its own.
    Sample { name: Seq<char>, labels: Seq<(Seq<char>, Seq<char>)>, value: Seq<char> },
}

/// A character as it stands in a label's value.
pub open spec fn escaped_char(c: char) -> Seq<char> {
    if c == '\\' {
        seq!['\\', '\\']
    } else if c == '"' {
        seq!['\\', '"']
    } else if c == '\n' {
        seq!['\\', 'n']
    } else {
        seq![c]
    }
}

/// A text as it stands in a label's value.
pub open spec fn escaped(v: Seq<char>) -> Seq<char>
    decreases v.len(),
{
    if v.len() == 0 {
        Seq::empty()
    } else {
        escaped(v.drop_last()) + escaped_char(v.last())
    }
}

/// Is `key` among the keys of `labels`?
pub open spec fn sets(labels: Seq<(Seq<char>, Seq<char>)>, key: Seq<char>) -> bool {
    exists|j: int| 0 <= j < labels.len() && (#[trigger] labels[j]).0 == key
}

/// Which base labels a series does not set itself.
pub open spec fn unset(
    base: Seq<(Seq<char>, Seq<char>)>,
    labels: Seq<(Seq<char>, Seq<char>)>,
) -> spec_fn(int) -> bool {
    |i: int| !sets(labels, base[i].0)
}

/// The labels of a series: base labels first; a series that sets the same key
/// keeps its own.
pub open spec fn stamped(
    base: Seq<(Seq<char>, Seq<char>)>,
    labels: Seq<(Seq<char>, Seq<char>)>,
) -> Seq<(Seq<char>, Seq<char>)> {
    let at = crate::count::select(base.len() as int, unset(base, labels));
    Seq::new(at.len(), |i: int| base[at[i]]) + labels
}

/// A label as it is written.
pub open spec fn pair_text(p: (Seq<char>, Seq<char>)) -> Seq<char> {
    p.0 + "=\""@ + escaped(p.1) + "\""@
}

/// Labels as they are written; none are not written at all.
pub open spec fn labels_text(labels: Seq<(Seq<char>, Seq<char>)>) -> Seq<char> {
    if labels.len() == 0 {
        Seq::empty()
    } else {
        "{"@ + crate::text::joined(labels.map_values(|p| pair_text(p)), ","@) + "}"@
    }
}

/// A piece as it is written.
pub open spec fn item_text(base: Seq<(Seq<char>, Seq<char>)>, item: Item) -> Seq<char> {
    match item {
        Item::Family { name, kind, help } => "# HELP "@ + PREFIX@ + name + " "@ + help
            + "\n# TYPE "@ + PREFIX@ + name + " "@ + kind + "\n"@,
        Item::Sample { name, labels, value } => PREFIX@ + name + labels_text(
            stamped(base, labels),
        ) + " "@ + value + "\n"@,
    }
}

/// The pieces as they are written, with the labels `base` on every series.
pub open spec fn written(base: Seq<(Seq<char>, Seq<char>)>, items: Seq<Item>) -> Seq<char>
    decreases items.len(),
{
    if items.len() == 0 {
        Seq::empty()
    } else {
        written(base, items.drop_last()) + item_text(base, items.last())
    }
}

/// Every base label stands on every series that does not set its key, and
/// every series keeps all labels of its own.
pub proof fn base_labels_stamp_every_series(
    base: Seq<(Seq<char>, Seq<char>)>,
    labels: Seq<(Seq<char>, Seq<char>)>,
)
    ensures
        forall|i: int|
            0 <= i < base.len() && !sets(labels, (#[trigger] base[i]).0) ==> stamped(
                base,
                labels,
            ).contains(base[i]),
        forall|j: int|
            0 <= j < labels.len() ==> stamped(base, labels).contains(#[trigger] labels[j]),
{
    let at = crate::count::select(base.len() as int, unset(base, labels));
    let all = stamped(base, labels);
    crate::count::lemma_select(base.len() as int, unset(base, labels));
    assert forall|i: int| 0 <= i < base.len() && !sets(labels, (#[trigger] base[i]).0) implies
        all.contains(base[i]) by {
        assert(unset(base, labels)(i));
        assert(at.contains(i));
        let k = at.index_of(i);
        assert(all[k] == base[i]);
    }
    assert forall|j: int| 0 <= j < labels.len() implies all.contains(#[trigger] labels[j]) by {
        assert(all[at.len() + j] == labels[j]);
    }
}

/// A series sets a key once where the base labels do and its own labels do.
pub proof fn no_key_is_set_twice(
    base: Seq<(Seq<char>, Seq<char>)>,
    labels: Seq<(Seq<char>, Seq<char>)>,
    a: int,
    b: int,
)
    requires
        forall|i: int, j: int|
            0 <= i < j < base.len() ==> (#[trigger] base[i]).0 != (#[trigger] base[j]).0,
        forall|i: int, j: int|
            0 <= i < j < labels.len() ==> (#[trigger] labels[i]).0 != (#[trigger] labels[j]).0,
        0 <= a < b < stamped(base, labels).len(),
    ensures
        stamped(base, labels)[a].0 != stamped(base, labels)[b].0,
{
    let at = crate::count::select(base.len() as int, unset(base, labels));
    crate::count::lemma_select(base.len() as int, unset(base, labels));
    let n = at.len() as int;
    if a < n && n <= b {
        assert(unset(base, labels)(at[a]));
        assert(labels[b - n].0 == stamped(base, labels)[b].0);
    } else if b < n {
        assert(at[a] < at[b]);
    } else {
        assert(labels[a - n].0 != labels[b - n].0);
    }
}

/// A text as it stands in a label's value.
pub fn escape(v: &str) -> (s: String)
    ensures
        s@ == escaped(v@),
{
    let from = chars_of(v);
    let mut to: Vec<char> = Vec::new();
    let mut i: usize = 0;
    assert(from@.take(0) =~= Seq::<char>::empty());
    while i < from.len()
        invariant
            i <= from.len(),
            to@ == escaped(from@.take(i as int)),
        decreases from.len() - i,
    {
        let c = from[i];
        assert(from@.take(i + 1).drop_last() =~= from@.take(i as int));
        let ghost before = to@;
        if c == '\\' {
            to.push('\\');
            to.push('\\');
        } else if c == '"' {
            to.push('\\');
            to.push('"');
        } else if c == '\n' {
            to.push('\\');
            to.push('n');
        } else {
            to.push(c);
        }
        assert(to@ =~= before + escaped_char(c));
        i += 1;
    }
    assert(from@.take(i as int) =~= from@);
    string_of(to.as_slice())
}

/// Textfile output with a fixed set of labels stamped on every series.
pub struct Out {
    pub text: String,
    pub base: Vec<(String, String)>,
    /// What has been written.
    pub items: Ghost<Seq<Item>>,
}

/// A series without labels of its own.
pub open spec fn plain(name: Seq<char>, value: Seq<char>) -> Item {
    Item::Sample { name, labels: Seq::empty(), value }
}

/// A series with one label of its own.
pub open spec fn labelled(
    name: Seq<char>,
    key: Seq<char>,
    label: Seq<char>,
    value: Seq<char>,
) -> Item {
    Item::Sample { name, labels: seq![(key, label)], value }
}

/// A family of gauges with one series.
pub open spec fn gauge(name: Seq<char>, help: Seq<char>, value: Seq<char>) -> Seq<Item> {
    seq![Item::Family { name, kind: "gauge"@, help }, plain(name, value)]
}

/// A family of gauges whose series differ in the label `key`.
pub open spec fn gauges(
    name: Seq<char>,
    help: Seq<char>,
    key: Seq<char>,
    labels: Seq<Seq<char>>,
    values: Seq<Seq<char>>,
) -> Seq<Item> {
    seq![Item::Family { name, kind: "gauge"@, help }] + Seq::new(
        labels.len(),
        |i: int| labelled(name, key, labels[i], values[i]),
    )
}

/// The bounds of cumulative buckets, and the last bucket that has none.
pub open spec fn bucket_labels(bounds: Seq<u64>) -> Seq<Seq<char>> {
    Seq::new(bounds.len(), |i: int| crate::histogram::bound_text(bounds[i])).push("+Inf"@)
}

/// The counts of a histogram's buckets.
pub open spec fn bucket_counts(h: Histogram) -> Seq<Seq<char>> {
    Seq::new(h.counts@.len(), |i: int| crate::text::decimal(h.counts@[i] as nat)).push(
        crate::text::decimal(h.count as nat),
    )
}

/// A histogram whose values sum to `sum`.
pub open spec fn histogram(
    name: Seq<char>,
    help: Seq<char>,
    h: Histogram,
    sum: Seq<char>,
) -> Seq<Item> {
    let labels = bucket_labels(h.bounds@);
    let counts = bucket_counts(h);
    let bucket = name + "_bucket"@;
    seq![Item::Family { name, kind: "histogram"@, help }] + Seq::new(
        labels.len(),
        |i: int| labelled(bucket, "le"@, labels[i], counts[i]),
    ) + seq![
        plain(name + "_sum"@, sum),
        plain(name + "_count"@, crate::text::decimal(h.count as nat)),
    ]
}

/// What wrote the metrics, built from the revision `rev`.
pub open spec fn build_info(rev: Seq<char>) -> Seq<Item> {
    seq![
        Item::Family {
            name: "build_info"@,
            kind: "gauge"@,
            help: "Version and git revision of the cardano-census that wrote this"@,
        },
        Item::Sample {
            name: "build_info"@,
            labels: seq![("version"@, VERSION@), ("rev"@, rev)],
            value: "1"@,
        },
    ]
}

impl Out {
    /// Is the text what has been written?
    pub open spec fn wf(&self) -> bool {
        self.text@ == written(self.base.deep_view(), self.items@)
    }

    pub fn new(base: &[(String, String)]) -> (out: Self)
        ensures
            out.wf(),
            out.base.deep_view() == base.deep_view(),
            out.items@ == Seq::<Item>::empty(),
    {
        let mut own: Vec<(String, String)> = Vec::new();
        let mut i: usize = 0;
        while i < base.len()
            invariant
                i <= base.len(),
                own.len() == i,
                forall|j: int|
                    0 <= j < i ==> (#[trigger] own[j]).deep_view() == base[j].deep_view(),
            decreases base.len() - i,
        {
            own.push((base[i].0.clone(), base[i].1.clone()));
            i += 1;
        }
        assert(own.deep_view() =~= base.deep_view());
        let text = String::new();
        assert(text@ =~= Seq::<char>::empty());
        Out { text, base: own, items: Ghost(Seq::empty()) }
    }

    pub fn family(&mut self, name: &str, kind: &str, help: &str)
        requires
            old(self).wf(),
        ensures
            final(self).wf(),
            final(self).base == old(self).base,
            final(self).items@ == old(self).items@ + seq![
                Item::Family { name: name@, kind: kind@, help: help@ },
            ],
    {
        let ghost item = Item::Family { name: name@, kind: kind@, help: help@ };
        let mut line = String::new();
        put(&mut line, "# HELP ");
        put(&mut line, PREFIX);
        put(&mut line, name);
        put(&mut line, " ");
        put(&mut line, help);
        put(&mut line, "\n# TYPE ");
        put(&mut line, PREFIX);
        put(&mut line, name);
        put(&mut line, " ");
        put(&mut line, kind);
        put(&mut line, "\n");
        assert(line@ =~= item_text(self.base.deep_view(), item));
        put(&mut self.text, line.as_str());
        proof {
            let all = self.items@ + seq![item];
            assert(all.drop_last() =~= self.items@);
            self.items@ = all;
        }
    }

    pub fn sample(&mut self, name: &str, labels: &[(&str, &str)], value: &str)
        requires
            old(self).wf(),
        ensures
            final(self).wf(),
            final(self).base == old(self).base,
            final(self).items@ == old(self).items@ + seq![
                Item::Sample { name: name@, labels: labels.deep_view(), value: value@ },
            ],
    {
        let ghost item = Item::Sample { name: name@, labels: labels.deep_view(), value: value@ };
        let ghost base = self.base.deep_view();
        let ghost own = labels.deep_view();
        let ghost all = stamped(base, own);
        let pairs = stamp(self.base.as_slice(), labels);
        let mut line = String::new();
        put(&mut line, PREFIX);
        put(&mut line, name);
        assert(line@ =~= PREFIX@ + name@);
        assert(pairs.deep_view().len() == pairs.len());
        if pairs.len() > 0 {
            put(&mut line, "{");
            put(&mut line, join(pairs.as_slice(), ",").as_str());
            put(&mut line, "}");
        }
        assert(line@ =~= PREFIX@ + name@ + labels_text(all));
        put(&mut line, " ");
        put(&mut line, value);
        put(&mut line, "\n");
        assert(line@ =~= item_text(base, item));
        put(&mut self.text, line.as_str());
        proof {
            let more = self.items@ + seq![item];
            assert(more.drop_last() =~= self.items@);
            self.items@ = more;
        }
    }
}

impl Out {
    /// A series without labels of its own.
    fn plain(&mut self, name: &str, value: &str)
        requires
            old(self).wf(),
        ensures
            final(self).wf(),
            final(self).base == old(self).base,
            final(self).items@ == old(self).items@ + seq![plain(name@, value@)],
    {
        let labels: Vec<(&str, &str)> = Vec::new();
        assert(labels.deep_view() =~= Seq::<(Seq<char>, Seq<char>)>::empty());
        self.sample(name, labels.as_slice(), value);
    }

    /// A series with one label of its own.
    fn labelled(&mut self, name: &str, key: &str, label: &str, value: &str)
        requires
            old(self).wf(),
        ensures
            final(self).wf(),
            final(self).base == old(self).base,
            final(self).items@ == old(self).items@ + seq![
                labelled(name@, key@, label@, value@),
            ],
    {
        let mut labels: Vec<(&str, &str)> = Vec::new();
        labels.push((key, label));
        assert(labels.deep_view() =~= seq![(key@, label@)]);
        self.sample(name, labels.as_slice(), value);
    }

    pub fn gauge(&mut self, name: &str, help: &str, value: &str)
        requires
            old(self).wf(),
        ensures
            final(self).wf(),
            final(self).base == old(self).base,
            final(self).items@ == old(self).items@ + gauge(name@, help@, value@),
    {
        self.family(name, "gauge", help);
        self.plain(name, value);
        assert(self.items@ =~= old(self).items@ + gauge(name@, help@, value@));
    }

    /// A gauge that is a whole number.
    fn count(&mut self, name: &str, help: &str, value: u64)
        requires
            old(self).wf(),
        ensures
            final(self).wf(),
            final(self).base == old(self).base,
            final(self).items@ == old(self).items@ + gauge(
                name@,
                help@,
                crate::text::decimal(value as nat),
            ),
    {
        self.gauge(name, help, number(value).as_str());
    }

    /// Series that differ in the label `key`.
    fn series(&mut self, name: &str, key: &str, labels: &[String], values: &[String])
        requires
            old(self).wf(),
            labels.len() == values.len(),
        ensures
            final(self).wf(),
            final(self).base == old(self).base,
            final(self).items@ == old(self).items@ + Seq::new(
                labels.deep_view().len(),
                |i: int|
                    labelled(name@, key@, labels.deep_view()[i], values.deep_view()[i]),
            ),
    {
        let ghost start = self.items@;
        let ghost ls = labels.deep_view();
        let ghost vs = values.deep_view();
        let ghost f = |i: int| labelled(name@, key@, ls[i], vs[i]);
        let mut k: usize = 0;
        assert(self.items@ =~= start + Seq::new(0, f));
        while k < labels.len()
            invariant
                k <= labels.len(),
                labels.len() == values.len(),
                self.wf(),
                self.base == old(self).base,
                ls == labels.deep_view(),
                vs == values.deep_view(),
                f == (|i: int| labelled(name@, key@, ls[i], vs[i])),
                self.items@ == start + Seq::new(k as nat, f),
            decreases labels.len() - k,
        {
            assert(ls[k as int] == labels[k as int]@);
            assert(vs[k as int] == values[k as int]@);
            self.labelled(name, key, labels[k].as_str(), values[k].as_str());
            k += 1;
            assert(self.items@ =~= start + Seq::new(k as nat, f));
        }
    }

    /// A family of gauges whose series differ in the label `key`.
    fn gauges(&mut self, name: &str, help: &str, key: &str, labels: &[String], values: &[String])
        requires
            old(self).wf(),
            labels.len() == values.len(),
        ensures
            final(self).wf(),
            final(self).base == old(self).base,
            final(self).items@ == old(self).items@ + gauges(
                name@,
                help@,
                key@,
                labels.deep_view(),
                values.deep_view(),
            ),
    {
        self.family(name, "gauge", help);
        self.series(name, key, labels, values);
        assert(self.items@ =~= old(self).items@ + gauges(
            name@,
            help@,
            key@,
            labels.deep_view(),
            values.deep_view(),
        ));
    }

    /// A histogram whose values sum to `sum`.
    pub fn histogram(&mut self, name: &str, help: &str, h: &Histogram, sum: &str)
        requires
            old(self).wf(),
            h.wf(),
        ensures
            final(self).wf(),
            final(self).base == old(self).base,
            final(self).items@ == old(self).items@ + histogram(name@, help@, *h, sum@),
    {
        self.family(name, "histogram", help);
        let labels = bounds_of(h.bounds.as_slice());
        let mut counts = numbers(h.counts.as_slice());
        let ghost before = counts.deep_view();
        counts.push(number(h.count));
        assert(counts.deep_view() =~= bucket_counts(*h));
        assert(labels.deep_view().len() == labels.len());
        self.series(
            joined_name(name, "_bucket").as_str(),
            "le",
            labels.as_slice(),
            counts.as_slice(),
        );
        self.plain(joined_name(name, "_sum").as_str(), sum);
        self.plain(joined_name(name, "_count").as_str(), number(h.count).as_str());
        assert(self.items@ =~= old(self).items@ + histogram(name@, help@, *h, sum@));
    }

    /// A gauge family keyed by `le`, cumulative like histogram buckets but
    /// carrying weight. The last value is of everything.
    pub fn within(&mut self, name: &str, help: &str, bounds: &[u64], values: &[String])
        requires
            old(self).wf(),
            values.len() == bounds.len() + 1,
        ensures
            final(self).wf(),
            final(self).base == old(self).base,
            final(self).items@ == old(self).items@ + gauges(
                name@,
                help@,
                "le"@,
                bucket_labels(bounds@),
                values.deep_view(),
            ),
    {
        let labels = bounds_of(bounds);
        assert(labels.deep_view().len() == labels.len());
        self.gauges(name, help, "le", labels.as_slice(), values);
    }

    pub fn build_info(&mut self, rev: &str)
        requires
            old(self).wf(),
        ensures
            final(self).wf(),
            final(self).base == old(self).base,
            final(self).items@ == old(self).items@ + build_info(rev@),
    {
        self.family(
            "build_info",
            "gauge",
            "Version and git revision of the cardano-census that wrote this",
        );
        let mut labels: Vec<(&str, &str)> = Vec::new();
        labels.push(("version", VERSION));
        labels.push(("rev", rev));
        assert(labels.deep_view() =~= seq![("version"@, VERSION@), ("rev"@, rev@)]);
        self.sample("build_info", labels.as_slice(), "1");
        assert(self.items@ =~= old(self).items@ + build_info(rev@));
    }
}

/// A name with an ending.
fn joined_name(name: &str, end: &str) -> (s: String)
    ensures
        s@ == name@ + end@,
{
    let mut s = String::new();
    put(&mut s, name);
    put(&mut s, end);
    assert(s@ =~= name@ + end@);
    s
}

/// The labels of cumulative buckets.
fn bounds_of(bounds: &[u64]) -> (v: Vec<String>)
    ensures
        v.deep_view() == bucket_labels(bounds@),
{
    let mut v: Vec<String> = Vec::new();
    let mut i: usize = 0;
    while i < bounds.len()
        invariant
            i <= bounds.len(),
            v.len() == i,
            forall|j: int|
                0 <= j < i ==> (#[trigger] v[j])@ == crate::histogram::bound_text(bounds[j]),
        decreases bounds.len() - i,
    {
        v.push(bound_label(bounds[i]));
        i += 1;
    }
    v.push("+Inf".to_string());
    assert(v.deep_view() =~= bucket_labels(bounds@));
    v
}

/// Whole numbers as they are written.
pub open spec fn decimals_of(ns: Seq<u64>) -> Seq<Seq<char>> {
    Seq::new(ns.len(), |i: int| crate::text::decimal(ns[i] as nat))
}

/// Whole numbers as they are written.
fn numbers(ns: &[u64]) -> (v: Vec<String>)
    ensures
        v.deep_view() == decimals_of(ns@),
{
    let mut v: Vec<String> = Vec::new();
    let mut i: usize = 0;
    while i < ns.len()
        invariant
            i <= ns.len(),
            v.len() == i,
            forall|j: int|
                0 <= j < i ==> (#[trigger] v[j])@ == crate::text::decimal(ns[j] as nat),
        decreases ns.len() - i,
    {
        v.push(number(ns[i]));
        i += 1;
    }
    assert(v.deep_view() =~= decimals_of(ns@));
    v
}

/// The labels of a series as they are written.
fn stamp(base: &[(String, String)], labels: &[(&str, &str)]) -> (v: Vec<String>)
    ensures
        v.deep_view() == stamped(base.deep_view(), labels.deep_view()).map_values(
            |p| pair_text(p),
        ),
{
    let ghost bs = base.deep_view();
    let ghost ls = labels.deep_view();
    let ghost all = stamped(bs, ls);
    let ghost n = crate::count::select(base.len() as int, unset(bs, ls)).len();
    let mut v: Vec<String> = Vec::new();
    let mut i: usize = 0;
    while i < base.len()
        invariant
            i <= base.len(),
            bs == base.deep_view(),
            ls == labels.deep_view(),
            v.len() == crate::count::select(i as int, unset(bs, ls)).len(),
            forall|j: int|
                0 <= j < v.len() ==> (#[trigger] v[j])@ == pair_text(
                    bs[crate::count::select(i as int, unset(bs, ls))[j]],
                ),
        decreases base.len() - i,
    {
        assert(bs[i as int] == base[i as int].deep_view());
        if !find_key(labels, base[i].0.as_str()) {
            v.push(pair(base[i].0.as_str(), base[i].1.as_str()));
        }
        i += 1;
    }
    let mut k: usize = 0;
    while k < labels.len()
        invariant
            k <= labels.len(),
            ls == labels.deep_view(),
            all == stamped(bs, ls),
            n == crate::count::select(bs.len() as int, unset(bs, ls)).len(),
            v.len() == n + k,
            forall|j: int| 0 <= j < v.len() ==> (#[trigger] v[j])@ == pair_text(all[j]),
        decreases labels.len() - k,
    {
        assert(ls[k as int] == labels[k as int].deep_view());
        v.push(pair(labels[k].0, labels[k].1));
        k += 1;
    }
    assert(v.deep_view() =~= all.map_values(|p| pair_text(p)));
    v
}

/// Does a series set `key`?
fn find_key(labels: &[(&str, &str)], key: &str) -> (r: bool)
    ensures
        r == sets(labels.deep_view(), key@),
{
    let mut j: usize = 0;
    while j < labels.len()
        invariant
            j <= labels.len(),
            forall|i: int| 0 <= i < j ==> (#[trigger] labels.deep_view()[i]).0 != key@,
        decreases labels.len() - j,
    {
        assert(labels.deep_view()[j as int] == labels[j as int].deep_view());
        if same(labels[j].0, key) {
            return true;
        }
        j += 1;
    }
    false
}

/// A label as it is written.
fn pair(key: &str, value: &str) -> (s: String)
    ensures
        s@ == pair_text((key@, value@)),
{
    let mut s = String::new();
    put(&mut s, key);
    put(&mut s, "=\"");
    put(&mut s, escape(value).as_str());
    put(&mut s, "\"");
    assert(s@ =~= pair_text((key@, value@)));
    s
}

// What is shown.

/// The snapshot that the census was taken from.
pub open spec fn snapshot_info(c: Census) -> Seq<Item> {
    seq![
        Item::Family {
            name: "snapshot_info"@,
            kind: "gauge"@,
            help: "Snapshot the census was taken from"@,
        },
        Item::Sample {
            name: "snapshot_info"@,
            labels: seq![
                ("source"@, c.snapshot_source@),
                ("network_magic"@, crate::text::decimal(c.network_magic as nat)),
                ("node_to_client_version"@, crate::text::decimal(c.node_to_client_version as nat)),
            ],
            value: "1"@,
        },
    ]
}

/// The SRV names.
pub open spec fn srv_names(c: Census) -> Seq<Seq<char>> {
    Seq::new(c.srv_sets@.len(), |i: int| c.srv_sets@[i].0@)
}

/// The targets of each SRV name.
pub open spec fn target_counts(c: Census) -> Seq<Seq<char>> {
    Seq::new(
        c.srv_sets@.len(),
        |i: int| crate::text::decimal(c.srv_sets@[i].1.targets as nat),
    )
}

/// The targets of each SRV name that answered.
pub open spec fn answer_counts(c: Census) -> Seq<Seq<char>> {
    Seq::new(
        c.srv_sets@.len(),
        |i: int| crate::text::decimal(c.srv_sets@[i].1.reachable as nat),
    )
}

/// The SRV names, where there are any.
pub open spec fn srv_items(c: Census, t: Amounts<String>) -> Seq<Item> {
    if c.srv_sets.len() == 0 {
        Seq::empty()
    } else {
        gauges(
            "srv_targets"@,
            "Top-priority targets behind each SRV relay name"@,
            "name"@,
            srv_names(c),
            target_counts(c),
        ) + gauges(
            "srv_targets_reachable"@,
            "Targets behind each SRV relay name that returned a tip"@,
            "name"@,
            srv_names(c),
            answer_counts(c),
        ) + gauges(
            "srv_reach_probability"@,
            "Chance a node drawing a target of this SRV name by weight reaches one that answered"@,
            "name"@,
            srv_names(c),
            t.srv_probability.deep_view(),
        )
    }
}

/// The negotiated versions.
pub open spec fn versions(c: Census) -> Seq<Seq<char>> {
    Seq::new(c.n2n_versions@.len(), |i: int| c.n2n_versions@[i].0@)
}

/// The relays on each version.
pub open spec fn version_counts(c: Census) -> Seq<Seq<char>> {
    Seq::new(
        c.n2n_versions@.len(),
        |i: int| crate::text::decimal(c.n2n_versions@[i].1.relays as nat),
    )
}

/// The negotiated versions, where there are any.
pub open spec fn version_items(c: Census, t: Amounts<String>) -> Seq<Item> {
    if c.n2n_versions.len() == 0 {
        Seq::empty()
    } else {
        gauges(
            "relays_n2n_version"@,
            "Answering relay entries by the node-to-node protocol version they negotiated"@,
            "version"@,
            versions(c),
            version_counts(c),
        ) + gauges(
            "stake_n2n_version"@,
            "Stake behind answering relays by negotiated node-to-node version, each pool split over its relays"@,
            "version"@,
            versions(c),
            t.version_stake.deep_view(),
        )
    }
}

/// The stages that a probe can fail at.
pub open spec fn stage_names() -> Seq<Seq<char>> {
    Seq::new(Stage::ALL@.len(), |k: int| Stage::ALL@[k].name())
}

/// The relays that failed at each stage.
pub open spec fn failed_counts(c: Census) -> Seq<Seq<char>> {
    Seq::new(
        c.relays_failed@.len(),
        |k: int| crate::text::decimal(c.relays_failed@[k].1 as nat),
    )
}

/// How much of a pool can answer.
pub open spec fn reach_names() -> Seq<Seq<char>> {
    Seq::new(Reach::ALL@.len(), |k: int| Reach::ALL@[k].name())
}

/// The pools of each reach.
pub open spec fn pool_counts(c: Census) -> Seq<Seq<char>> {
    Seq::new(
        c.blp_by_reach@.len(),
        |k: int| crate::text::decimal(c.blp_by_reach@[k].1.pools as nat),
    )
}

/// The number of items in each bucket, and of all.
pub open spec fn sizes(c: Cumulative) -> Seq<Seq<char>> {
    Seq::new(c.values@.len(), |b: int| crate::text::decimal(c.values@[b]@.len())).push(
        crate::text::decimal(c.total@.len()),
    )
}

/// The relays of each group.
pub open spec fn relays_on(groups: Seq<ChainGroup>) -> spec_fn(int) -> nat {
    |i: int| groups[i].relays as nat
}

/// The relays on the main group, or on all others.
pub open spec fn chain_relays(groups: Seq<ChainGroup>, main: bool) -> nat {
    crate::count::sum_of(
        crate::count::select(groups.len() as int, on_main(groups, main)),
        relays_on(groups),
    )
}

/// The line of an operator.
pub open spec fn operator_item(r: OutreachRow, stake: Seq<char>) -> Item {
    Item::Sample {
        name: "pool_stake_ratio"@,
        labels: seq![
            ("pool_id"@, r.pool_id@),
            ("ticker"@, r.ticker@),
            ("name"@, r.name@),
            ("reach"@, r.reach.name()),
            ("pools"@, crate::text::decimal(r.pools as nat)),
            ("relays_total"@, crate::text::decimal(r.relays_total as nat)),
            ("relays_reachable"@, crate::text::decimal(r.relays_reachable as nat)),
            ("relays"@, crate::text::joined(r.relays.deep_view(), ", "@)),
        ],
        value: stake,
    }
}

/// The operators to reach out to, where there are any.
pub open spec fn outreach_items(c: Census, t: Amounts<String>) -> Seq<Item> {
    if c.top_pools.len() == 0 {
        Seq::empty()
    } else {
        seq![
            Item::Family {
                name: "pool_stake_ratio"@,
                kind: "gauge"@,
                help: "Operators with the most stake among pools not fully reachable, named for outreach; pools sharing an identity are one row, and pool_id falls back to the first relay without an index"@,
            },
        ] + Seq::new(
            c.top_pools@.len(),
            |i: int| operator_item(c.top_pools@[i], t.outreach_stake.deep_view()[i]),
        )
    }
}

/// A family with a series for each autonomous system.
pub open spec fn network_family(
    name: Seq<char>,
    help: Seq<char>,
    groups: Seq<AsnGroup>,
    values: Seq<Seq<char>>,
) -> Seq<Item> {
    seq![Item::Family { name, kind: "gauge"@, help }] + Seq::new(
        groups.len(),
        |i: int|
            Item::Sample {
                name,
                labels: seq![("asn"@, groups[i].asn@), ("name"@, groups[i].name@)],
                value: values[i],
            },
    )
}

/// The relays in each autonomous system.
pub open spec fn hosted_counts(groups: Seq<AsnGroup>) -> Seq<Seq<char>> {
    Seq::new(groups.len(), |i: int| crate::text::decimal(groups[i].relays as nat))
}

/// The relays in each autonomous system that answered.
pub open spec fn live_counts(groups: Seq<AsnGroup>) -> Seq<Seq<char>> {
    Seq::new(groups.len(), |i: int| crate::text::decimal(groups[i].relays_reachable as nat))
}

/// The autonomous systems, where a database was loaded.
pub open spec fn network_items(c: Census, t: Amounts<String>) -> Seq<Item> {
    if c.asn_db_ranges == 0 {
        Seq::empty()
    } else {
        gauge(
            "asn_min_relays"@,
            "Autonomous systems hosting fewer relays than this are folded into other"@,
            crate::text::decimal(c.asn_min_relays as nat),
        ) + network_family(
            "asn_relays"@,
            "Relay entries hosted in each autonomous system"@,
            c.asn_metrics@,
            hosted_counts(c.asn_metrics@),
        ) + network_family(
            "asn_relays_reachable"@,
            "Relay entries in each autonomous system that returned a tip"@,
            c.asn_metrics@,
            live_counts(c.asn_metrics@),
        ) + network_family(
            "asn_stake_ratio"@,
            "Stake hosted in each autonomous system, each pool split over its relays"@,
            c.asn_metrics@,
            t.asn_stake.deep_view(),
        ) + network_family(
            "asn_stake_reachable_ratio"@,
            "Stake in each autonomous system whose relays returned a tip"@,
            c.asn_metrics@,
            t.asn_stake_reachable.deep_view(),
        )
    }
}

/// What was asked of whom.
pub open spec fn source_items(
    items: Seq<Item>,
    c: Census,
    t: Amounts<String>,
    rev: Seq<char>,
) -> Seq<Item> {
    items + build_info(rev) + snapshot_info(c) + gauge(
        "snapshot_slot"@,
        "Slot of the snapshot's ledger point"@,
        crate::text::decimal(c.snapshot_slot as nat),
    ) + gauge(
        "blp_total"@,
        "Big ledger pools in the snapshot"@,
        crate::text::decimal(c.blp_total as nat),
    ) + gauge(
        "snapshot_stake_ratio"@,
        "Sum of relativeStake over the snapshot's pools"@,
        t.snapshot_stake@,
    ) + gauge(
        "relays_total"@,
        "Relay entries in the snapshot"@,
        crate::text::decimal(c.relays_total as nat),
    ) + gauge(
        "relays_srv"@,
        "Relay entries that are SRV record names, each probed at its top-priority targets"@,
        crate::text::decimal(c.relays_srv as nat),
    )
}

/// The endpoints and the SRV names behind them.
pub open spec fn endpoint_items(items: Seq<Item>, c: Census, t: Amounts<String>) -> Seq<Item> {
    items + srv_items(c, t) + gauge(
        "srv_endpoints_total"@,
        "Distinct endpoints that are SRV targets"@,
        crate::text::decimal(c.srv_endpoints_total as nat),
    ) + gauge(
        "srv_endpoints_reachable"@,
        "Distinct SRV target endpoints that returned a tip"@,
        crate::text::decimal(c.srv_endpoints_reachable as nat),
    ) + gauge(
        "endpoints_total"@,
        "Distinct socket addresses after resolving and deduplicating the relay entries"@,
        crate::text::decimal(c.endpoints_total as nat),
    ) + gauge(
        "endpoints_probed"@,
        "Endpoints that resolved and were probed"@,
        crate::text::decimal(c.endpoints_probed as nat),
    )
}

/// What the relays answered.
pub open spec fn relay_items(items: Seq<Item>, c: Census, t: Amounts<String>) -> Seq<Item> {
    items + gauges(
        "relays_reachable"@,
        "Relay entries that returned a tip, by address family that answered"@,
        "family"@,
        seq!["v4"@, "v6"@],
        seq![crate::text::decimal(c.relays_reachable_v4 as nat), crate::text::decimal(c.relays_reachable_v6 as nat)],
    ) + version_items(c, t) + gauges(
        "relays_failed"@,
        "Relay entries that returned no tip, by the stage that failed"@,
        "stage"@,
        stage_names(),
        failed_counts(c),
    )
}

/// How the pools stand.
pub open spec fn pool_items(items: Seq<Item>, c: Census, t: Amounts<String>) -> Seq<Item> {
    items + gauges(
        "blp"@,
        "Pools by how many of their relays answered: none, some, or all"@,
        "reach"@,
        reach_names(),
        pool_counts(c),
    ) + gauges(
        "blp_stake_ratio"@,
        "Summed relativeStake of the pools in each reach class"@,
        "reach"@,
        reach_names(),
        t.reach_stake.deep_view(),
    ) + gauge(
        "reachable_stake_ratio"@,
        "Stake of pools with at least one relay answering"@,
        t.reachable_stake@,
    )
}

/// What the octet reversals answered.
pub open spec fn reversal_items(items: Seq<Item>, c: Census, t: Amounts<String>) -> Seq<Item> {
    items + gauge(
        "relays_ipv4_literal"@,
        "Relay entries whose address is an IPv4 literal, each also probed with its octets reversed"@,
        crate::text::decimal(c.ipv4.relays as nat),
    ) + gauges(
        "relays_ipv4_literal_reachable"@,
        "IPv4 literal relay entries that returned a tip at the address as given, and at the address with its octets reversed"@,
        "spelling"@,
        seq!["given"@, "reversed"@],
        seq![crate::text::decimal(c.ipv4.reachable_given as nat), crate::text::decimal(c.ipv4.reachable_reversed as nat)],
    ) + gauge(
        "pools_ipv4_reversed_only"@,
        "Pools with no relay answering as given and one answering at its octet reversal"@,
        crate::text::decimal(c.ipv4.pools_reversed_only as nat),
    ) + gauge(
        "stake_ipv4_reversed_only_ratio"@,
        "Stake of pools with no relay answering as given and one answering at its octet reversal"@,
        t.reversed_only_stake@,
    ) + gauge(
        "reachable_stake_ratio_with_reversed"@,
        "Stake of pools with a relay answering as given or at its octet reversal"@,
        t.reachable_with_reversed@,
    ) + gauge(
        "relay_weighted_stake_ratio"@,
        "Stake weighted by the share of each pool's relays that answered, an SRV relay by the weight of its answering targets"@,
        t.relay_weighted_stake@,
    )
}

/// How long answers took.
pub open spec fn time_items(items: Seq<Item>, c: Census, t: Amounts<String>) -> Seq<Item> {
    items + gauges(
        "relays_reachable_within"@,
        "Relay entries that returned a tip within le seconds of the first DNS lookup"@,
        "le"@,
        bucket_labels(c.relays_reachable_within.bounds@),
        sizes(c.relays_reachable_within),
    ) + gauges(
        "stake_reachable_within"@,
        "Stake of pools whose fastest relay returned a tip within le seconds"@,
        "le"@,
        bucket_labels(c.stake_reachable_within.bounds@),
        t.stake_within.deep_view(),
    ) + histogram(
        "blp_relay_reachability"@,
        "Pools by the share of their relays that answered"@,
        c.reachability,
        t.reachability_sum@,
    ) + histogram(
        "probe_rtt_seconds"@,
        "Connect through tip response for each endpoint that answered"@,
        c.rtt_seconds,
        t.rtt_sum@,
    )
}

/// The tips and the chains that they are on.
pub open spec fn tip_items(items: Seq<Item>, c: Census, t: Amounts<String>) -> Seq<Item> {
    items + gauge(
        "tip_block_max"@,
        "Highest block number reported by any relay"@,
        crate::text::decimal(c.tip_block_max as nat),
    ) + gauge(
        "tip_slot_max"@,
        "Highest slot reported by any relay"@,
        crate::text::decimal(c.tip_slot_max as nat),
    ) + gauge(
        "tips_at_max_block"@,
        "Distinct block hashes reported at the highest block; more than one is a fork or slot battle at the tip"@,
        crate::text::decimal(c.tips_at_max_block as nat),
    ) + gauge(
        "chains"@,
        "Tip groups after merging tips within fork_tolerance blocks of each other"@,
        crate::text::decimal(c.chains.len() as nat),
    ) + gauge(
        "fork_tolerance_blocks"@,
        "Block distance within which tips count as one chain"@,
        crate::text::decimal(c.fork_tolerance as nat),
    ) + gauges(
        "chain_relays"@,
        "Answering relay entries on the main chain group and on all others"@,
        "chain"@,
        seq!["main"@, "other"@],
        seq![crate::text::decimal(chain_relays(c.chains@, true)), crate::text::decimal(chain_relays(c.chains@, false))],
    ) + gauges(
        "chain_stake_ratio"@,
        "Stake on the main chain group and on all others, each pool split over its answering relays"@,
        "chain"@,
        seq!["main"@, "other"@],
        seq![t.main_stake@, t.other_stake@],
    ) + gauges(
        "relays_within_blocks_of_tip"@,
        "Answering relay entries whose tip is at most le blocks behind the highest"@,
        "le"@,
        bucket_labels(c.relays_within_blocks_of_tip.bounds@),
        sizes(c.relays_within_blocks_of_tip),
    ) + gauges(
        "stake_within_blocks_of_tip"@,
        "Stake of pools whose most current relay is at most le blocks behind the highest tip"@,
        "le"@,
        bucket_labels(c.stake_within_blocks_of_tip.bounds@),
        t.stake_near_tip.deep_view(),
    )
}

/// The operators to reach out to and the networks of the relays.
pub open spec fn operator_items(items: Seq<Item>, c: Census, t: Amounts<String>) -> Seq<Item> {
    items + gauge(
        "pools_indexed"@,
        "Pools the pool index named, 0 when no index was given"@,
        crate::text::decimal(c.pools_indexed as nat),
    ) + outreach_items(c, t) + gauge(
        "asn_db_ranges"@,
        "Ranges in the loaded ip2asn database, 0 when relays could not be placed in networks"@,
        crate::text::decimal(c.asn_db_ranges as nat),
    ) + network_items(c, t)
}

/// How the run went.
pub open spec fn closing_items(items: Seq<Item>, c: Census, t: Amounts<String>) -> Seq<Item> {
    items + gauge(
        "scan_duration_seconds"@,
        "Wall time from first DNS lookup to last probe"@,
        t.scan_duration@,
    ) + gauge(
        "last_run_timestamp_seconds"@,
        "When this census finished"@,
        crate::text::decimal(c.timestamp_seconds as nat),
    ) + gauge("success"@, "1 if the census ran to completion"@, "1"@)
}

/// All that is shown of a census.
pub open spec fn all_items(c: Census, t: Amounts<String>, rev: Seq<char>) -> Seq<Item> {
    let source = source_items(Seq::empty(), c, t, rev);
    let endpoint = endpoint_items(source, c, t);
    let relay = relay_items(endpoint, c, t);
    let pool = pool_items(relay, c, t);
    let reversal = reversal_items(pool, c, t);
    let time = time_items(reversal, c, t);
    let tip = tip_items(time, c, t);
    let operator = operator_items(tip, c, t);
    closing_items(operator, c, t)
}

// How it is written.

impl Out {
    /// A family of gauges with two series.
    fn pair(&mut self, name: &str, help: &str, key: &str, a: (&str, &str), b: (&str, &str))
        requires
            old(self).wf(),
        ensures
            final(self).wf(),
            final(self).base == old(self).base,
            final(self).items@ == old(self).items@ + gauges(
                name@,
                help@,
                key@,
                seq![a.0@, b.0@],
                seq![a.1@, b.1@],
            ),
    {
        self.family(name, "gauge", help);
        self.labelled(name, key, a.0, a.1);
        self.labelled(name, key, b.0, b.1);
        assert(self.items@ =~= old(self).items@ + gauges(
            name@,
            help@,
            key@,
            seq![a.0@, b.0@],
            seq![a.1@, b.1@],
        ));
    }

    fn snapshot_info(&mut self, c: &Census)
        requires
            old(self).wf(),
        ensures
            final(self).wf(),
            final(self).base == old(self).base,
            final(self).items@ == old(self).items@ + snapshot_info(*c),
    {
        self.family("snapshot_info", "gauge", "Snapshot the census was taken from");
        let magic = number(c.network_magic);
        let version = number(c.node_to_client_version);
        let mut labels: Vec<(&str, &str)> = Vec::new();
        labels.push(("source", c.snapshot_source.as_str()));
        labels.push(("network_magic", magic.as_str()));
        labels.push(("node_to_client_version", version.as_str()));
        assert(labels.deep_view() =~= seq![
            ("source"@, c.snapshot_source@),
            ("network_magic"@, magic@),
            ("node_to_client_version"@, version@),
        ]);
        self.sample("snapshot_info", labels.as_slice(), "1");
        assert(self.items@ =~= old(self).items@ + snapshot_info(*c));
    }

    fn srv_items(&mut self, c: &Census, t: &Amounts<String>)
        requires
            old(self).wf(),
            t.fits(*c),
        ensures
            final(self).wf(),
            final(self).base == old(self).base,
            final(self).items@ == old(self).items@ + srv_items(*c, *t),
    {
        if c.srv_sets.len() > 0 {
            let mut names: Vec<String> = Vec::new();
            let mut targets: Vec<String> = Vec::new();
            let mut answers: Vec<String> = Vec::new();
            let mut i: usize = 0;
            while i < c.srv_sets.len()
                invariant
                    i <= c.srv_sets.len(),
                    names.len() == i,
                    targets.len() == i,
                    answers.len() == i,
                    forall|j: int| 0 <= j < i ==> (#[trigger] names[j])@ == srv_names(*c)[j],
                    forall|j: int|
                        0 <= j < i ==> (#[trigger] targets[j])@ == target_counts(*c)[j],
                    forall|j: int|
                        0 <= j < i ==> (#[trigger] answers[j])@ == answer_counts(*c)[j],
                decreases c.srv_sets.len() - i,
            {
                names.push(c.srv_sets[i].0.clone());
                targets.push(number(c.srv_sets[i].1.targets));
                answers.push(number(c.srv_sets[i].1.reachable));
                i += 1;
            }
            assert(names.deep_view() =~= srv_names(*c));
            assert(targets.deep_view() =~= target_counts(*c));
            assert(answers.deep_view() =~= answer_counts(*c));
            self.gauges(
                "srv_targets",
                "Top-priority targets behind each SRV relay name",
                "name",
                names.as_slice(),
                targets.as_slice(),
            );
            self.gauges(
                "srv_targets_reachable",
                "Targets behind each SRV relay name that returned a tip",
                "name",
                names.as_slice(),
                answers.as_slice(),
            );
            self.gauges(
                "srv_reach_probability",
                "Chance a node drawing a target of this SRV name by weight reaches one that answered",
                "name",
                names.as_slice(),
                t.srv_probability.as_slice(),
            );
        }
        assert(self.items@ =~= old(self).items@ + srv_items(*c, *t));
    }

    fn version_items(&mut self, c: &Census, t: &Amounts<String>)
        requires
            old(self).wf(),
            t.fits(*c),
        ensures
            final(self).wf(),
            final(self).base == old(self).base,
            final(self).items@ == old(self).items@ + version_items(*c, *t),
    {
        if c.n2n_versions.len() > 0 {
            let mut names: Vec<String> = Vec::new();
            let mut counts: Vec<String> = Vec::new();
            let mut i: usize = 0;
            while i < c.n2n_versions.len()
                invariant
                    i <= c.n2n_versions.len(),
                    names.len() == i,
                    counts.len() == i,
                    forall|j: int| 0 <= j < i ==> (#[trigger] names[j])@ == versions(*c)[j],
                    forall|j: int|
                        0 <= j < i ==> (#[trigger] counts[j])@ == version_counts(*c)[j],
                decreases c.n2n_versions.len() - i,
            {
                names.push(c.n2n_versions[i].0.clone());
                counts.push(number(c.n2n_versions[i].1.relays));
                i += 1;
            }
            assert(names.deep_view() =~= versions(*c));
            assert(counts.deep_view() =~= version_counts(*c));
            self.gauges(
                "relays_n2n_version",
                "Answering relay entries by the node-to-node protocol version they negotiated",
                "version",
                names.as_slice(),
                counts.as_slice(),
            );
            self.gauges(
                "stake_n2n_version",
                "Stake behind answering relays by negotiated node-to-node version, each pool split over its relays",
                "version",
                names.as_slice(),
                t.version_stake.as_slice(),
            );
        }
        assert(self.items@ =~= old(self).items@ + version_items(*c, *t));
    }

    fn operator(&mut self, r: &OutreachRow, stake: &str)
        requires
            old(self).wf(),
        ensures
            final(self).wf(),
            final(self).base == old(self).base,
            final(self).items@ == old(self).items@ + seq![operator_item(*r, stake@)],
    {
        let pools = number(r.pools);
        let total = number(r.relays_total);
        let reachable = number(r.relays_reachable);
        let relays = join(r.relays.as_slice(), ", ");
        let mut labels: Vec<(&str, &str)> = Vec::new();
        labels.push(("pool_id", r.pool_id.as_str()));
        labels.push(("ticker", r.ticker.as_str()));
        labels.push(("name", r.name.as_str()));
        labels.push(("reach", r.reach.label()));
        labels.push(("pools", pools.as_str()));
        labels.push(("relays_total", total.as_str()));
        labels.push(("relays_reachable", reachable.as_str()));
        labels.push(("relays", relays.as_str()));
        assert(labels.deep_view() =~= seq![
            ("pool_id"@, r.pool_id@),
            ("ticker"@, r.ticker@),
            ("name"@, r.name@),
            ("reach"@, r.reach.name()),
            ("pools"@, pools@),
            ("relays_total"@, total@),
            ("relays_reachable"@, reachable@),
            ("relays"@, relays@),
        ]);
        self.sample("pool_stake_ratio", labels.as_slice(), stake);
    }

    fn outreach_items(&mut self, c: &Census, t: &Amounts<String>)
        requires
            old(self).wf(),
            t.fits(*c),
        ensures
            final(self).wf(),
            final(self).base == old(self).base,
            final(self).items@ == old(self).items@ + outreach_items(*c, *t),
    {
        if c.top_pools.len() > 0 {
            self.family(
                "pool_stake_ratio",
                "gauge",
                "Operators with the most stake among pools not fully reachable, named for outreach; pools sharing an identity are one row, and pool_id falls back to the first relay without an index",
            );
            let ghost start = self.items@;
            let ghost vs = t.outreach_stake.deep_view();
            let ghost f = |i: int| operator_item(c.top_pools@[i], vs[i]);
            let mut k: usize = 0;
            assert(self.items@ =~= start + Seq::new(0, f));
            while k < c.top_pools.len()
                invariant
                    k <= c.top_pools.len(),
                    self.wf(),
                    self.base == old(self).base,
                    t.fits(*c),
                    vs == t.outreach_stake.deep_view(),
                    f == (|i: int| operator_item(c.top_pools@[i], vs[i])),
                    self.items@ == start + Seq::new(k as nat, f),
                decreases c.top_pools.len() - k,
            {
                assert(vs[k as int] == t.outreach_stake[k as int]@);
                self.operator(&c.top_pools[k], t.outreach_stake[k].as_str());
                k += 1;
                assert(self.items@ =~= start + Seq::new(k as nat, f));
            }
        }
        assert(self.items@ =~= old(self).items@ + outreach_items(*c, *t));
    }

    fn network_family(&mut self, name: &str, help: &str, groups: &[AsnGroup], values: &[String])
        requires
            old(self).wf(),
            values.len() == groups.len(),
        ensures
            final(self).wf(),
            final(self).base == old(self).base,
            final(self).items@ == old(self).items@ + network_family(
                name@,
                help@,
                groups@,
                values.deep_view(),
            ),
    {
        self.family(name, "gauge", help);
        let ghost start = self.items@;
        let ghost vs = values.deep_view();
        let ghost f = |i: int|
            Item::Sample {
                name: name@,
                labels: seq![("asn"@, groups@[i].asn@), ("name"@, groups@[i].name@)],
                value: vs[i],
            };
        let mut k: usize = 0;
        assert(self.items@ =~= start + Seq::new(0, f));
        while k < groups.len()
            invariant
                k <= groups.len(),
                values.len() == groups.len(),
                self.wf(),
                self.base == old(self).base,
                vs == values.deep_view(),
                f == (|i: int|
                    Item::Sample {
                        name: name@,
                        labels: seq![("asn"@, groups@[i].asn@), ("name"@, groups@[i].name@)],
                        value: vs[i],
                    }),
                self.items@ == start + Seq::new(k as nat, f),
            decreases groups.len() - k,
        {
            assert(vs[k as int] == values[k as int]@);
            let mut labels: Vec<(&str, &str)> = Vec::new();
            labels.push(("asn", groups[k].asn.as_str()));
            labels.push(("name", groups[k].name.as_str()));
            assert(labels.deep_view() =~= seq![
                ("asn"@, groups@[k as int].asn@),
                ("name"@, groups@[k as int].name@),
            ]);
            self.sample(name, labels.as_slice(), values[k].as_str());
            k += 1;
            assert(self.items@ =~= start + Seq::new(k as nat, f));
        }
        assert(self.items@ =~= old(self).items@ + network_family(
            name@,
            help@,
            groups@,
            values.deep_view(),
        ));
    }

    fn network_items(&mut self, c: &Census, t: &Amounts<String>)
        requires
            old(self).wf(),
            t.fits(*c),
        ensures
            final(self).wf(),
            final(self).base == old(self).base,
            final(self).items@ == old(self).items@ + network_items(*c, *t),
    {
        if c.asn_db_ranges > 0 {
            let groups = c.asn_metrics.as_slice();
            let mut hosted: Vec<String> = Vec::new();
            let mut live: Vec<String> = Vec::new();
            let mut i: usize = 0;
            while i < groups.len()
                invariant
                    i <= groups.len(),
                    hosted.len() == i,
                    live.len() == i,
                    forall|j: int|
                        0 <= j < i ==> (#[trigger] hosted[j])@ == hosted_counts(groups@)[j],
                    forall|j: int|
                        0 <= j < i ==> (#[trigger] live[j])@ == live_counts(groups@)[j],
                decreases groups.len() - i,
            {
                hosted.push(number(groups[i].relays));
                live.push(number(groups[i].relays_reachable));
                i += 1;
            }
            assert(hosted.deep_view() =~= hosted_counts(groups@));
            assert(live.deep_view() =~= live_counts(groups@));
            self.count(
                "asn_min_relays",
                "Autonomous systems hosting fewer relays than this are folded into other",
                c.asn_min_relays,
            );
            self.network_family(
                "asn_relays",
                "Relay entries hosted in each autonomous system",
                groups,
                hosted.as_slice(),
            );
            self.network_family(
                "asn_relays_reachable",
                "Relay entries in each autonomous system that returned a tip",
                groups,
                live.as_slice(),
            );
            self.network_family(
                "asn_stake_ratio",
                "Stake hosted in each autonomous system, each pool split over its relays",
                groups,
                t.asn_stake.as_slice(),
            );
            self.network_family(
                "asn_stake_reachable_ratio",
                "Stake in each autonomous system whose relays returned a tip",
                groups,
                t.asn_stake_reachable.as_slice(),
            );
        }
        assert(self.items@ =~= old(self).items@ + network_items(*c, *t));
    }
}

fn stage_labels() -> (v: Vec<String>)
    ensures
        v.deep_view() == stage_names(),
{
    let all = Stage::ALL;
    let mut v: Vec<String> = Vec::new();
    let mut k: usize = 0;
    while k < all.len()
        invariant
            k <= all.len(),
            all@ == Stage::ALL@,
            v.len() == k,
            forall|j: int| 0 <= j < k ==> (#[trigger] v[j])@ == Stage::ALL@[j].name(),
        decreases all.len() - k,
    {
        v.push(all[k].label().to_string());
        k += 1;
    }
    assert(v.deep_view() =~= stage_names());
    v
}

fn count_failures(c: &Census) -> (v: Vec<String>)
    ensures
        v.deep_view() == failed_counts(*c),
{
    let mut v: Vec<String> = Vec::new();
    let mut k: usize = 0;
    while k < c.relays_failed.len()
        invariant
            k <= c.relays_failed.len(),
            v.len() == k,
            forall|j: int| 0 <= j < k ==> (#[trigger] v[j])@ == failed_counts(*c)[j],
        decreases c.relays_failed.len() - k,
    {
        v.push(number(c.relays_failed[k].1));
        k += 1;
    }
    assert(v.deep_view() =~= failed_counts(*c));
    v
}

fn reach_labels() -> (v: Vec<String>)
    ensures
        v.deep_view() == reach_names(),
{
    let all = Reach::ALL;
    let mut v: Vec<String> = Vec::new();
    let mut k: usize = 0;
    while k < all.len()
        invariant
            k <= all.len(),
            all@ == Reach::ALL@,
            v.len() == k,
            forall|j: int| 0 <= j < k ==> (#[trigger] v[j])@ == Reach::ALL@[j].name(),
        decreases all.len() - k,
    {
        v.push(all[k].label().to_string());
        k += 1;
    }
    assert(v.deep_view() =~= reach_names());
    v
}

fn count_pools(c: &Census) -> (v: Vec<String>)
    ensures
        v.deep_view() == pool_counts(*c),
{
    let mut v: Vec<String> = Vec::new();
    let mut k: usize = 0;
    while k < c.blp_by_reach.len()
        invariant
            k <= c.blp_by_reach.len(),
            v.len() == k,
            forall|j: int| 0 <= j < k ==> (#[trigger] v[j])@ == pool_counts(*c)[j],
        decreases c.blp_by_reach.len() - k,
    {
        v.push(number(c.blp_by_reach[k].1.pools));
        k += 1;
    }
    assert(v.deep_view() =~= pool_counts(*c));
    v
}

fn count_sizes(c: &Cumulative) -> (v: Vec<String>)
    ensures
        v.deep_view() == sizes(*c),
{
    let mut v: Vec<String> = Vec::new();
    let mut b: usize = 0;
    while b < c.values.len()
        invariant
            b <= c.values.len(),
            v.len() == b,
            forall|j: int|
                0 <= j < b ==> (#[trigger] v[j])@ == crate::text::decimal(c.values@[j]@.len()),
        decreases c.values.len() - b,
    {
        v.push(number(c.values[b].len() as u64));
        b += 1;
    }
    v.push(number(c.total.len() as u64));
    assert(v.deep_view() =~= sizes(*c));
    v
}

/// The relays on the main group, or on all others, in decimal.
fn count_relays(groups: &[ChainGroup], main: bool) -> (s: String)
    ensures
        s@ == crate::text::decimal(chain_relays(groups@, main)),
{
    let ghost p = on_main(groups@, main);
    let ghost f = relays_on(groups@);
    let mut sum: u128 = 0;
    let mut i: usize = 0;
    while i < groups.len()
        invariant
            i <= groups.len(),
            p == on_main(groups@, main),
            f == relays_on(groups@),
            sum == crate::count::sum_of(crate::count::select(i as int, p), f),
            sum <= i * 0xffff_ffff_ffff_ffff,
        decreases groups.len() - i,
    {
        assert(i * 0xffff_ffff_ffff_ffff + 0xffff_ffff_ffff_ffff <= u128::MAX) by (nonlinear_arith)
            requires
                i <= 0xffff_ffff_ffff_ffff,
        ;
        assert((i + 1) * 0xffff_ffff_ffff_ffff == i * 0xffff_ffff_ffff_ffff
            + 0xffff_ffff_ffff_ffff) by (nonlinear_arith);
        if groups[i].main == main {
            proof {
                crate::count::lemma_sum_push(crate::count::select(i as int, p), i as int, f);
            }
            sum += groups[i].relays as u128;
        }
        i += 1;
    }
    string_of(decimal_wide(sum).as_slice())
}

/// What was asked of whom.
fn write_source(out: &mut Out, c: &Census, t: &Amounts<String>, rev: &str)
    requires
        old(out).wf(),
        c.wf(),
        t.fits(*c),
    ensures
        final(out).wf(),
        final(out).base == old(out).base,
        final(out).items@ == source_items(old(out).items@, *c, *t, rev@),
{
    out.build_info(rev);
    out.snapshot_info(c);
    out.count("snapshot_slot", "Slot of the snapshot's ledger point", c.snapshot_slot);
    out.count("blp_total", "Big ledger pools in the snapshot", c.blp_total);
    out.gauge(
        "snapshot_stake_ratio",
        "Sum of relativeStake over the snapshot's pools",
        t.snapshot_stake.as_str(),
    );
    out.count("relays_total", "Relay entries in the snapshot", c.relays_total);
    out.count(
        "relays_srv",
        "Relay entries that are SRV record names, each probed at its top-priority targets",
        c.relays_srv,
    );
}

/// The endpoints and the SRV names behind them.
fn write_endpoint(out: &mut Out, c: &Census, t: &Amounts<String>)
    requires
        old(out).wf(),
        c.wf(),
        t.fits(*c),
    ensures
        final(out).wf(),
        final(out).base == old(out).base,
        final(out).items@ == endpoint_items(old(out).items@, *c, *t),
{
    out.srv_items(c, t);
    out.count(
        "srv_endpoints_total",
        "Distinct endpoints that are SRV targets",
        c.srv_endpoints_total,
    );
    out.count(
        "srv_endpoints_reachable",
        "Distinct SRV target endpoints that returned a tip",
        c.srv_endpoints_reachable,
    );
    out.count(
        "endpoints_total",
        "Distinct socket addresses after resolving and deduplicating the relay entries",
        c.endpoints_total,
    );
    out.count("endpoints_probed", "Endpoints that resolved and were probed", c.endpoints_probed);
}

/// What the relays answered.
fn write_relay(out: &mut Out, c: &Census, t: &Amounts<String>)
    requires
        old(out).wf(),
        c.wf(),
        t.fits(*c),
    ensures
        final(out).wf(),
        final(out).base == old(out).base,
        final(out).items@ == relay_items(old(out).items@, *c, *t),
{
    let stages = stage_labels();
    let failed = count_failures(c);
    assert(stages.deep_view().len() == stages.len());
    assert(failed.deep_view().len() == failed.len());
    out.pair(
        "relays_reachable",
        "Relay entries that returned a tip, by address family that answered",
        "family",
        ("v4", number(c.relays_reachable_v4).as_str()),
        ("v6", number(c.relays_reachable_v6).as_str()),
    );
    out.version_items(c, t);
    out.gauges(
        "relays_failed",
        "Relay entries that returned no tip, by the stage that failed",
        "stage",
        stages.as_slice(),
        failed.as_slice(),
    );
}

/// How the pools stand.
fn write_pool(out: &mut Out, c: &Census, t: &Amounts<String>)
    requires
        old(out).wf(),
        c.wf(),
        t.fits(*c),
    ensures
        final(out).wf(),
        final(out).base == old(out).base,
        final(out).items@ == pool_items(old(out).items@, *c, *t),
{
    let reaches = reach_labels();
    let pools = count_pools(c);
    assert(reaches.deep_view().len() == reaches.len());
    assert(pools.deep_view().len() == pools.len());
    out.gauges(
        "blp",
        "Pools by how many of their relays answered: none, some, or all",
        "reach",
        reaches.as_slice(),
        pools.as_slice(),
    );
    out.gauges(
        "blp_stake_ratio",
        "Summed relativeStake of the pools in each reach class",
        "reach",
        reaches.as_slice(),
        t.reach_stake.as_slice(),
    );
    out.gauge(
        "reachable_stake_ratio",
        "Stake of pools with at least one relay answering",
        t.reachable_stake.as_str(),
    );
}

/// What the octet reversals answered.
fn write_reversal(out: &mut Out, c: &Census, t: &Amounts<String>)
    requires
        old(out).wf(),
        c.wf(),
        t.fits(*c),
    ensures
        final(out).wf(),
        final(out).base == old(out).base,
        final(out).items@ == reversal_items(old(out).items@, *c, *t),
{
    out.count(
        "relays_ipv4_literal",
        "Relay entries whose address is an IPv4 literal, each also probed with its octets reversed",
        c.ipv4.relays,
    );
    out.pair(
        "relays_ipv4_literal_reachable",
        "IPv4 literal relay entries that returned a tip at the address as given, and at the address with its octets reversed",
        "spelling",
        ("given", number(c.ipv4.reachable_given).as_str()),
        ("reversed", number(c.ipv4.reachable_reversed).as_str()),
    );
    out.count(
        "pools_ipv4_reversed_only",
        "Pools with no relay answering as given and one answering at its octet reversal",
        c.ipv4.pools_reversed_only,
    );
    out.gauge(
        "stake_ipv4_reversed_only_ratio",
        "Stake of pools with no relay answering as given and one answering at its octet reversal",
        t.reversed_only_stake.as_str(),
    );
    out.gauge(
        "reachable_stake_ratio_with_reversed",
        "Stake of pools with a relay answering as given or at its octet reversal",
        t.reachable_with_reversed.as_str(),
    );
    out.gauge(
        "relay_weighted_stake_ratio",
        "Stake weighted by the share of each pool's relays that answered, an SRV relay by the weight of its answering targets",
        t.relay_weighted_stake.as_str(),
    );
}

/// How long answers took.
fn write_time(out: &mut Out, c: &Census, t: &Amounts<String>)
    requires
        old(out).wf(),
        c.wf(),
        t.fits(*c),
    ensures
        final(out).wf(),
        final(out).base == old(out).base,
        final(out).items@ == time_items(old(out).items@, *c, *t),
{
    let relays_reachable_within = count_sizes(&c.relays_reachable_within);
    assert(relays_reachable_within.deep_view().len() == relays_reachable_within.len());
    out.within(
        "relays_reachable_within",
        "Relay entries that returned a tip within le seconds of the first DNS lookup",
        c.relays_reachable_within.bounds.as_slice(),
        relays_reachable_within.as_slice(),
    );
    out.within(
        "stake_reachable_within",
        "Stake of pools whose fastest relay returned a tip within le seconds",
        c.stake_reachable_within.bounds.as_slice(),
        t.stake_within.as_slice(),
    );
    out.histogram(
        "blp_relay_reachability",
        "Pools by the share of their relays that answered",
        &c.reachability,
        t.reachability_sum.as_str(),
    );
    out.histogram(
        "probe_rtt_seconds",
        "Connect through tip response for each endpoint that answered",
        &c.rtt_seconds,
        t.rtt_sum.as_str(),
    );
}

/// The tips and the chains that they are on.
fn write_tip(out: &mut Out, c: &Census, t: &Amounts<String>)
    requires
        old(out).wf(),
        c.wf(),
        t.fits(*c),
    ensures
        final(out).wf(),
        final(out).base == old(out).base,
        final(out).items@ == tip_items(old(out).items@, *c, *t),
{
    let relays_within_blocks_of_tip = count_sizes(&c.relays_within_blocks_of_tip);
    assert(relays_within_blocks_of_tip.deep_view().len() == relays_within_blocks_of_tip.len());
    out.count("tip_block_max", "Highest block number reported by any relay", c.tip_block_max);
    out.count("tip_slot_max", "Highest slot reported by any relay", c.tip_slot_max);
    out.count(
        "tips_at_max_block",
        "Distinct block hashes reported at the highest block; more than one is a fork or slot battle at the tip",
        c.tips_at_max_block,
    );
    out.count(
        "chains",
        "Tip groups after merging tips within fork_tolerance blocks of each other",
        c.chains.len() as u64,
    );
    out.count(
        "fork_tolerance_blocks",
        "Block distance within which tips count as one chain",
        c.fork_tolerance,
    );
    out.pair(
        "chain_relays",
        "Answering relay entries on the main chain group and on all others",
        "chain",
        ("main", count_relays(c.chains.as_slice(), true).as_str()),
        ("other", count_relays(c.chains.as_slice(), false).as_str()),
    );
    out.pair(
        "chain_stake_ratio",
        "Stake on the main chain group and on all others, each pool split over its answering relays",
        "chain",
        ("main", t.main_stake.as_str()),
        ("other", t.other_stake.as_str()),
    );
    out.within(
        "relays_within_blocks_of_tip",
        "Answering relay entries whose tip is at most le blocks behind the highest",
        c.relays_within_blocks_of_tip.bounds.as_slice(),
        relays_within_blocks_of_tip.as_slice(),
    );
    out.within(
        "stake_within_blocks_of_tip",
        "Stake of pools whose most current relay is at most le blocks behind the highest tip",
        c.stake_within_blocks_of_tip.bounds.as_slice(),
        t.stake_near_tip.as_slice(),
    );
}

/// The operators to reach out to and the networks of the relays.
fn write_operator(out: &mut Out, c: &Census, t: &Amounts<String>)
    requires
        old(out).wf(),
        c.wf(),
        t.fits(*c),
    ensures
        final(out).wf(),
        final(out).base == old(out).base,
        final(out).items@ == operator_items(old(out).items@, *c, *t),
{
    out.count(
        "pools_indexed",
        "Pools the pool index named, 0 when no index was given",
        c.pools_indexed,
    );
    out.outreach_items(c, t);
    out.count(
        "asn_db_ranges",
        "Ranges in the loaded ip2asn database, 0 when relays could not be placed in networks",
        c.asn_db_ranges,
    );
    out.network_items(c, t);
}

/// How the run went.
fn write_closing(out: &mut Out, c: &Census, t: &Amounts<String>)
    requires
        old(out).wf(),
        c.wf(),
        t.fits(*c),
    ensures
        final(out).wf(),
        final(out).base == old(out).base,
        final(out).items@ == closing_items(old(out).items@, *c, *t),
{
    out.gauge(
        "scan_duration_seconds",
        "Wall time from first DNS lookup to last probe",
        t.scan_duration.as_str(),
    );
    out.count("last_run_timestamp_seconds", "When this census finished", c.timestamp_seconds);
    out.gauge("success", "1 if the census ran to completion", "1");
}

/// Render the metrics, with `labels` stamped on every series. `rev` is the git
/// revision of the build.
pub fn render(c: &Census, labels: &[(String, String)], t: &Amounts<String>, rev: &str) -> (text:
    String)
    requires
        c.wf(),
        t.fits(*c),
    ensures
        text@ == written(labels.deep_view(), all_items(*c, *t, rev@)),
{
    let mut out = Out::new(labels);
    write_source(&mut out, c, t, rev);
    write_endpoint(&mut out, c, t);
    write_relay(&mut out, c, t);
    write_pool(&mut out, c, t);
    write_reversal(&mut out, c, t);
    write_time(&mut out, c, t);
    write_tip(&mut out, c, t);
    write_operator(&mut out, c, t);
    write_closing(&mut out, c, t);
    out.text
}

/// All that is shown when the run could not complete.
pub open spec fn failure_items(timestamp_seconds: u64, rev: Seq<char>) -> Seq<Item> {
    build_info(rev) + gauge(
        "last_run_timestamp_seconds"@,
        "When this census finished"@,
        crate::text::decimal(timestamp_seconds as nat),
    ) + gauge("success"@, "1 if the census ran to completion"@, "0"@)
}

/// Written in place of the metrics when the run could not complete.
pub fn render_failure(timestamp_seconds: u64, labels: &[(String, String)], rev: &str) -> (text:
    String)
    ensures
        text@ == written(labels.deep_view(), failure_items(timestamp_seconds, rev@)),
{
    let mut out = Out::new(labels);
    out.build_info(rev);
    assert(out.items@ =~= build_info(rev@));
    out.count("last_run_timestamp_seconds", "When this census finished", timestamp_seconds);
    out.gauge("success", "1 if the census ran to completion", "0");
    out.text
}

// What holds of values.

/// Escaping goes character by character: what is put together and escaped is
/// what is escaped and put together.
pub proof fn escaping_goes_piece_by_piece(a: Seq<char>, b: Seq<char>)
    ensures
        escaped(a + b) == escaped(a) + escaped(b),
    decreases b.len(),
{
    if b.len() == 0 {
        assert(a + b =~= a);
        assert(escaped(a) + escaped(b) =~= escaped(a));
    } else {
        escaping_goes_piece_by_piece(a, b.drop_last());
        assert((a + b).drop_last() =~= a + b.drop_last());
        assert(escaped(a + b) =~= escaped(a) + escaped(b));
    }
}

proof fn lemma_escaped_first(v: Seq<char>)
    requires
        v.len() > 0,
    ensures
        escaped(v) == escaped_char(v[0]) + escaped(v.drop_first()),
{
    let one = seq![v[0]];
    assert(v =~= one + v.drop_first());
    escaping_goes_piece_by_piece(one, v.drop_first());
    assert(one.drop_last() =~= Seq::<char>::empty());
    assert(escaped(one.drop_last()) =~= Seq::<char>::empty());
    assert(escaped(one) =~= escaped_char(v[0]));
}

/// Escaping loses nothing: different values are written differently.
pub proof fn escaping_loses_nothing(a: Seq<char>, b: Seq<char>)
    requires
        escaped(a) == escaped(b),
    ensures
        a == b,
    decreases a.len(),
{
    if a.len() > 0 {
        lemma_escaped_first(a);
    }
    if b.len() > 0 {
        lemma_escaped_first(b);
    }
    if a.len() == 0 || b.len() == 0 {
        if b.len() > 0 {
            assert(escaped(b).len() > 0);
        }
        if a.len() > 0 {
            assert(escaped(a).len() > 0);
        }
        assert(a =~= b);
    } else {
        let x = escaped_char(a[0]);
        let y = escaped_char(b[0]);
        let p = escaped(a.drop_first());
        let q = escaped(b.drop_first());
        assert((x + p)[0] == x[0] && (y + q)[0] == y[0]);
        if x.len() == 2 {
            assert((x + p)[1] == x[1]);
        }
        if y.len() == 2 {
            assert((y + q)[1] == y[1]);
        }
        assert(a[0] == b[0]);
        assert(p =~= (x + p).subrange(x.len() as int, (x + p).len() as int));
        assert(q =~= (y + q).subrange(y.len() as int, (y + q).len() as int));
        escaping_loses_nothing(a.drop_first(), b.drop_first());
        assert(a =~= seq![a[0]] + a.drop_first());
        assert(b =~= seq![b[0]] + b.drop_first());
    }
}

/// A value that is written holds no line break, and no quote that does not
/// follow a backslash.
pub proof fn a_written_value_stays_within_its_quotes(v: Seq<char>, i: int)
    requires
        0 <= i < escaped(v).len(),
    ensures
        escaped(v)[i] != '\n',
        escaped(v)[i] == '"' ==> i > 0 && escaped(v)[i - 1] == '\\',
    decreases v.len(),
{
    let front = escaped(v.drop_last());
    let last = escaped_char(v.last());
    if i < front.len() {
        a_written_value_stays_within_its_quotes(v.drop_last(), i);
    } else {
        assert(escaped(v)[i] == last[i - front.len()]);
        if i > front.len() {
            assert(escaped(v)[i - 1] == last[i - 1 - front.len()]);
        }
    }
}

// What holds of the output.

/// Does a series of this name belong to the family `f`? A histogram has three
/// endings.
pub open spec fn belongs(name: Seq<char>, f: Seq<char>) -> bool {
    ||| name == f
    ||| name == f + "_bucket"@
    ||| name == f + "_sum"@
    ||| name == f + "_count"@
}

/// The family that was declared last.
pub open spec fn current(items: Seq<Item>) -> Option<Seq<char>>
    decreases items.len(),
{
    if items.len() == 0 {
        None
    } else {
        match items.last() {
            Item::Family { name, .. } => Some(name),
            Item::Sample { .. } => current(items.drop_last()),
        }
    }
}

/// Does every series belong to the family that was declared last before it?
pub open spec fn grouped(items: Seq<Item>) -> bool
    decreases items.len(),
{
    items.len() > 0 ==> {
        &&& grouped(items.drop_last())
        &&& items.last() matches Item::Sample { name, .. } ==> (current(
            items.drop_last(),
        ) matches Some(f) && belongs(name, f))
    }
}

/// Is this a family and nothing but series of it?
pub open spec fn is_block(b: Seq<Item>) -> bool {
    &&& b.len() > 0
    &&& b[0] is Family
    &&& forall|i: int|
        1 <= i < b.len() ==> (#[trigger] b[i]) is Sample && belongs(
            b[i]->Sample_name,
            b[0]->Family_name,
        )
}

proof fn lemma_block(items: Seq<Item>, b: Seq<Item>, k: int)
    requires
        grouped(items),
        is_block(b),
        1 <= k <= b.len(),
    ensures
        grouped(items + b.take(k)),
        current(items + b.take(k)) == Some(b[0]->Family_name),
    decreases k,
{
    let all = items + b.take(k);
    assert(all.last() == b[k - 1]);
    assert(all.drop_last() =~= items + b.take(k - 1));
    if k > 1 {
        lemma_block(items, b, k - 1);
    } else {
        assert(items + b.take(0) =~= items);
    }
}

/// A block may follow whatever is grouped.
broadcast proof fn lemma_add_block(items: Seq<Item>, b: Seq<Item>)
    requires
        grouped(items),
        is_block(b),
    ensures
        #[trigger] grouped(items + b),
{
    lemma_block(items, b, b.len() as int);
    assert(b.take(b.len() as int) =~= b);
}

broadcast proof fn lemma_gauge_block(name: Seq<char>, help: Seq<char>, value: Seq<char>)
    ensures
        is_block(#[trigger] gauge(name, help, value)),
{
}

broadcast proof fn lemma_gauges_block(
    name: Seq<char>,
    help: Seq<char>,
    key: Seq<char>,
    labels: Seq<Seq<char>>,
    values: Seq<Seq<char>>,
)
    ensures
        is_block(#[trigger] gauges(name, help, key, labels, values)),
{
}

broadcast proof fn lemma_histogram_block(
    name: Seq<char>,
    help: Seq<char>,
    h: Histogram,
    sum: Seq<char>,
)
    ensures
        is_block(#[trigger] histogram(name, help, h, sum)),
{
    let b = histogram(name, help, h, sum);
    let n = bucket_labels(h.bounds@).len();
    assert forall|i: int| 1 <= i < b.len() implies (#[trigger] b[i]) is Sample && belongs(
        b[i]->Sample_name,
        b[0]->Family_name,
    ) by {
        if i <= n {
            assert(b[i] is Sample && b[i]->Sample_name == name + "_bucket"@);
        } else if i == n + 1 {
            assert(b[i] == plain(name + "_sum"@, sum));
        } else {
            assert(b[i] == plain(
                name + "_count"@,
                crate::text::decimal(h.count as nat),
            ));
        }
    }
}

broadcast proof fn lemma_network_block(
    name: Seq<char>,
    help: Seq<char>,
    groups: Seq<AsnGroup>,
    values: Seq<Seq<char>>,
)
    ensures
        is_block(#[trigger] network_family(name, help, groups, values)),
{
}

broadcast group group_blocks {
    lemma_add_block,
    lemma_gauge_block,
    lemma_gauges_block,
    lemma_histogram_block,
    lemma_network_block,
}

proof fn lemma_add_infos(items: Seq<Item>, c: Census, rev: Seq<char>)
    requires
        grouped(items),
    ensures
        grouped(items + build_info(rev)),
        grouped(items + snapshot_info(c)),
{
    assert(is_block(build_info(rev)));
    assert(is_block(snapshot_info(c)));
    lemma_add_block(items, build_info(rev));
    lemma_add_block(items, snapshot_info(c));
}

proof fn lemma_add_srv(items: Seq<Item>, c: Census, t: Amounts<String>)
    requires
        grouped(items),
    ensures
        grouped(items + srv_items(c, t)),
{
    broadcast use group_blocks;

    if c.srv_sets.len() == 0 {
        assert(items + srv_items(c, t) =~= items);
    } else {
        let names = srv_names(c);
        let a = gauges(
            "srv_targets"@,
            "Top-priority targets behind each SRV relay name"@,
            "name"@,
            names,
            target_counts(c),
        );
        let b = gauges(
            "srv_targets_reachable"@,
            "Targets behind each SRV relay name that returned a tip"@,
            "name"@,
            names,
            answer_counts(c),
        );
        let d = gauges(
            "srv_reach_probability"@,
            "Chance a node drawing a target of this SRV name by weight reaches one that answered"@,
            "name"@,
            names,
            t.srv_probability.deep_view(),
        );
        assert(grouped(items + a + b + d));
        assert(items + srv_items(c, t) =~= items + a + b + d);
    }
}

proof fn lemma_add_versions(items: Seq<Item>, c: Census, t: Amounts<String>)
    requires
        grouped(items),
    ensures
        grouped(items + version_items(c, t)),
{
    broadcast use group_blocks;

    if c.n2n_versions.len() == 0 {
        assert(items + version_items(c, t) =~= items);
    } else {
        let a = gauges(
            "relays_n2n_version"@,
            "Answering relay entries by the node-to-node protocol version they negotiated"@,
            "version"@,
            versions(c),
            version_counts(c),
        );
        let b = gauges(
            "stake_n2n_version"@,
            "Stake behind answering relays by negotiated node-to-node version, each pool split over its relays"@,
            "version"@,
            versions(c),
            t.version_stake.deep_view(),
        );
        assert(grouped(items + a + b));
        assert(items + version_items(c, t) =~= items + a + b);
    }
}

proof fn lemma_add_outreach(items: Seq<Item>, c: Census, t: Amounts<String>)
    requires
        grouped(items),
    ensures
        grouped(items + outreach_items(c, t)),
{
    if c.top_pools.len() == 0 {
        assert(items + outreach_items(c, t) =~= items);
    } else {
        assert(is_block(outreach_items(c, t)));
        lemma_add_block(items, outreach_items(c, t));
    }
}

proof fn lemma_add_networks(items: Seq<Item>, c: Census, t: Amounts<String>)
    requires
        grouped(items),
    ensures
        grouped(items + network_items(c, t)),
{
    broadcast use group_blocks;

    if c.asn_db_ranges == 0 {
        assert(items + network_items(c, t) =~= items);
    } else {
        let groups = c.asn_metrics@;
        let a = gauge(
            "asn_min_relays"@,
            "Autonomous systems hosting fewer relays than this are folded into other"@,
            crate::text::decimal(c.asn_min_relays as nat),
        );
        let b = network_family(
            "asn_relays"@,
            "Relay entries hosted in each autonomous system"@,
            groups,
            hosted_counts(groups),
        );
        let d = network_family(
            "asn_relays_reachable"@,
            "Relay entries in each autonomous system that returned a tip"@,
            groups,
            live_counts(groups),
        );
        let e = network_family(
            "asn_stake_ratio"@,
            "Stake hosted in each autonomous system, each pool split over its relays"@,
            groups,
            t.asn_stake.deep_view(),
        );
        let f = network_family(
            "asn_stake_reachable_ratio"@,
            "Stake in each autonomous system whose relays returned a tip"@,
            groups,
            t.asn_stake_reachable.deep_view(),
        );
        assert(grouped(items + a + b + d + e + f));
        assert(items + network_items(c, t) =~= items + a + b + d + e + f);
    }
}

proof fn lemma_source_grouped(
    items: Seq<Item>,
    c: Census,
    t: Amounts<String>,
    rev: Seq<char>,
)
    requires
        grouped(items),
    ensures
        grouped(source_items(items, c, t, rev)),
{
    broadcast use group_blocks;

    lemma_add_infos(items, c, rev);
    lemma_add_infos(items + build_info(rev), c, rev);
}

proof fn lemma_endpoint_grouped(items: Seq<Item>, c: Census, t: Amounts<String>)
    requires
        grouped(items),
    ensures
        grouped(endpoint_items(items, c, t)),
{
    broadcast use group_blocks;

    lemma_add_srv(items, c, t);
}

proof fn lemma_relay_grouped(items: Seq<Item>, c: Census, t: Amounts<String>)
    requires
        grouped(items),
    ensures
        grouped(relay_items(items, c, t)),
{
    broadcast use group_blocks;

    let family = gauges(
        "relays_reachable"@,
        "Relay entries that returned a tip, by address family that answered"@,
        "family"@,
        seq!["v4"@, "v6"@],
        seq![
            crate::text::decimal(c.relays_reachable_v4 as nat),
            crate::text::decimal(c.relays_reachable_v6 as nat),
        ],
    );
    assert(grouped(items + family));
    lemma_add_versions(items + family, c, t);
}

proof fn lemma_pool_grouped(items: Seq<Item>, c: Census, t: Amounts<String>)
    requires
        grouped(items),
    ensures
        grouped(pool_items(items, c, t)),
{
    broadcast use group_blocks;

}

proof fn lemma_reversal_grouped(items: Seq<Item>, c: Census, t: Amounts<String>)
    requires
        grouped(items),
    ensures
        grouped(reversal_items(items, c, t)),
{
    broadcast use group_blocks;

}

proof fn lemma_time_grouped(items: Seq<Item>, c: Census, t: Amounts<String>)
    requires
        grouped(items),
    ensures
        grouped(time_items(items, c, t)),
{
    broadcast use group_blocks;

}

proof fn lemma_tip_grouped(items: Seq<Item>, c: Census, t: Amounts<String>)
    requires
        grouped(items),
    ensures
        grouped(tip_items(items, c, t)),
{
    broadcast use group_blocks;

}

proof fn lemma_operator_grouped(items: Seq<Item>, c: Census, t: Amounts<String>)
    requires
        grouped(items),
    ensures
        grouped(operator_items(items, c, t)),
{
    broadcast use group_blocks;

    let named = items + gauge(
        "pools_indexed"@,
        "Pools the pool index named, 0 when no index was given"@,
        crate::text::decimal(c.pools_indexed as nat),
    );
    assert(grouped(named));
    lemma_add_outreach(named, c, t);
    let ranges = named + outreach_items(c, t) + gauge(
        "asn_db_ranges"@,
        "Ranges in the loaded ip2asn database, 0 when relays could not be placed in networks"@,
        crate::text::decimal(c.asn_db_ranges as nat),
    );
    assert(grouped(ranges));
    lemma_add_networks(ranges, c, t);
}

proof fn lemma_closing_grouped(items: Seq<Item>, c: Census, t: Amounts<String>)
    requires
        grouped(items),
    ensures
        grouped(closing_items(items, c, t)),
{
    broadcast use group_blocks;

}

/// Every series stands under the family that it belongs to.
pub proof fn every_series_follows_its_family(c: Census, t: Amounts<String>, rev: Seq<char>)
    ensures
        grouped(all_items(c, t, rev)),
{
    lemma_source_grouped(Seq::empty(), c, t, rev);
    let source = source_items(Seq::empty(), c, t, rev);
    lemma_endpoint_grouped(source, c, t);
    let endpoint = endpoint_items(source, c, t);
    lemma_relay_grouped(endpoint, c, t);
    let relay = relay_items(endpoint, c, t);
    lemma_pool_grouped(relay, c, t);
    let pool = pool_items(relay, c, t);
    lemma_reversal_grouped(pool, c, t);
    let reversal = reversal_items(pool, c, t);
    lemma_time_grouped(reversal, c, t);
    let time = time_items(reversal, c, t);
    lemma_tip_grouped(time, c, t);
    let tip = tip_items(time, c, t);
    lemma_operator_grouped(tip, c, t);
    let operator = operator_items(tip, c, t);
    lemma_closing_grouped(operator, c, t);
}

/// No two operators of the outreach list have the same labels.
pub proof fn no_operator_is_shown_twice(
    c: Census,
    inputs: crate::standing::Inputs<'_>,
    limit: usize,
    keys: Seq<u64>,
    i: int,
    j: int,
)
    requires
        crate::census::lists_operators(c, inputs, limit, keys),
        crate::operators::unambiguous(inputs.stats()),
        0 <= i < c.top_pools.len(),
        0 <= j < c.top_pools.len(),
        i != j,
    ensures
        forall|x: Seq<char>, y: Seq<char>|
            (#[trigger] operator_item(c.top_pools[i], x))->labels != (#[trigger] operator_item(
                c.top_pools[j],
                y,
            ))->labels,
{
    crate::census::listed_operators_are_distinct(c, inputs, limit, keys, i, j);
    let shown = c.top_pools.deep_view();
    assert(shown[i] == c.top_pools[i].deep_view() && shown[j] == c.top_pools[j].deep_view());
    assert forall|x: Seq<char>, y: Seq<char>|
        (#[trigger] operator_item(c.top_pools[i], x))->labels != (#[trigger] operator_item(
            c.top_pools[j],
            y,
        ))->labels by {
        let a = operator_item(c.top_pools[i], x)->labels;
        let b = operator_item(c.top_pools[j], y)->labels;
        if a == b {
            assert(a[0] == b[0] && a[1] == b[1] && a[2] == b[2] && a[7] == b[7]);
        }
    }
}

/// The place of a family's name among all names, in the order in which the
/// families are declared, told from the name's length and a few of its letters.
pub closed spec fn turn(s: Seq<char>) -> int {
    if s.len() == 3 {
        18
    } else if s.len() == 6 {
        34
    } else if s.len() == 7 {
        50
    } else if s.len() == 9 {
        3
    } else if s.len() == 10 {
        if s[0] == 'a' {
            44
        } else if s[0] == 'b' {
            0
        } else {
            6
        }
    } else if s.len() == 11 {
        7
    } else if s.len() == 12 {
        if s[0] == 'c' {
            36
        } else if s[0] == 'r' {
            5
        } else {
            32
        }
    } else if s.len() == 13 {
        if s[0] == 'a' {
            42
        } else if s[0] == 'p' {
            40
        } else if s[0] == 'r' {
            17
        } else if s[0] == 's' {
            if s[9] == 'i' {
                1
            } else {
                2
            }
        } else {
            31
        }
    } else if s.len() == 14 {
        43
    } else if s.len() == 15 {
        if s[0] == 'a' {
            46
        } else if s[0] == 'b' {
            19
        } else {
            12
        }
    } else if s.len() == 16 {
        if s[0] == 'e' {
            13
        } else if s[0] == 'p' {
            41
        } else {
            14
        }
    } else if s.len() == 17 {
        if s[0] == 'c' {
            37
        } else if s[0] == 'p' {
            30
        } else if s[0] == 's' {
            16
        } else {
            33
        }
    } else if s.len() == 18 {
        15
    } else if s.len() == 19 {
        if s[0] == 'r' {
            21
        } else {
            10
        }
    } else if s.len() == 20 {
        if s[0] == 'a' {
            45
        } else {
            4
        }
    } else if s.len() == 21 {
        if s[6] == 'a' {
            9
        } else if s[6] == 'b' {
            20
        } else if s[6] == 'o' {
            35
        } else if s[6] == 'r' {
            8
        } else {
            48
        }
    } else if s.len() == 22 {
        if s[0] == 'b' {
            29
        } else {
            28
        }
    } else if s.len() == 23 {
        if s[0] == 'r' {
            27
        } else {
            11
        }
    } else if s.len() == 24 {
        23
    } else if s.len() == 25 {
        47
    } else if s.len() == 26 {
        if s[0] == 'l' {
            49
        } else if s[0] == 'r' {
            26
        } else {
            39
        }
    } else if s.len() == 27 {
        38
    } else if s.len() == 29 {
        22
    } else if s.len() == 30 {
        24
    } else {
        25
    }
}

/// Does the name not end as those of the series of a histogram do?
pub open spec fn is_whole(s: Seq<char>) -> bool {
    &&& s.len() >= 2
    &&& s[s.len() - 1] != 't' || (s[s.len() - 2] != 'e' && s[s.len() - 2] != 'n')
    &&& s[s.len() - 1] != 'm' || s[s.len() - 2] != 'u'
}

/// Are families declared in the order of their turns, all before the turn `n`?
spec fn rising(items: Seq<Item>, n: int) -> bool
    decreases items.len(),
{
    items.len() > 0 ==> match items.last() {
        Item::Family { name, .. } => turn(name) < n && rising(items.drop_last(), turn(name)),
        Item::Sample { .. } => rising(items.drop_last(), n),
    }
}

proof fn lemma_rising_later(items: Seq<Item>, n: int, m: int)
    requires
        rising(items, n),
        n <= m,
    ensures
        rising(items, m),
    decreases items.len(),
{
    if items.len() > 0 && items.last() is Sample {
        lemma_rising_later(items.drop_last(), n, m);
    }
}

proof fn lemma_rising_block(items: Seq<Item>, b: Seq<Item>, n: int, k: int)
    requires
        is_block(b),
        rising(items, turn(b[0]->Family_name)),
        turn(b[0]->Family_name) < n,
        1 <= k <= b.len(),
    ensures
        rising(items + b.take(k), n),
    decreases k,
{
    let all = items + b.take(k);
    assert(all.last() == b[k - 1]);
    assert(all.drop_last() =~= items + b.take(k - 1));
    if k > 1 {
        lemma_rising_block(items, b, n, k - 1);
    } else {
        assert(items + b.take(0) =~= items);
    }
}

/// A block whose turn it is may follow.
broadcast proof fn lemma_add_turn(items: Seq<Item>, b: Seq<Item>, n: int)
    requires
        is_block(b),
        rising(items, turn(b[0]->Family_name)),
        turn(b[0]->Family_name) < n,
    ensures
        #[trigger] rising(items + b, n),
{
    lemma_rising_block(items, b, n, b.len() as int);
    assert(b.take(b.len() as int) =~= b);
}

broadcast group group_turns {
    lemma_add_turn,
    lemma_gauge_block,
    lemma_gauges_block,
    lemma_histogram_block,
    lemma_network_block,
}

proof fn lemma_rising_bounds(items: Seq<Item>, n: int, i: int)
    requires
        rising(items, n),
        0 <= i < items.len(),
        items[i] is Family,
    ensures
        turn(items[i]->Family_name) < n,
    decreases items.len(),
{
    if i < items.len() - 1 {
        let front = items.drop_last();
        assert(front[i] == items[i]);
        lemma_rising_bounds(
            front,
            match items.last() {
                Item::Family { name, .. } => turn(name),
                Item::Sample { .. } => n,
            },
            i,
        );
    }
}

/// Is every family declared once?
pub open spec fn declared_once(items: Seq<Item>) -> bool {
    forall|i: int, j: int|
        0 <= i < j < items.len() && (#[trigger] items[i]) is Family && (#[trigger] items[j]) is Family
            ==> items[i]->Family_name != items[j]->Family_name
}

proof fn lemma_rising_declares_once(items: Seq<Item>, n: int)
    requires
        rising(items, n),
    ensures
        declared_once(items),
    decreases items.len(),
{
    if items.len() > 0 {
        let front = items.drop_last();
        let m = match items.last() {
            Item::Family { name, .. } => turn(name),
            Item::Sample { .. } => n,
        };
        lemma_rising_declares_once(front, m);
        assert forall|i: int, j: int|
            0 <= i < j < items.len() && (#[trigger] items[i]) is Family && (#[trigger] items[j]) is Family
            implies items[i]->Family_name != items[j]->Family_name by {
            assert(front[i] == items[i]);
            if j < front.len() {
                assert(front[j] == items[j]);
            } else {
                lemma_rising_bounds(front, m, i);
            }
        }
    }
}

pub proof fn lemma_source_turns()
    ensures
        turn("build_info"@) == 0,
        turn("snapshot_info"@) == 1,
        turn("snapshot_slot"@) == 2,
        turn("blp_total"@) == 3,
        turn("snapshot_stake_ratio"@) == 4,
        turn("relays_total"@) == 5,
        turn("relays_srv"@) == 6,
        is_whole("build_info"@),
        is_whole("snapshot_info"@),
        is_whole("snapshot_slot"@),
        is_whole("blp_total"@),
        is_whole("snapshot_stake_ratio"@),
        is_whole("relays_total"@),
        is_whole("relays_srv"@),
{
    reveal_strlit("build_info");
    reveal_strlit("snapshot_info");
    reveal_strlit("snapshot_slot");
    reveal_strlit("blp_total");
    reveal_strlit("snapshot_stake_ratio");
    reveal_strlit("relays_total");
    reveal_strlit("relays_srv");
}

pub proof fn lemma_endpoint_turns()
    ensures
        turn("srv_targets"@) == 7,
        turn("srv_targets_reachable"@) == 8,
        turn("srv_reach_probability"@) == 9,
        turn("srv_endpoints_total"@) == 10,
        turn("srv_endpoints_reachable"@) == 11,
        turn("endpoints_total"@) == 12,
        turn("endpoints_probed"@) == 13,
        is_whole("srv_targets"@),
        is_whole("srv_targets_reachable"@),
        is_whole("srv_reach_probability"@),
        is_whole("srv_endpoints_total"@),
        is_whole("srv_endpoints_reachable"@),
        is_whole("endpoints_total"@),
        is_whole("endpoints_probed"@),
{
    reveal_strlit("srv_targets");
    reveal_strlit("srv_targets_reachable");
    reveal_strlit("srv_reach_probability");
    reveal_strlit("srv_endpoints_total");
    reveal_strlit("srv_endpoints_reachable");
    reveal_strlit("endpoints_total");
    reveal_strlit("endpoints_probed");
}

pub proof fn lemma_relay_turns()
    ensures
        turn("relays_reachable"@) == 14,
        turn("relays_n2n_version"@) == 15,
        turn("stake_n2n_version"@) == 16,
        turn("relays_failed"@) == 17,
        is_whole("relays_reachable"@),
        is_whole("relays_n2n_version"@),
        is_whole("stake_n2n_version"@),
        is_whole("relays_failed"@),
{
    reveal_strlit("relays_reachable");
    reveal_strlit("relays_n2n_version");
    reveal_strlit("stake_n2n_version");
    reveal_strlit("relays_failed");
}

pub proof fn lemma_pool_turns()
    ensures
        turn("blp"@) == 18,
        turn("blp_stake_ratio"@) == 19,
        turn("reachable_stake_ratio"@) == 20,
        is_whole("blp"@),
        is_whole("blp_stake_ratio"@),
        is_whole("reachable_stake_ratio"@),
{
    reveal_strlit("blp");
    reveal_strlit("blp_stake_ratio");
    reveal_strlit("reachable_stake_ratio");
}

pub proof fn lemma_reversal_turns()
    ensures
        turn("relays_ipv4_literal"@) == 21,
        turn("relays_ipv4_literal_reachable"@) == 22,
        turn("pools_ipv4_reversed_only"@) == 23,
        turn("stake_ipv4_reversed_only_ratio"@) == 24,
        turn("reachable_stake_ratio_with_reversed"@) == 25,
        turn("relay_weighted_stake_ratio"@) == 26,
        is_whole("relays_ipv4_literal"@),
        is_whole("relays_ipv4_literal_reachable"@),
        is_whole("pools_ipv4_reversed_only"@),
        is_whole("stake_ipv4_reversed_only_ratio"@),
        is_whole("reachable_stake_ratio_with_reversed"@),
        is_whole("relay_weighted_stake_ratio"@),
{
    reveal_strlit("relays_ipv4_literal");
    reveal_strlit("relays_ipv4_literal_reachable");
    reveal_strlit("pools_ipv4_reversed_only");
    reveal_strlit("stake_ipv4_reversed_only_ratio");
    reveal_strlit("reachable_stake_ratio_with_reversed");
    reveal_strlit("relay_weighted_stake_ratio");
}

pub proof fn lemma_time_turns()
    ensures
        turn("relays_reachable_within"@) == 27,
        turn("stake_reachable_within"@) == 28,
        turn("blp_relay_reachability"@) == 29,
        turn("probe_rtt_seconds"@) == 30,
        is_whole("relays_reachable_within"@),
        is_whole("stake_reachable_within"@),
        is_whole("blp_relay_reachability"@),
        is_whole("probe_rtt_seconds"@),
{
    reveal_strlit("relays_reachable_within");
    reveal_strlit("stake_reachable_within");
    reveal_strlit("blp_relay_reachability");
    reveal_strlit("probe_rtt_seconds");
}

pub proof fn lemma_tip_turns()
    ensures
        turn("tip_block_max"@) == 31,
        turn("tip_slot_max"@) == 32,
        turn("tips_at_max_block"@) == 33,
        turn("chains"@) == 34,
        turn("fork_tolerance_blocks"@) == 35,
        turn("chain_relays"@) == 36,
        turn("chain_stake_ratio"@) == 37,
        turn("relays_within_blocks_of_tip"@) == 38,
        turn("stake_within_blocks_of_tip"@) == 39,
        is_whole("tip_block_max"@),
        is_whole("tip_slot_max"@),
        is_whole("tips_at_max_block"@),
        is_whole("chains"@),
        is_whole("fork_tolerance_blocks"@),
        is_whole("chain_relays"@),
        is_whole("chain_stake_ratio"@),
        is_whole("relays_within_blocks_of_tip"@),
        is_whole("stake_within_blocks_of_tip"@),
{
    reveal_strlit("tip_block_max");
    reveal_strlit("tip_slot_max");
    reveal_strlit("tips_at_max_block");
    reveal_strlit("chains");
    reveal_strlit("fork_tolerance_blocks");
    reveal_strlit("chain_relays");
    reveal_strlit("chain_stake_ratio");
    reveal_strlit("relays_within_blocks_of_tip");
    reveal_strlit("stake_within_blocks_of_tip");
}

pub proof fn lemma_operator_turns()
    ensures
        turn("pools_indexed"@) == 40,
        turn("pool_stake_ratio"@) == 41,
        turn("asn_db_ranges"@) == 42,
        turn("asn_min_relays"@) == 43,
        turn("asn_relays"@) == 44,
        turn("asn_relays_reachable"@) == 45,
        turn("asn_stake_ratio"@) == 46,
        turn("asn_stake_reachable_ratio"@) == 47,
        is_whole("pools_indexed"@),
        is_whole("pool_stake_ratio"@),
        is_whole("asn_db_ranges"@),
        is_whole("asn_min_relays"@),
        is_whole("asn_relays"@),
        is_whole("asn_relays_reachable"@),
        is_whole("asn_stake_ratio"@),
        is_whole("asn_stake_reachable_ratio"@),
{
    reveal_strlit("pools_indexed");
    reveal_strlit("pool_stake_ratio");
    reveal_strlit("asn_db_ranges");
    reveal_strlit("asn_min_relays");
    reveal_strlit("asn_relays");
    reveal_strlit("asn_relays_reachable");
    reveal_strlit("asn_stake_ratio");
    reveal_strlit("asn_stake_reachable_ratio");
}

pub proof fn lemma_closing_turns()
    ensures
        turn("scan_duration_seconds"@) == 48,
        turn("last_run_timestamp_seconds"@) == 49,
        turn("success"@) == 50,
        is_whole("scan_duration_seconds"@),
        is_whole("last_run_timestamp_seconds"@),
        is_whole("success"@),
{
    reveal_strlit("scan_duration_seconds");
    reveal_strlit("last_run_timestamp_seconds");
    reveal_strlit("success");
}

proof fn lemma_source_rising(
    items: Seq<Item>,
    c: Census,
    t: Amounts<String>,
    rev: Seq<char>,
)
    requires
        rising(items, 0),
    ensures
        rising(source_items(items, c, t, rev), 7),
{
    broadcast use group_turns;

    lemma_source_turns();
    assert(is_block(build_info(rev)) && is_block(snapshot_info(c)));
    assert(rising(items + build_info(rev), 1));
}

proof fn lemma_endpoint_rising(items: Seq<Item>, c: Census, t: Amounts<String>)
    requires
        rising(items, 7),
    ensures
        rising(endpoint_items(items, c, t), 14),
{
    broadcast use group_turns;

    lemma_endpoint_turns();
    assert(rising(items + srv_items(c, t), 10)) by {
        if c.srv_sets.len() == 0 {
            lemma_rising_later(items, 7, 10);
            assert(items + srv_items(c, t) =~= items);
        } else {
            let names = srv_names(c);
            let a = gauges(
                "srv_targets"@,
                "Top-priority targets behind each SRV relay name"@,
                "name"@,
                names,
                target_counts(c),
            );
            let b = gauges(
                "srv_targets_reachable"@,
                "Targets behind each SRV relay name that returned a tip"@,
                "name"@,
                names,
                answer_counts(c),
            );
            let d = gauges(
                "srv_reach_probability"@,
                "Chance a node drawing a target of this SRV name by weight reaches one that answered"@,
                "name"@,
                names,
                t.srv_probability.deep_view(),
            );
            assert(rising(items + a + b + d, 10));
            assert(items + srv_items(c, t) =~= items + a + b + d);
        }
    }
}

proof fn lemma_relay_rising(items: Seq<Item>, c: Census, t: Amounts<String>)
    requires
        rising(items, 14),
    ensures
        rising(relay_items(items, c, t), 18),
{
    broadcast use group_turns;

    lemma_relay_turns();
    let family = gauges(
        "relays_reachable"@,
        "Relay entries that returned a tip, by address family that answered"@,
        "family"@,
        seq!["v4"@, "v6"@],
        seq![
            crate::text::decimal(c.relays_reachable_v4 as nat),
            crate::text::decimal(c.relays_reachable_v6 as nat),
        ],
    );
    let front = items + family;
    assert(rising(front, 15));
    assert(rising(front + version_items(c, t), 17)) by {
        if c.n2n_versions.len() == 0 {
            lemma_rising_later(front, 15, 17);
            assert(front + version_items(c, t) =~= front);
        } else {
            let a = gauges(
                "relays_n2n_version"@,
                "Answering relay entries by the node-to-node protocol version they negotiated"@,
                "version"@,
                versions(c),
                version_counts(c),
            );
            let b = gauges(
                "stake_n2n_version"@,
                "Stake behind answering relays by negotiated node-to-node version, each pool split over its relays"@,
                "version"@,
                versions(c),
                t.version_stake.deep_view(),
            );
            assert(rising(front + a + b, 17));
            assert(front + version_items(c, t) =~= front + a + b);
        }
    }
}

proof fn lemma_pool_rising(items: Seq<Item>, c: Census, t: Amounts<String>)
    requires
        rising(items, 18),
    ensures
        rising(pool_items(items, c, t), 21),
{
    broadcast use group_turns;

    lemma_pool_turns();
}

proof fn lemma_reversal_rising(items: Seq<Item>, c: Census, t: Amounts<String>)
    requires
        rising(items, 21),
    ensures
        rising(reversal_items(items, c, t), 27),
{
    broadcast use group_turns;

    lemma_reversal_turns();
}

proof fn lemma_time_rising(items: Seq<Item>, c: Census, t: Amounts<String>)
    requires
        rising(items, 27),
    ensures
        rising(time_items(items, c, t), 31),
{
    broadcast use group_turns;

    lemma_time_turns();
}

proof fn lemma_tip_rising(items: Seq<Item>, c: Census, t: Amounts<String>)
    requires
        rising(items, 31),
    ensures
        rising(tip_items(items, c, t), 40),
{
    broadcast use group_turns;

    lemma_tip_turns();
}

proof fn lemma_operator_rising(items: Seq<Item>, c: Census, t: Amounts<String>)
    requires
        rising(items, 40),
    ensures
        rising(operator_items(items, c, t), 48),
{
    broadcast use group_turns;

    lemma_operator_turns();
    let named = items + gauge(
        "pools_indexed"@,
        "Pools the pool index named, 0 when no index was given"@,
        crate::text::decimal(c.pools_indexed as nat),
    );
    assert(rising(named, 41));
    assert(rising(named + outreach_items(c, t), 42)) by {
        if c.top_pools.len() == 0 {
            lemma_rising_later(named, 41, 42);
            assert(named + outreach_items(c, t) =~= named);
        } else {
            assert(is_block(outreach_items(c, t)));
        }
    }
    let ranges = named + outreach_items(c, t) + gauge(
        "asn_db_ranges"@,
        "Ranges in the loaded ip2asn database, 0 when relays could not be placed in networks"@,
        crate::text::decimal(c.asn_db_ranges as nat),
    );
    assert(rising(ranges, 43));
    assert(rising(ranges + network_items(c, t), 48)) by {
        if c.asn_db_ranges == 0 {
            lemma_rising_later(ranges, 43, 48);
            assert(ranges + network_items(c, t) =~= ranges);
        } else {
            let groups = c.asn_metrics@;
            let a = gauge(
                "asn_min_relays"@,
                "Autonomous systems hosting fewer relays than this are folded into other"@,
                crate::text::decimal(c.asn_min_relays as nat),
            );
            let b = network_family(
                "asn_relays"@,
                "Relay entries hosted in each autonomous system"@,
                groups,
                hosted_counts(groups),
            );
            let d = network_family(
                "asn_relays_reachable"@,
                "Relay entries in each autonomous system that returned a tip"@,
                groups,
                live_counts(groups),
            );
            let e = network_family(
                "asn_stake_ratio"@,
                "Stake hosted in each autonomous system, each pool split over its relays"@,
                groups,
                t.asn_stake.deep_view(),
            );
            let f = network_family(
                "asn_stake_reachable_ratio"@,
                "Stake in each autonomous system whose relays returned a tip"@,
                groups,
                t.asn_stake_reachable.deep_view(),
            );
            assert(rising(ranges + a + b + d + e + f, 48));
            assert(ranges + network_items(c, t) =~= ranges + a + b + d + e + f);
        }
    }
}

proof fn lemma_closing_rising(items: Seq<Item>, c: Census, t: Amounts<String>)
    requires
        rising(items, 48),
    ensures
        rising(closing_items(items, c, t), 51),
{
    broadcast use group_turns;

    lemma_closing_turns();
}

/// No family is declared twice.
pub proof fn no_family_is_declared_twice(c: Census, t: Amounts<String>, rev: Seq<char>)
    ensures
        declared_once(all_items(c, t, rev)),
{
    lemma_source_rising(Seq::empty(), c, t, rev);
    let source = source_items(Seq::empty(), c, t, rev);
    lemma_endpoint_rising(source, c, t);
    let endpoint = endpoint_items(source, c, t);
    lemma_relay_rising(endpoint, c, t);
    let relay = relay_items(endpoint, c, t);
    lemma_pool_rising(relay, c, t);
    let pool = pool_items(relay, c, t);
    lemma_reversal_rising(pool, c, t);
    let reversal = reversal_items(pool, c, t);
    lemma_time_rising(reversal, c, t);
    let time = time_items(reversal, c, t);
    lemma_tip_rising(time, c, t);
    let tip = tip_items(time, c, t);
    lemma_operator_rising(tip, c, t);
    let operator = operator_items(tip, c, t);
    lemma_closing_rising(operator, c, t);
    lemma_rising_declares_once(all_items(c, t, rev), 51);
}

/// Nor is one when the run could not complete.
pub proof fn no_family_is_declared_twice_on_failure(timestamp_seconds: u64, rev: Seq<char>)
    ensures
        declared_once(failure_items(timestamp_seconds, rev)),
        grouped(failure_items(timestamp_seconds, rev)),
{
    broadcast use {group_turns, lemma_add_block};

    lemma_source_turns();
    lemma_closing_turns();
    let start = Seq::<Item>::empty();
    assert(is_block(build_info(rev)));
    assert(rising(start + build_info(rev), 49));
    assert(grouped(start + build_info(rev)));
    assert(start + build_info(rev) =~= build_info(rev));
    lemma_rising_declares_once(failure_items(timestamp_seconds, rev), 51);
}

} // verus!
