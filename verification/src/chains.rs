//! Which chain the relays' tips are on.

use vstd::prelude::*;

use crate::probe::{outcome, outcomes_of, Outcome, OutcomeView, TipView};
use crate::sort::{sort, Ranked};
use crate::stake::{copy_sum, Share};
use crate::table::distinct;

verus! {

/// Tips grouped by hash, with groups whose blocks lie within the fork
/// tolerance of each other merged. The group holding the most stake is main.
#[derive(Clone, Debug)]
pub struct ChainGroup {
    pub main: bool,
    pub block_max: u64,
    pub block_min: u64,
    /// Hash of the highest tip in the group.
    pub hash: String,
    pub relays: u64,
    pub stake: Vec<Share>,
}

pub struct ChainGroupView {
    pub main: bool,
    pub block_max: u64,
    pub block_min: u64,
    pub hash: Seq<char>,
    pub relays: nat,
    pub stake: Seq<Share>,
}

impl DeepView for ChainGroup {
    type V = ChainGroupView;

    open spec fn deep_view(&self) -> ChainGroupView {
        ChainGroupView {
            main: self.main,
            block_max: self.block_max,
            block_min: self.block_min,
            hash: self.hash@,
            relays: self.relays as nat,
            stake: self.stake@,
        }
    }
}

/// Where one relay entry's tip sits relative to the highest tip seen.
#[derive(Clone, Copy, Debug, PartialEq, Eq, Structural)]
pub struct EntryTip {
    pub lag_blocks: u64,
    pub main: bool,
}

impl DeepView for EntryTip {
    type V = EntryTip;

    open spec fn deep_view(&self) -> EntryTip {
        *self
    }
}

// Tips and their hashes.

/// The tip of each entry that returned one.
pub open spec fn tips_of(best: Seq<Option<OutcomeView>>) -> Seq<Option<TipView>> {
    Seq::new(
        best.len(),
        |i: int|
            match best[i] {
                Some(Ok(r)) => Some(r.tip),
                _ => None,
            },
    )
}

/// The hashes that were reported, in the order of the entries.
pub open spec fn reported(tips: Seq<Option<TipView>>) -> Seq<Seq<char>>
    decreases tips.len(),
{
    if tips.len() == 0 {
        Seq::empty()
    } else {
        match tips.last() {
            Some(t) => reported(tips.drop_last()).push(t.hash),
            None => reported(tips.drop_last()),
        }
    }
}

/// The distinct hashes, in ascending order.
pub open spec fn hashes_of(tips: Seq<Option<TipView>>) -> Seq<Seq<char>> {
    crate::table::distinct_names(reported(tips))
}

/// Which entries report the hash `k`.
pub open spec fn reports(tips: Seq<Option<TipView>>, k: Seq<char>) -> spec_fn(int) -> bool {
    |i: int| tips[i] matches Some(t) && t.hash == k
}

/// The entries that report the hash `k`.
pub open spec fn reporters(tips: Seq<Option<TipView>>, k: Seq<char>) -> Seq<int> {
    crate::count::select(tips.len() as int, reports(tips, k))
}

/// The highest block among the tips of the entries `at`.
pub open spec fn highest(tips: Seq<Option<TipView>>, at: Seq<int>) -> u64
    decreases at.len(),
{
    if at.len() == 0 {
        0
    } else {
        let front = highest(tips, at.drop_last());
        let b = tips[at.last()]->0.block;
        if b > front {
            b
        } else {
            front
        }
    }
}

/// The block of each hash.
pub open spec fn blocks_of(tips: Seq<Option<TipView>>) -> Seq<u64> {
    let hashes = hashes_of(tips);
    Seq::new(hashes.len(), |h: int| highest(tips, reporters(tips, hashes[h])))
}

// Merging.

/// Are two blocks at most `tolerance` apart?
pub open spec fn close(a: u64, b: u64, tolerance: u64) -> bool {
    a - b <= tolerance && b - a <= tolerance
}

/// The groups `roots` with those of `a` and `b` made one, under the root of `a`.
pub open spec fn merged(roots: Seq<int>, a: int, b: int) -> Seq<int> {
    Seq::new(
        roots.len(),
        |i: int|
            if roots[i] == roots[b] {
                roots[a]
            } else {
                roots[i]
            },
    )
}

/// The groups `roots` after comparing hash `a` with the hashes behind it, up
/// to `b`.
pub open spec fn row_merged(blocks: Seq<u64>, tolerance: u64, roots: Seq<int>, a: int, b: int) -> Seq<
    int,
>
    decreases b - a,
{
    if b <= a + 1 {
        roots
    } else {
        let front = row_merged(blocks, tolerance, roots, a, b - 1);
        if close(blocks[a], blocks[b - 1], tolerance) {
            merged(front, a, b - 1)
        } else {
            front
        }
    }
}

/// The groups after comparing each of the first `a` hashes with all behind it.
pub open spec fn rows_merged(blocks: Seq<u64>, tolerance: u64, a: int) -> Seq<int>
    decreases a,
{
    if a <= 0 {
        Seq::new(blocks.len(), |i: int| i)
    } else {
        row_merged(
            blocks,
            tolerance,
            rows_merged(blocks, tolerance, a - 1),
            a - 1,
            blocks.len() as int,
        )
    }
}

/// For each hash, the root of its group. Hashes whose blocks are close are in
/// one group, and so are those that such hashes connect.
pub open spec fn roots_of(blocks: Seq<u64>, tolerance: u64) -> Seq<int> {
    rows_merged(blocks, tolerance, blocks.len() as int)
}

/// Is `path` a way from `i` to `j` in close steps?
pub open spec fn leads(blocks: Seq<u64>, tolerance: u64, path: Seq<int>, i: int, j: int) -> bool {
    &&& path.len() > 0
    &&& path[0] == i
    &&& path.last() == j
    &&& forall|k: int| 0 <= k < path.len() ==> 0 <= #[trigger] path[k] < blocks.len()
    &&& forall|k: int|
        0 <= k < path.len() - 1 ==> close(
            blocks[#[trigger] path[k]],
            blocks[path[k + 1]],
            tolerance,
        )
}

/// Can one get from the block of `i` to that of `j` in close steps?
pub open spec fn connected(blocks: Seq<u64>, tolerance: u64, i: int, j: int) -> bool {
    exists|path: Seq<int>| leads(blocks, tolerance, path, i, j)
}

/// Do the roots name places, and themselves?
pub open spec fn are_roots(roots: Seq<int>) -> bool {
    forall|i: int|
        0 <= i < roots.len() ==> 0 <= #[trigger] roots[i] < roots.len() && roots[roots[i]]
            == roots[i]
}

proof fn lemma_merged_roots(roots: Seq<int>, a: int, b: int)
    requires
        are_roots(roots),
        0 <= a < roots.len(),
        0 <= b < roots.len(),
    ensures
        are_roots(merged(roots, a, b)),
        merged(roots, a, b).len() == roots.len(),
{
    let m = merged(roots, a, b);
    assert forall|i: int| 0 <= i < m.len() implies 0 <= #[trigger] m[i] < m.len() && m[m[i]]
        == m[i] by {
        assert(roots[roots[i]] == roots[i]);
        assert(roots[roots[a]] == roots[a]);
    }
}

proof fn lemma_row_roots(blocks: Seq<u64>, tolerance: u64, roots: Seq<int>, a: int, b: int)
    requires
        are_roots(roots),
        roots.len() == blocks.len(),
        0 <= a < blocks.len(),
        b <= blocks.len(),
    ensures
        are_roots(row_merged(blocks, tolerance, roots, a, b)),
        row_merged(blocks, tolerance, roots, a, b).len() == blocks.len(),
    decreases b - a,
{
    if b > a + 1 {
        lemma_row_roots(blocks, tolerance, roots, a, b - 1);
        lemma_merged_roots(row_merged(blocks, tolerance, roots, a, b - 1), a, b - 1);
    }
}

proof fn lemma_rows_roots(blocks: Seq<u64>, tolerance: u64, a: int)
    requires
        a <= blocks.len(),
    ensures
        are_roots(rows_merged(blocks, tolerance, a)),
        rows_merged(blocks, tolerance, a).len() == blocks.len(),
    decreases a,
{
    if a > 0 {
        lemma_rows_roots(blocks, tolerance, a - 1);
        lemma_row_roots(
            blocks,
            tolerance,
            rows_merged(blocks, tolerance, a - 1),
            a - 1,
            blocks.len() as int,
        );
    }
}

/// Every hash has a root, and a root is its own.
pub proof fn roots_are_their_own(blocks: Seq<u64>, tolerance: u64)
    ensures
        are_roots(roots_of(blocks, tolerance)),
        roots_of(blocks, tolerance).len() == blocks.len(),
{
    lemma_rows_roots(blocks, tolerance, blocks.len() as int);
}

/// The connected hashes are those of one group.
pub open spec fn sound(blocks: Seq<u64>, tolerance: u64, roots: Seq<int>) -> bool {
    forall|i: int|
        0 <= i < roots.len() ==> connected(blocks, tolerance, i, #[trigger] roots[i])
}

proof fn lemma_connected_trans(blocks: Seq<u64>, tolerance: u64, i: int, j: int, k: int)
    requires
        connected(blocks, tolerance, i, j),
        connected(blocks, tolerance, j, k),
    ensures
        connected(blocks, tolerance, i, k),
{
    let p = choose|p: Seq<int>| leads(blocks, tolerance, p, i, j);
    let q = choose|q: Seq<int>| leads(blocks, tolerance, q, j, k);
    let r = p + q.drop_first();
    assert(r[0] == i);
    assert(r.last() == k) by {
        if q.len() == 1 {
            assert(r.last() == p.last());
        }
    }
    assert forall|m: int| 0 <= m < r.len() implies 0 <= #[trigger] r[m] < blocks.len() by {
        if m < p.len() {
            assert(r[m] == p[m]);
        } else {
            assert(r[m] == q[m - p.len() + 1]);
        }
    }
    assert forall|m: int| 0 <= m < r.len() - 1 implies close(
        blocks[#[trigger] r[m]],
        blocks[r[m + 1]],
        tolerance,
    ) by {
        if m + 1 < p.len() {
            assert(r[m] == p[m] && r[m + 1] == p[m + 1]);
        } else if m < p.len() {
            assert(r[m] == p[m] && p[m] == q[0] && r[m + 1] == q[0int + 1]);
            assert(close(blocks[q[0]], blocks[q[0int + 1]], tolerance));
        } else {
            let d = m - p.len() + 1;
            assert(r[m] == q[d] && r[m + 1] == q[d + 1]);
        }
    }
    assert(leads(blocks, tolerance, r, i, k));
}

proof fn lemma_connected_sym(blocks: Seq<u64>, tolerance: u64, i: int, j: int)
    requires
        connected(blocks, tolerance, i, j),
    ensures
        connected(blocks, tolerance, j, i),
{
    let p = choose|p: Seq<int>| leads(blocks, tolerance, p, i, j);
    let r = p.reverse();
    assert forall|m: int| 0 <= m < r.len() - 1 implies close(
        blocks[#[trigger] r[m]],
        blocks[r[m + 1]],
        tolerance,
    ) by {
        let d = p.len() - 2 - m;
        assert(r[m] == p[d + 1] && r[m + 1] == p[d]);
        assert(close(blocks[p[d]], blocks[p[d + 1]], tolerance));
    }
    assert forall|m: int| 0 <= m < r.len() implies 0 <= #[trigger] r[m] < blocks.len() by {
        assert(r[m] == p[p.len() - 1 - m]);
    }
    assert(leads(blocks, tolerance, r, j, i));
}

proof fn lemma_merged_sound(blocks: Seq<u64>, tolerance: u64, roots: Seq<int>, a: int, b: int)
    requires
        sound(blocks, tolerance, roots),
        roots.len() == blocks.len(),
        0 <= a < roots.len(),
        0 <= b < roots.len(),
        close(blocks[a], blocks[b], tolerance),
    ensures
        sound(blocks, tolerance, merged(roots, a, b)),
{
    let m = merged(roots, a, b);
    assert(leads(blocks, tolerance, seq![b, a], b, a));
    assert forall|i: int| 0 <= i < m.len() implies connected(
        blocks,
        tolerance,
        i,
        #[trigger] m[i],
    ) by {
        assert(connected(blocks, tolerance, i, roots[i]));
        if roots[i] == roots[b] {
            assert(connected(blocks, tolerance, b, roots[b]));
            assert(connected(blocks, tolerance, a, roots[a]));
            lemma_connected_sym(blocks, tolerance, b, roots[b]);
            lemma_connected_trans(blocks, tolerance, i, roots[b], b);
            lemma_connected_trans(blocks, tolerance, i, b, a);
            lemma_connected_trans(blocks, tolerance, i, a, roots[a]);
        }
    }
}

proof fn lemma_row_sound(blocks: Seq<u64>, tolerance: u64, roots: Seq<int>, a: int, b: int)
    requires
        sound(blocks, tolerance, roots),
        are_roots(roots),
        roots.len() == blocks.len(),
        0 <= a < blocks.len(),
        b <= blocks.len(),
    ensures
        sound(blocks, tolerance, row_merged(blocks, tolerance, roots, a, b)),
        forall|c: int|
            a < c < b && close(blocks[a], #[trigger] blocks[c], tolerance) ==> row_merged(
                blocks,
                tolerance,
                roots,
                a,
                b,
            )[a] == row_merged(blocks, tolerance, roots, a, b)[c],
        forall|i: int, j: int|
            0 <= i < roots.len() && 0 <= j < roots.len() && roots[i] == roots[j]
                ==> #[trigger] row_merged(blocks, tolerance, roots, a, b)[i]
                == #[trigger] row_merged(blocks, tolerance, roots, a, b)[j],
    decreases b - a,
{
    if b > a + 1 {
        lemma_row_sound(blocks, tolerance, roots, a, b - 1);
        lemma_row_roots(blocks, tolerance, roots, a, b - 1);
        let front = row_merged(blocks, tolerance, roots, a, b - 1);
        if close(blocks[a], blocks[b - 1], tolerance) {
            lemma_merged_sound(blocks, tolerance, front, a, b - 1);
            let m = merged(front, a, b - 1);
            assert forall|c: int|
                a < c < b && close(blocks[a], #[trigger] blocks[c], tolerance) implies m[a]
                == m[c] by {
                if c < b - 1 {
                    assert(front[a] == front[c]);
                }
            }
        }
    }
}

proof fn lemma_rows_sound(blocks: Seq<u64>, tolerance: u64, a: int)
    requires
        a <= blocks.len(),
    ensures
        sound(blocks, tolerance, rows_merged(blocks, tolerance, a)),
        forall|x: int, y: int|
            0 <= x < a && x < y < blocks.len() && close(
                #[trigger] blocks[x],
                #[trigger] blocks[y],
                tolerance,
            ) ==> rows_merged(blocks, tolerance, a)[x] == rows_merged(blocks, tolerance, a)[y],
    decreases a,
{
    let now = rows_merged(blocks, tolerance, a);
    if a > 0 {
        let n = blocks.len() as int;
        let front = rows_merged(blocks, tolerance, a - 1);
        lemma_rows_sound(blocks, tolerance, a - 1);
        lemma_rows_roots(blocks, tolerance, a - 1);
        lemma_row_sound(blocks, tolerance, front, a - 1, n);
        assert forall|x: int, y: int|
            0 <= x < a && x < y < blocks.len() && close(
                #[trigger] blocks[x],
                #[trigger] blocks[y],
                tolerance,
            ) implies now[x] == now[y] by {
            if x < a - 1 {
                assert(front[x] == front[y]);
            }
        }
    } else {
        assert forall|i: int| 0 <= i < now.len() implies connected(
            blocks,
            tolerance,
            i,
            #[trigger] now[i],
        ) by {
            assert(leads(blocks, tolerance, seq![i], i, i));
        }
    }
}

/// Two hashes are in one group exactly when one can get from the block of the
/// one to that of the other in steps of at most the tolerance.
pub proof fn groups_are_what_is_connected(blocks: Seq<u64>, tolerance: u64, i: int, j: int)
    requires
        0 <= i < blocks.len(),
        0 <= j < blocks.len(),
    ensures
        roots_of(blocks, tolerance)[i] == roots_of(blocks, tolerance)[j] <==> connected(
            blocks,
            tolerance,
            i,
            j,
        ),
{
    let n = blocks.len() as int;
    let roots = roots_of(blocks, tolerance);
    lemma_rows_sound(blocks, tolerance, n);
    lemma_rows_roots(blocks, tolerance, n);
    if roots[i] == roots[j] {
        assert(connected(blocks, tolerance, i, roots[i]));
        assert(connected(blocks, tolerance, j, roots[j]));
        lemma_connected_sym(blocks, tolerance, j, roots[j]);
        lemma_connected_trans(blocks, tolerance, i, roots[i], j);
    }
    if connected(blocks, tolerance, i, j) {
        let p = choose|p: Seq<int>| leads(blocks, tolerance, p, i, j);
        lemma_path_in_group(blocks, tolerance, p, i, j, p.len() - 1);
    }
}

proof fn lemma_path_in_group(
    blocks: Seq<u64>,
    tolerance: u64,
    path: Seq<int>,
    i: int,
    j: int,
    k: int,
)
    requires
        leads(blocks, tolerance, path, i, j),
        0 <= k < path.len(),
    ensures
        roots_of(blocks, tolerance)[i] == roots_of(blocks, tolerance)[path[k]],
    decreases k,
{
    if k > 0 {
        lemma_path_in_group(blocks, tolerance, path, i, j, k - 1);
        lemma_rows_sound(blocks, tolerance, blocks.len() as int);
        let a = path[k - 1];
        let b = path[k];
        assert(close(blocks[path[k - 1]], blocks[path[k - 1 + 1]], tolerance));
        if a < b {
            assert(close(blocks[a], blocks[b], tolerance));
        } else if b < a {
            assert(close(blocks[b], blocks[a], tolerance));
        }
    }
}

// Groups.

/// Which hashes are roots.
pub open spec fn is_root(roots: Seq<int>) -> spec_fn(int) -> bool {
    |h: int| roots[h] == h
}

/// Which hashes have the root `r`.
pub open spec fn has_root(roots: Seq<int>, r: int) -> spec_fn(int) -> bool {
    |h: int| roots[h] == r
}

/// The roots, in ascending order.
pub open spec fn group_roots(roots: Seq<int>) -> Seq<int> {
    crate::count::select(roots.len() as int, is_root(roots))
}

/// The hashes with the root `r`.
pub open spec fn group_hashes(roots: Seq<int>, r: int) -> Seq<int> {
    crate::count::select(roots.len() as int, has_root(roots, r))
}

/// The first of the hashes `hs` with the highest block.
pub open spec fn top_hash(blocks: Seq<u64>, hs: Seq<int>) -> int
    decreases hs.len(),
{
    if hs.len() <= 1 {
        hs[0]
    } else {
        let front = top_hash(blocks, hs.drop_last());
        if blocks[hs.last()] > blocks[front] {
            hs.last()
        } else {
            front
        }
    }
}

/// The lowest block of the hashes `hs`.
pub open spec fn lowest(blocks: Seq<u64>, hs: Seq<int>) -> u64
    decreases hs.len(),
{
    if hs.len() <= 1 {
        blocks[hs[0]]
    } else {
        let front = lowest(blocks, hs.drop_last());
        if blocks[hs.last()] < front {
            blocks[hs.last()]
        } else {
            front
        }
    }
}

/// The entries that report one of the hashes `hs`, hash by hash.
pub open spec fn group_entries(tips: Seq<Option<TipView>>, hs: Seq<int>) -> Seq<int>
    decreases hs.len(),
{
    if hs.len() == 0 {
        Seq::empty()
    } else {
        group_entries(tips, hs.drop_last()) + reporters(tips, hashes_of(tips)[hs.last()])
    }
}

/// The group of the hashes `hs`. `shares` is the stake behind each entry.
pub open spec fn group_of(
    tips: Seq<Option<TipView>>,
    shares: Seq<Share>,
    hs: Seq<int>,
) -> ChainGroupView {
    let blocks = blocks_of(tips);
    let top = top_hash(blocks, hs);
    let at = group_entries(tips, hs);
    ChainGroupView {
        main: false,
        block_max: blocks[top],
        block_min: lowest(blocks, hs),
        hash: hashes_of(tips)[top],
        relays: at.len(),
        stake: crate::stake::terms(shares, at),
    }
}

/// The roots of the hashes of `tips`.
pub open spec fn tip_roots(tips: Seq<Option<TipView>>, tolerance: u64) -> Seq<int> {
    roots_of(blocks_of(tips), tolerance)
}

/// All groups, by root; which one is main is still open.
pub open spec fn groups_of(
    tips: Seq<Option<TipView>>,
    shares: Seq<Share>,
    tolerance: u64,
) -> Seq<ChainGroupView> {
    let roots = tip_roots(tips, tolerance);
    let order = group_roots(roots);
    Seq::new(order.len(), |g: int| group_of(tips, shares, group_hashes(roots, order[g])))
}

/// The place of the hash `k` among the distinct hashes.
pub open spec fn hash_place(tips: Seq<Option<TipView>>, k: Seq<char>) -> int {
    choose|h: int| 0 <= h < hashes_of(tips).len() && hashes_of(tips)[h] == k
}

/// The root of the group that entry `e` is in.
pub open spec fn entry_root(tips: Seq<Option<TipView>>, tolerance: u64, e: int) -> Option<int> {
    match tips[e] {
        Some(t) => Some(tip_roots(tips, tolerance)[hash_place(tips, t.hash)]),
        None => None,
    }
}

/// The chain groups before it is known which one holds the most stake.
pub struct Chains {
    pub groups: Vec<ChainGroup>,
    /// The root of each group.
    pub roots: Vec<usize>,
    /// Per entry, the root of its group.
    pub entry_root: Vec<Option<usize>>,
}

/// Are these the groups of `tips`?
pub open spec fn are_chains(
    c: Chains,
    tips: Seq<Option<TipView>>,
    shares: Seq<Share>,
    tolerance: u64,
) -> bool {
    &&& c.groups.deep_view() == groups_of(tips, shares, tolerance)
    &&& crate::histogram::places(c.roots@) == group_roots(tip_roots(tips, tolerance))
    &&& c.entry_root.len() == tips.len()
    &&& forall|e: int|
        0 <= e < tips.len() ==> place_of(#[trigger] c.entry_root[e]) == entry_root(
            tips,
            tolerance,
            e,
        )
}

/// A place that may be absent, as a whole number.
pub open spec fn place_of(p: Option<usize>) -> Option<int> {
    match p {
        Some(i) => Some(i as int),
        None => None,
    }
}

/// The entries that report `hash`, and the highest block among their tips.
fn report(outcomes: &[Option<Outcome>], hash: &String) -> (r: (Vec<usize>, u64))
    ensures
        ({
            let tips = tips_of(outcomes_of(outcomes@));
            &&& crate::histogram::places(r.0@) == reporters(tips, hash@)
            &&& r.1 == highest(tips, reporters(tips, hash@))
        }),
        forall|j: int| 0 <= j < r.0.len() ==> (#[trigger] r.0[j]) < outcomes.len(),
{
    let ghost tips = tips_of(outcomes_of(outcomes@));
    let mut v: Vec<usize> = Vec::new();
    let mut block: u64 = 0;
    let mut i: usize = 0;
    assert(crate::histogram::places(v@) =~= Seq::<int>::empty());
    while i < outcomes.len()
        invariant
            i <= outcomes.len(),
            tips == tips_of(outcomes_of(outcomes@)),
            crate::histogram::places(v@) == crate::count::select(i as int, reports(tips, hash@)),
            block == highest(tips, crate::count::select(i as int, reports(tips, hash@))),
            forall|j: int| 0 <= j < v.len() ==> (#[trigger] v[j]) < outcomes.len(),
        decreases outcomes.len() - i,
    {
        assert(outcomes_of(outcomes@)[i as int] == match outcomes[i as int] {
            Some(o) => Some(outcome(o)),
            None => None,
        });
        if let Some(Ok(r)) = &outcomes[i] {
            assert(tips[i as int] == Some(r.tip.deep_view()));
            if r.tip.hash == *hash {
                let ghost front = crate::histogram::places(v@);
                v.push(i);
                assert(crate::histogram::places(v@) =~= front.push(i as int));
                assert(front.push(i as int).drop_last() =~= front);
                if r.tip.block > block {
                    block = r.tip.block;
                }
            }
        } else {
            assert(tips[i as int] is None);
        }
        i += 1;
    }
    (v, block)
}

/// The hashes that the outcomes report.
fn list_hashes(outcomes: &[Option<Outcome>]) -> (v: Vec<String>)
    ensures
        v.deep_view() == hashes_of(tips_of(outcomes_of(outcomes@))),
{
    let ghost tips = tips_of(outcomes_of(outcomes@));
    let mut v: Vec<String> = Vec::new();
    let mut i: usize = 0;
    assert(tips.take(0) =~= Seq::empty());
    assert(v.deep_view() =~= Seq::<Seq<char>>::empty());
    while i < outcomes.len()
        invariant
            i <= outcomes.len(),
            tips == tips_of(outcomes_of(outcomes@)),
            v.deep_view() == reported(tips.take(i as int)),
        decreases outcomes.len() - i,
    {
        assert(tips.take(i + 1).drop_last() =~= tips.take(i as int));
        assert(outcomes_of(outcomes@)[i as int] == match outcomes[i as int] {
            Some(o) => Some(outcome(o)),
            None => None,
        });
        if let Some(Ok(r)) = &outcomes[i] {
            assert(tips[i as int] == Some(r.tip.deep_view()));
            let ghost front = v.deep_view();
            v.push(r.tip.hash.clone());
            assert(v.deep_view() =~= front.push(r.tip.hash@));
        } else {
            assert(tips[i as int] is None);
        }
        i += 1;
    }
    assert(tips.take(i as int) =~= tips);
    distinct(v.as_slice())
}

fn is_close(a: u64, b: u64, tolerance: u64) -> (r: bool)
    ensures
        r == close(a, b, tolerance),
{
    if a >= b {
        a - b <= tolerance
    } else {
        b - a <= tolerance
    }
}

/// Merge the groups of `a` and `b`, under the root of `a`.
fn merge(roots: &mut Vec<usize>, a: usize, b: usize)
    requires
        a < old(roots).len(),
        b < old(roots).len(),
    ensures
        crate::histogram::places(final(roots)@) == merged(
            crate::histogram::places(old(roots)@),
            a as int,
            b as int,
        ),
{
    let ghost start = roots@;
    let ra: usize = roots[a];
    let rb: usize = roots[b];
    let mut i: usize = 0;
    while i < roots.len()
        invariant
            i <= roots.len(),
            roots.len() == start.len(),
            forall|j: int| i <= j < roots.len() ==> roots[j] == start[j],
            forall|j: int|
                0 <= j < i ==> roots[j] == if start[j] == rb {
                    ra
                } else {
                    start[j]
                },
        decreases roots.len() - i,
    {
        if roots[i] == rb {
            roots.set(i, ra);
        }
        i += 1;
    }
    assert(crate::histogram::places(roots@) =~= merged(
        crate::histogram::places(start),
        a as int,
        b as int,
    ));
}

/// For each block, the root of its group.
pub fn find_roots(blocks: &[u64], tolerance: u64) -> (roots: Vec<usize>)
    ensures
        crate::histogram::places(roots@) == roots_of(blocks@, tolerance),
{
    let n: usize = blocks.len();
    let mut roots: Vec<usize> = Vec::new();
    let mut i: usize = 0;
    while i < n
        invariant
            i <= n,
            roots.len() == i,
            forall|j: int| 0 <= j < i ==> roots[j] == j,
        decreases n - i,
    {
        roots.push(i);
        i += 1;
    }
    assert(crate::histogram::places(roots@) =~= rows_merged(blocks@, tolerance, 0));
    let mut a: usize = 0;
    while a < n
        invariant
            a <= n,
            n == blocks.len(),
            roots.len() == n,
            crate::histogram::places(roots@) == rows_merged(blocks@, tolerance, a as int),
        decreases n - a,
    {
        let ghost start = crate::histogram::places(roots@);
        let mut b: usize = a + 1;
        while b < n
            invariant
                a < b <= n,
                n == blocks.len(),
                roots.len() == n,
                crate::histogram::places(roots@) == row_merged(
                    blocks@,
                    tolerance,
                    start,
                    a as int,
                    b as int,
                ),
            decreases n - b,
        {
            if is_close(blocks[a], blocks[b], tolerance) {
                let ghost before = crate::histogram::places(roots@);
                merge(&mut roots, a, b);
                assert(merged(before, a as int, b as int).len() == before.len());
            }
            b += 1;
        }
        a += 1;
    }
    roots
}

/// The group of the hashes `hs`.
fn collect(
    hashes: &[String],
    blocks: &[u64],
    entries: &[Vec<usize>],
    shares: &[Share],
    hs: &[usize],
    Ghost(tips): Ghost<Seq<Option<TipView>>>,
) -> (g: ChainGroup)
    requires
        hs.len() > 0,
        hashes.deep_view() == hashes_of(tips),
        blocks@ == blocks_of(tips),
        entries.len() == hashes.len(),
        shares.len() == tips.len(),
        forall|i: int| 0 <= i < hs.len() ==> (#[trigger] hs[i]) < hashes.len(),
        forall|h: int|
            0 <= h < entries.len() ==> crate::histogram::places((#[trigger] entries[h])@)
                == reporters(tips, hashes_of(tips)[h]),
    ensures
        g.deep_view() == group_of(tips, shares@, crate::histogram::places(hs@)),
{
    let ghost all = crate::histogram::places(hs@);
    let ghost bs = blocks_of(tips);
    let mut top: usize = hs[0];
    let mut low: u64 = blocks[hs[0]];
    let mut stake: Vec<Share> = Vec::new();
    let mut i: usize = 0;
    assert(all.take(0) =~= Seq::<int>::empty());
    assert(stake@ =~= crate::stake::terms(shares@, group_entries(tips, all.take(0))));
    while i < hs.len()
        invariant
            i <= hs.len(),
            hs.len() > 0,
            all == crate::histogram::places(hs@),
            bs == blocks_of(tips),
            blocks@ == bs,
            hashes.deep_view() == hashes_of(tips),
            hashes.len() == blocks.len(),
            entries.len() == hashes.len(),
            shares.len() == tips.len(),
            forall|i: int| 0 <= i < hs.len() ==> (#[trigger] hs[i]) < hashes.len(),
            forall|h: int|
                0 <= h < entries.len() ==> crate::histogram::places((#[trigger] entries[h])@)
                    == reporters(tips, hashes_of(tips)[h]),
            top < hashes.len(),
            i == 0 ==> top == hs[0] && low == blocks[hs[0] as int],
            i > 0 ==> top == top_hash(bs, all.take(i as int)) && low == lowest(
                bs,
                all.take(i as int),
            ),
            stake@ == crate::stake::terms(shares@, group_entries(tips, all.take(i as int))),
        decreases hs.len() - i,
    {
        let h: usize = hs[i];
        assert(all.take(i + 1).drop_last() =~= all.take(i as int));
        assert(all.take(i + 1).last() == h);
        assert(all.take(1)[0] == hs[0]);
        if blocks[h] > blocks[top] {
            top = h;
        }
        if blocks[h] < low {
            low = blocks[h];
        }
        let es = &entries[h];
        let ghost front = group_entries(tips, all.take(i as int));
        let ghost more = reporters(tips, hashes_of(tips)[h as int]);
        assert(crate::histogram::places(es@) == more);
        proof {
            crate::count::lemma_select(tips.len() as int, reports(tips, hashes_of(tips)[h as int]));
        }
        let mut j: usize = 0;
        assert(front + more.take(0) =~= front);
        while j < es.len()
            invariant
                j <= es.len(),
                crate::histogram::places(es@) == more,
                shares.len() == tips.len(),
                forall|a: int| 0 <= a < more.len() ==> 0 <= #[trigger] more[a] < tips.len(),
                stake@ == crate::stake::terms(shares@, front + more.take(j as int)),
            decreases es.len() - j,
        {
            assert(more[j as int] == es[j as int]);
            stake.push(shares[es[j]]);
            assert(stake@ =~= crate::stake::terms(shares@, front + more.take(j + 1)));
            j += 1;
        }
        assert(more.take(j as int) =~= more);
        i += 1;
    }
    assert(all.take(i as int) =~= all);
    assert(hashes_of(tips)[top as int] == hashes[top as int]@);
    ChainGroup {
        main: false,
        block_max: blocks[top],
        block_min: low,
        hash: hashes[top].clone(),
        relays: stake.len() as u64,
        stake,
    }
}

/// The places where `roots` has `r`.
fn with_root(roots: &[usize], r: usize) -> (v: Vec<usize>)
    ensures
        crate::histogram::places(v@) == group_hashes(
            crate::histogram::places(roots@),
            r as int,
        ),
        forall|j: int| 0 <= j < v.len() ==> (#[trigger] v[j]) < roots.len(),
{
    let ghost all = crate::histogram::places(roots@);
    let mut v: Vec<usize> = Vec::new();
    let mut i: usize = 0;
    assert(crate::histogram::places(v@) =~= Seq::<int>::empty());
    while i < roots.len()
        invariant
            i <= roots.len(),
            all == crate::histogram::places(roots@),
            crate::histogram::places(v@) == crate::count::select(i as int, has_root(all, r as int)),
            forall|j: int| 0 <= j < v.len() ==> (#[trigger] v[j]) < roots.len(),
        decreases roots.len() - i,
    {
        assert(all[i as int] == roots[i as int]);
        if roots[i] == r {
            let ghost front = crate::histogram::places(v@);
            v.push(i);
            assert(crate::histogram::places(v@) =~= front.push(i as int));
        }
        i += 1;
    }
    v
}

/// The place of `hash` in `hashes`, where it is.
fn find_hash(hashes: &[String], hash: &String, Ghost(tips): Ghost<Seq<Option<TipView>>>) -> (h: usize)
    requires
        hashes.deep_view() == hashes_of(tips),
        hashes_of(tips).contains(hash@),
    ensures
        h < hashes.len(),
        h == hash_place(tips, hash@),
{
    let ghost all = hashes_of(tips);
    let mut h: usize = 0;
    while h < hashes.len() && hashes[h] != *hash
        invariant
            h <= hashes.len(),
            all == hashes.deep_view(),
            forall|j: int| 0 <= j < h ==> all[j] != hash@,
        decreases hashes.len() - h,
    {
        assert(all[h as int] == hashes[h as int]@);
        h += 1;
    }
    proof {
        let k = choose|k: int| 0 <= k < all.len() && all[k] == hash@;
        assert(all[k] == hash@);
        assert(h < hashes.len());
        assert(all[h as int] == hashes[h as int]@);
        crate::table::distinct_names_are_those_held(reported(tips));
        let p = hash_place(tips, hash@);
        assert(0 <= p < all.len() && all[p] == hash@);
        crate::table::lemma_ascending_distinct(all, p, h as int);
    }
    h
}

proof fn lemma_reported(tips: Seq<Option<TipView>>, e: int)
    requires
        0 <= e < tips.len(),
        tips[e] is Some,
    ensures
        reported(tips).contains(tips[e]->0.hash),
    decreases tips.len(),
{
    let front = reported(tips.drop_last());
    let all = reported(tips);
    if e == tips.len() - 1 {
        assert(all[all.len() - 1] == tips[e]->0.hash);
    } else {
        lemma_reported(tips.drop_last(), e);
        let i = choose|i: int| 0 <= i < front.len() && front[i] == tips[e]->0.hash;
        assert(all[i] == tips[e]->0.hash);
    }
}

/// Group reachable entries by tip hash and merge groups whose blocks lie
/// within `tolerance` of each other. `shares` is the stake behind each entry:
/// a pool's stake split evenly over its answering entries.
pub fn chain_groups(
    entry_outcome: &[Option<Outcome>],
    shares: &[Share],
    tolerance: u64,
) -> (c: Chains)
    requires
        shares.len() == entry_outcome.len(),
    ensures
        are_chains(c, tips_of(outcomes_of(entry_outcome@)), shares@, tolerance),
{
    let ghost tips = tips_of(outcomes_of(entry_outcome@));
    let hashes = list_hashes(entry_outcome);
    let ghost names = hashes_of(tips);
    let mut blocks: Vec<u64> = Vec::new();
    let mut entries: Vec<Vec<usize>> = Vec::new();
    let mut h: usize = 0;
    while h < hashes.len()
        invariant
            h <= hashes.len(),
            tips == tips_of(outcomes_of(entry_outcome@)),
            names == hashes_of(tips),
            hashes.deep_view() == names,
            blocks.len() == h,
            entries.len() == h,
            forall|j: int| 0 <= j < h ==> (#[trigger] blocks[j]) == blocks_of(tips)[j],
            forall|j: int|
                0 <= j < h ==> crate::histogram::places((#[trigger] entries[j])@) == reporters(
                    tips,
                    names[j],
                ),
        decreases hashes.len() - h,
    {
        assert(names[h as int] == hashes[h as int]@);
        let (es, block) = report(entry_outcome, &hashes[h]);
        entries.push(es);
        blocks.push(block);
        h += 1;
    }
    assert(blocks@ =~= blocks_of(tips));
    let found = find_roots(blocks.as_slice(), tolerance);
    let ghost roots = tip_roots(tips, tolerance);
    assert(crate::histogram::places(found@) == roots);
    proof {
        roots_are_their_own(blocks@, tolerance);
    }
    let mut order: Vec<usize> = Vec::new();
    let mut groups: Vec<ChainGroup> = Vec::new();
    let mut h: usize = 0;
    assert(crate::histogram::places(order@) =~= Seq::<int>::empty());
    while h < found.len()
        invariant
            h <= found.len(),
            tips == tips_of(outcomes_of(entry_outcome@)),
            names == hashes_of(tips),
            hashes.deep_view() == names,
            blocks@ == blocks_of(tips),
            entries.len() == hashes.len(),
            found.len() == hashes.len(),
            shares.len() == tips.len(),
            roots == tip_roots(tips, tolerance),
            crate::histogram::places(found@) == roots,
            forall|j: int|
                0 <= j < entries.len() ==> crate::histogram::places((#[trigger] entries[j])@)
                    == reporters(tips, names[j]),
            crate::histogram::places(order@) == crate::count::select(h as int, is_root(roots)),
            groups.len() == order.len(),
            forall|g: int|
                0 <= g < groups.len() ==> (#[trigger] groups[g]).deep_view() == group_of(
                    tips,
                    shares@,
                    group_hashes(roots, order[g] as int),
                ),
        decreases found.len() - h,
    {
        assert(roots[h as int] == found[h as int]);
        if found[h] == h {
            let ghost front = crate::histogram::places(order@);
            let hs = with_root(found.as_slice(), h);
            proof {
                crate::count::lemma_select(roots.len() as int, has_root(roots, h as int));
                assert(has_root(roots, h as int)(h as int));
                assert(group_hashes(roots, h as int).contains(h as int));
                assert(hs.len() == crate::histogram::places(hs@).len());
            }
            let g = collect(
                hashes.as_slice(),
                blocks.as_slice(),
                entries.as_slice(),
                shares,
                hs.as_slice(),
                Ghost(tips),
            );
            order.push(h);
            groups.push(g);
            assert(crate::histogram::places(order@) =~= front.push(h as int));
        }
        h += 1;
    }
    assert(groups.deep_view() =~= groups_of(tips, shares@, tolerance)) by {
        let o = group_roots(roots);
        assert(crate::histogram::places(order@) == o);
        assert forall|g: int| 0 <= g < groups.len() implies #[trigger] groups.deep_view()[g]
            == groups_of(tips, shares@, tolerance)[g] by {
            assert(groups[g].deep_view() == group_of(
                tips,
                shares@,
                group_hashes(roots, order[g] as int),
            ));
            assert(o[g] == order[g]);
        }
    }
    let mut member: Vec<Option<usize>> = Vec::new();
    let mut i: usize = 0;
    while i < entry_outcome.len()
        invariant
            i <= entry_outcome.len(),
            tips == tips_of(outcomes_of(entry_outcome@)),
            names == hashes_of(tips),
            hashes.deep_view() == names,
            found.len() == hashes.len(),
            roots == tip_roots(tips, tolerance),
            crate::histogram::places(found@) == roots,
            member.len() == i,
            forall|e: int|
                0 <= e < i ==> place_of(#[trigger] member[e]) == entry_root(tips, tolerance, e),
        decreases entry_outcome.len() - i,
    {
        assert(outcomes_of(entry_outcome@)[i as int] == match entry_outcome[i as int] {
            Some(o) => Some(outcome(o)),
            None => None,
        });
        let r: Option<usize> = match &entry_outcome[i] {
            Some(Ok(r)) => {
                assert(tips[i as int] == Some(r.tip.deep_view()));
                proof {
                    lemma_reported(tips, i as int);
                    crate::table::distinct_names_are_those_held(reported(tips));
                }
                let h: usize = find_hash(hashes.as_slice(), &r.tip.hash, Ghost(tips));
                assert(roots[h as int] == found[h as int]);
                Some(found[h])
            },
            _ => {
                assert(tips[i as int] is None);
                None
            },
        };
        member.push(r);
        i += 1;
    }
    Chains { groups, roots: order, entry_root: member }
}

// The main chain.

/// The place of the largest of the first `n` keys, the last one of several.
pub open spec fn main_place(keys: Seq<u64>, n: int) -> int
    decreases n,
{
    if n <= 1 {
        0
    } else {
        let front = main_place(keys, n - 1);
        if keys[n - 1] >= keys[front] {
            n - 1
        } else {
            front
        }
    }
}

/// The main group first, then the larger key.
pub open spec fn main_first(keys: Seq<u64>, main: int) -> spec_fn(int, int) -> bool {
    |a: int, b: int|
        if (a == main) != (b == main) {
            a == main
        } else {
            keys[a] > keys[b]
        }
}

/// The places of `n` groups in the order of their listing.
pub open spec fn listing(keys: Seq<u64>, n: nat) -> Seq<int> {
    crate::sort::sorted_by(
        Seq::new(n, |i: int| i),
        main_first(keys, main_place(keys, n as int)),
    )
}

/// The groups in the order of their listing, the main one marked. `keys`
/// ranks their stake.
pub open spec fn listed_groups(groups: Seq<ChainGroupView>, keys: Seq<u64>) -> Seq<
    ChainGroupView,
> {
    let order = listing(keys, groups.len());
    Seq::new(
        order.len(),
        |i: int|
            ChainGroupView {
                main: order[i] == main_place(keys, groups.len() as int),
                ..groups[order[i]]
            },
    )
}

/// Where the tip of an entry sits. `root` is that of its group, `main` that of
/// the main group.
pub open spec fn placed_tip(
    tip: Option<TipView>,
    root: Option<int>,
    main: Option<int>,
    highest: u64,
) -> Option<EntryTip> {
    match tip {
        Some(t) => Some(
            EntryTip {
                lag_blocks: if t.block >= highest {
                    0
                } else {
                    (highest - t.block) as u64
                },
                main: root == main,
            },
        ),
        None => None,
    }
}

/// The root of the main group.
pub open spec fn main_root(roots: Seq<int>, keys: Seq<u64>) -> Option<int> {
    if roots.len() == 0 {
        None
    } else {
        Some(roots[main_place(keys, roots.len() as int)])
    }
}

impl ChainGroup {
    pub fn copy_as(&self, main: bool) -> (r: Self)
        ensures
            r.deep_view() == (ChainGroupView { main, ..self.deep_view() }),
    {
        ChainGroup {
            main,
            block_max: self.block_max,
            block_min: self.block_min,
            hash: self.hash.clone(),
            relays: self.relays,
            stake: copy_sum(self.stake.as_slice()),
        }
    }
}

struct Slot {
    at: usize,
    main: bool,
    key: u64,
}

impl Ranked for Slot {
    closed spec fn ahead(&self, other: &Self) -> bool {
        if self.main != other.main {
            self.main
        } else {
            self.key > other.key
        }
    }

    fn is_ahead(&self, other: &Self) -> bool {
        if self.main != other.main {
            self.main
        } else {
            self.key > other.key
        }
    }
}

spec fn is_slot(s: Slot, keys: Seq<u64>, main: int) -> bool {
    s.main == (s.at == main) && s.key == keys[s.at as int]
}

fn find_main(keys: &[u64], n: usize) -> (m: usize)
    requires
        0 < n <= keys.len(),
    ensures
        m == main_place(keys@, n as int),
        m < n,
{
    let mut m: usize = 0;
    let mut i: usize = 1;
    while i < n
        invariant
            1 <= i <= n <= keys.len(),
            m < i,
            m == main_place(keys@, i as int),
        decreases n - i,
    {
        if keys[i] >= keys[m] {
            m = i;
        }
        i += 1;
    }
    m
}

/// Call the group with the most stake main and list it first, the others by
/// their stake; and say of each entry where its tip sits. `keys` ranks the
/// stake of the groups.
pub fn settle(
    c: &Chains,
    keys: &[u64],
    entry_outcome: &[Option<Outcome>],
    tip_block_max: u64,
) -> (r: (Vec<ChainGroup>, Vec<Option<EntryTip>>))
    requires
        keys.len() >= c.groups.len(),
        c.roots.len() == c.groups.len(),
        c.entry_root.len() == entry_outcome.len(),
    ensures
        r.0.deep_view() == listed_groups(c.groups.deep_view(), keys@),
        r.1.len() == entry_outcome.len(),
        forall|e: int|
            0 <= e < entry_outcome.len() ==> (#[trigger] r.1[e]) == placed_tip(
                tips_of(outcomes_of(entry_outcome@))[e],
                place_of(c.entry_root[e]),
                main_root(crate::histogram::places(c.roots@), keys@),
                tip_block_max,
            ),
{
    let ghost gs = c.groups.deep_view();
    let ghost tips = tips_of(outcomes_of(entry_outcome@));
    let n: usize = c.groups.len();
    let main: Option<usize> = if n == 0 {
        None
    } else {
        Some(find_main(keys, n))
    };
    let ghost m = main_place(keys@, n as int);
    let ghost f = |s: Slot| s.at as int;
    let mut slots: Vec<Slot> = Vec::new();
    let mut i: usize = 0;
    while i < n
        invariant
            i <= n <= keys.len(),
            n > 0 ==> main == Some(m as usize) && 0 <= m < n,
            slots.len() == i,
            forall|j: int| 0 <= j < i ==> (#[trigger] slots[j]).at == j && is_slot(slots[j], keys@, m),
        decreases n - i,
    {
        let is_main = match main {
            Some(x) => x == i,
            None => false,
        };
        slots.push(Slot { at: i, main: is_main, key: keys[i] });
        i += 1;
    }
    let ghost unsorted = slots@;
    let slots = sort(slots);
    proof {
        crate::sort::sorting_keeps_every_value(unsorted);
        crate::sort::lemma_sorted_map_on(
            unsorted,
            f,
            main_first(keys@, m),
            |s: Slot| is_slot(s, keys@, m),
        );
        assert(unsorted.map_values(f) =~= Seq::new(n as nat, |i: int| i));
        assert forall|j: int| 0 <= j < slots.len() implies (#[trigger] slots[j]).at < n && is_slot(
            slots[j],
            keys@,
            m,
        ) by {
            let k = crate::sort::lemma_sorted_from(unsorted, j);
            assert(unsorted[k] == slots[j]);
        }
    }
    let ghost order = listing(keys@, n as nat);
    assert(slots@.map_values(f) == order);
    let mut groups: Vec<ChainGroup> = Vec::new();
    let mut i: usize = 0;
    while i < slots.len()
        invariant
            i <= slots.len(),
            gs == c.groups.deep_view(),
            n == c.groups.len(),
            slots@.map_values(f) == order,
            f == (|s: Slot| s.at as int),
            m == main_place(keys@, n as int),
            order == listing(keys@, n as nat),
            forall|j: int|
                0 <= j < slots.len() ==> (#[trigger] slots[j]).at < n && is_slot(
                    slots[j],
                    keys@,
                    m,
                ),
            groups.len() == i,
            forall|j: int|
                0 <= j < i ==> (#[trigger] groups[j]).deep_view() == listed_groups(gs, keys@)[j],
        decreases slots.len() - i,
    {
        let at: usize = slots[i].at;
        assert(slots@.map_values(f)[i as int] == f(slots[i as int]));
        assert(order[i as int] == at);
        assert(gs[at as int] == c.groups[at as int].deep_view());
        groups.push(c.groups[at].copy_as(slots[i].main));
        i += 1;
    }
    assert(groups.deep_view() =~= listed_groups(gs, keys@));
    let root: Option<usize> = match main {
        Some(x) => Some(c.roots[x]),
        None => None,
    };
    let ghost mr = main_root(crate::histogram::places(c.roots@), keys@);
    assert(place_of(root) == mr);
    let mut placed: Vec<Option<EntryTip>> = Vec::new();
    let mut i: usize = 0;
    while i < entry_outcome.len()
        invariant
            i <= entry_outcome.len(),
            c.entry_root.len() == entry_outcome.len(),
            tips == tips_of(outcomes_of(entry_outcome@)),
            place_of(root) == mr,
            placed.len() == i,
            forall|e: int|
                0 <= e < i ==> (#[trigger] placed[e]) == placed_tip(
                    tips[e],
                    place_of(c.entry_root[e]),
                    mr,
                    tip_block_max,
                ),
        decreases entry_outcome.len() - i,
    {
        assert(outcomes_of(entry_outcome@)[i as int] == match entry_outcome[i as int] {
            Some(o) => Some(outcome(o)),
            None => None,
        });
        let t: Option<EntryTip> = match &entry_outcome[i] {
            Some(Ok(r)) => {
                assert(tips[i as int] == Some(r.tip.deep_view()));
                let lag_blocks: u64 = if r.tip.block >= tip_block_max {
                    0
                } else {
                    tip_block_max - r.tip.block
                };
                let on_main = match (c.entry_root[i], root) {
                    (Some(a), Some(b)) => a == b,
                    (None, None) => true,
                    _ => false,
                };
                Some(EntryTip { lag_blocks, main: on_main })
            },
            _ => {
                assert(tips[i as int] is None);
                None
            },
        };
        placed.push(t);
        i += 1;
    }
    (groups, placed)
}

/// Exactly one group is main, it is listed first, and no group has a larger
/// key.
pub proof fn the_main_group_leads(groups: Seq<ChainGroupView>, keys: Seq<u64>)
    requires
        groups.len() > 0,
        keys.len() >= groups.len(),
    ensures
        listed_groups(groups, keys).len() == groups.len(),
        forall|i: int|
            0 <= i < groups.len() ==> (#[trigger] listed_groups(groups, keys)[i]).main == (i == 0),
        forall|i: int|
            0 <= i < groups.len() ==> (#[trigger] keys[i]) <= keys[main_place(
                keys,
                groups.len() as int,
            )],
{
    let n = groups.len() as int;
    let m = main_place(keys, n);
    lemma_main_place(keys, n);
    let ident = Seq::new(groups.len(), |i: int| i);
    let ahead = main_first(keys, m);
    let order = listing(keys, groups.len());
    crate::sort::lemma_sorted_by_multiset(ident, ahead);
    assert(crate::sort::ranks_all(ahead));
    crate::sort::sorted_by_is_in_order(ident, ahead);
    broadcast use vstd::seq_lib::group_to_multiset_ensures;

    assert(ident[m] == m);
    assert(ident.contains(m));
    assert(order.to_multiset().count(m) > 0);
    assert(order.contains(m));
    let k = choose|k: int| 0 <= k < order.len() && order[k] == m;
    if k > 0 {
        assert(!ahead(order[k], order[0]));
    }
    assert(order[0] == m);
    assert forall|i: int| 0 <= i < n implies (#[trigger] listed_groups(groups, keys)[i]).main == (i
        == 0) by {
        if i > 0 && order[i] == m {
            assert(ident.no_duplicates());
            ident.lemma_multiset_has_no_duplicates();
            assert(order.to_multiset().count(m) == 1);
            lemma_twice(order, 0, i, m);
        }
    }
}

proof fn lemma_twice(s: Seq<int>, i: int, j: int, x: int)
    requires
        0 <= i < j < s.len(),
        s[i] == x,
        s[j] == x,
    ensures
        s.to_multiset().count(x) >= 2,
{
    broadcast use vstd::seq_lib::group_to_multiset_ensures;

    let t = s.remove(j);
    assert(t[i] == x);
    assert(t.contains(x));
    assert(t.to_multiset() =~= s.to_multiset().remove(x));
    assert(t.to_multiset().count(x) > 0);
}

proof fn lemma_main_place(keys: Seq<u64>, n: int)
    requires
        0 < n <= keys.len(),
    ensures
        0 <= main_place(keys, n) < n,
        forall|i: int| 0 <= i < n ==> (#[trigger] keys[i]) <= keys[main_place(keys, n)],
    decreases n,
{
    if n > 1 {
        lemma_main_place(keys, n - 1);
    }
}

/// The entries of the group at `g`.
pub open spec fn entries_on(tips: Seq<Option<TipView>>, tolerance: u64, g: int) -> Seq<int> {
    let roots = tip_roots(tips, tolerance);
    group_entries(tips, group_hashes(roots, group_roots(roots)[g]))
}

/// An entry is among those of the hashes when it reports one of them.
pub proof fn lemma_group_entries(tips: Seq<Option<TipView>>, hs: Seq<int>, e: int)
    ensures
        group_entries(tips, hs).contains(e) <==> exists|k: int|
            0 <= k < hs.len() && #[trigger] reporters(tips, hashes_of(tips)[hs[k]]).contains(e),
    decreases hs.len(),
{
    if hs.len() > 0 {
        let front = hs.drop_last();
        lemma_group_entries(tips, front, e);
        let a = group_entries(tips, front);
        let b = reporters(tips, hashes_of(tips)[hs.last()]);
        let all = group_entries(tips, hs);
        assert(all == a + b);
        if all.contains(e) {
            let i = choose|i: int| 0 <= i < all.len() && all[i] == e;
            if i < a.len() {
                assert(a[i] == e);
                let k = choose|k: int|
                    0 <= k < front.len() && #[trigger] reporters(
                        tips,
                        hashes_of(tips)[front[k]],
                    ).contains(e);
                assert(reporters(tips, hashes_of(tips)[hs[k]]).contains(e));
            } else {
                assert(b[i - a.len()] == e);
                assert(reporters(tips, hashes_of(tips)[hs[hs.len() - 1]]).contains(e));
            }
        }
        if exists|k: int|
            0 <= k < hs.len() && #[trigger] reporters(tips, hashes_of(tips)[hs[k]]).contains(e) {
            let k = choose|k: int|
                0 <= k < hs.len() && #[trigger] reporters(tips, hashes_of(tips)[hs[k]]).contains(e);
            if k < front.len() {
                assert(reporters(tips, hashes_of(tips)[front[k]]).contains(e));
                let i = a.index_of(e);
                assert(all[i] == e);
            } else {
                let i = b.index_of(e);
                assert(all[a.len() + i] == e);
            }
        }
    }
}

/// An entry on a group reports one of its hashes, and has a tip.
proof fn lemma_on_group(tips: Seq<Option<TipView>>, tolerance: u64, g: int, e: int)
    requires
        0 <= g < group_roots(tip_roots(tips, tolerance)).len(),
        entries_on(tips, tolerance, g).contains(e),
    ensures
        0 <= e < tips.len(),
        tips[e] is Some,
        exists|h: int|
            0 <= h < hashes_of(tips).len() && #[trigger] hashes_of(tips)[h] == tips[e]->0.hash
                && tip_roots(tips, tolerance)[h] == group_roots(tip_roots(tips, tolerance))[g],
{
    let roots = tip_roots(tips, tolerance);
    let r = group_roots(roots)[g];
    let hs = group_hashes(roots, r);
    roots_are_their_own(blocks_of(tips), tolerance);
    crate::count::lemma_select(roots.len() as int, has_root(roots, r));
    lemma_group_entries(tips, hs, e);
    let k = choose|k: int|
        0 <= k < hs.len() && #[trigger] reporters(tips, hashes_of(tips)[hs[k]]).contains(e);
    crate::count::lemma_select(tips.len() as int, reports(tips, hashes_of(tips)[hs[k]]));
    assert(reports(tips, hashes_of(tips)[hs[k]])(e));
    assert(hashes_of(tips)[hs[k]] == tips[e]->0.hash);
}

/// Every entry that returned a tip is on one group, and on no other.
pub proof fn every_tip_is_on_one_chain(
    tips: Seq<Option<TipView>>,
    tolerance: u64,
    e: int,
) -> (g: int)
    requires
        0 <= e < tips.len(),
        tips[e] is Some,
    ensures
        0 <= g < group_roots(tip_roots(tips, tolerance)).len(),
        entries_on(tips, tolerance, g).contains(e),
        forall|k: int|
            0 <= k < group_roots(tip_roots(tips, tolerance)).len() && #[trigger] entries_on(
                tips,
                tolerance,
                k,
            ).contains(e) ==> k == g,
{
    let roots = tip_roots(tips, tolerance);
    let order = group_roots(roots);
    let hashes = hashes_of(tips);
    let key = tips[e]->0.hash;
    roots_are_their_own(blocks_of(tips), tolerance);
    lemma_reported(tips, e);
    crate::table::distinct_names_are_those_held(reported(tips));
    assert(hashes.contains(key));
    let h = hashes.index_of(key);
    let r = roots[h];
    assert(roots[r] == r);
    crate::count::lemma_select(roots.len() as int, is_root(roots));
    assert(is_root(roots)(r));
    assert(order.contains(r));
    let g = order.index_of(r);
    let hs = group_hashes(roots, r);
    crate::count::lemma_select(roots.len() as int, has_root(roots, r));
    assert(has_root(roots, r)(h));
    assert(hs.contains(h));
    let k = hs.index_of(h);
    crate::count::lemma_select(tips.len() as int, reports(tips, key));
    assert(reports(tips, key)(e));
    assert(reporters(tips, hashes[hs[k]]).contains(e));
    lemma_group_entries(tips, hs, e);
    assert forall|k: int|
        0 <= k < order.len() && #[trigger] entries_on(tips, tolerance, k).contains(e) implies k
        == g by {
        lemma_on_group(tips, tolerance, k, e);
        let h2 = choose|h2: int|
            0 <= h2 < hashes.len() && #[trigger] hashes[h2] == key && roots[h2] == order[k];
        crate::table::lemma_ascending_distinct(hashes, h, h2);
        assert(order[k] == r);
        if k < g {
            assert(order[k] < order[g]);
        } else if g < k {
            assert(order[g] < order[k]);
        }
    }
    g
}

/// What is on a group has a tip: an entry without one counts nowhere.
pub proof fn only_tips_are_on_chains(
    tips: Seq<Option<TipView>>,
    tolerance: u64,
    g: int,
    e: int,
)
    requires
        0 <= g < group_roots(tip_roots(tips, tolerance)).len(),
        entries_on(tips, tolerance, g).contains(e),
    ensures
        0 <= e < tips.len(),
        tips[e] is Some,
{
    lemma_on_group(tips, tolerance, g, e);
}

/// No entry counts twice on a group.
pub proof fn no_entry_counts_twice(tips: Seq<Option<TipView>>, tolerance: u64, g: int)
    requires
        0 <= g < group_roots(tip_roots(tips, tolerance)).len(),
    ensures
        entries_on(tips, tolerance, g).no_duplicates(),
{
    let roots = tip_roots(tips, tolerance);
    let r = group_roots(roots)[g];
    roots_are_their_own(blocks_of(tips), tolerance);
    crate::count::lemma_select(roots.len() as int, has_root(roots, r));
    lemma_entries_once(tips, group_hashes(roots, r));
}

proof fn lemma_entries_once(tips: Seq<Option<TipView>>, hs: Seq<int>)
    requires
        forall|i: int| 0 <= i < hs.len() ==> 0 <= #[trigger] hs[i] < hashes_of(tips).len(),
        forall|i: int, j: int| 0 <= i < j < hs.len() ==> hs[i] < hs[j],
    ensures
        group_entries(tips, hs).no_duplicates(),
    decreases hs.len(),
{
    if hs.len() > 0 {
        let front = hs.drop_last();
        let hashes = hashes_of(tips);
        let last = hashes[hs.last()];
        let a = group_entries(tips, front);
        let b = reporters(tips, last);
        let all = group_entries(tips, hs);
        assert(all == a + b);
        lemma_entries_once(tips, front);
        crate::count::lemma_select(tips.len() as int, reports(tips, last));
        crate::table::distinct_names_are_those_held(reported(tips));
        assert forall|i: int, j: int| 0 <= i < a.len() && 0 <= j < b.len() implies a[i]
            != b[j] by {
            let e = b[j];
            if a[i] == e {
                assert(a.contains(e));
                lemma_group_entries(tips, front, e);
                let k = choose|k: int|
                    0 <= k < front.len() && #[trigger] reporters(
                        tips,
                        hashes[front[k]],
                    ).contains(e);
                crate::count::lemma_select(tips.len() as int, reports(tips, hashes[front[k]]));
                assert(reports(tips, hashes[front[k]])(e));
                assert(reports(tips, last)(e));
                crate::table::lemma_ascending_distinct(hashes, front[k], hs.last());
                assert(hs[k] < hs[hs.len() - 1]);
            }
        }
        assert forall|i: int, j: int| 0 <= i < j < all.len() implies all[i] != all[j] by {
            if j < a.len() {
                assert(all[i] == a[i] && all[j] == a[j]);
            } else if i >= a.len() {
                assert(all[i] == b[i - a.len()] && all[j] == b[j - a.len()]);
            } else {
                assert(all[i] == a[i] && all[j] == b[j - a.len()]);
            }
        }
    }
}

/// Hashes whose blocks are close are in one group.
proof fn lemma_close_is_one_group(blocks: Seq<u64>, tolerance: u64, i: int, j: int)
    requires
        0 <= i < blocks.len(),
        0 <= j < blocks.len(),
        close(blocks[i], blocks[j], tolerance),
    ensures
        roots_of(blocks, tolerance)[i] == roots_of(blocks, tolerance)[j],
{
    assert(leads(blocks, tolerance, seq![i, j], i, j));
    groups_are_what_is_connected(blocks, tolerance, i, j);
}

/// A way in close steps that starts above the block of `t`, in another group
/// than its own, stays above it.
proof fn lemma_path_stays_above(
    blocks: Seq<u64>,
    tolerance: u64,
    path: Seq<int>,
    i: int,
    j: int,
    t: int,
    k: int,
)
    requires
        leads(blocks, tolerance, path, i, j),
        0 <= t < blocks.len(),
        0 <= k < path.len(),
        roots_of(blocks, tolerance)[i] != roots_of(blocks, tolerance)[t],
        blocks[i] > blocks[t],
    ensures
        blocks[path[k]] > blocks[t],
    decreases k,
{
    if k > 0 {
        let (a, b) = (path[k - 1], path[k]);
        lemma_path_stays_above(blocks, tolerance, path, i, j, t, k - 1);
        lemma_path_in_group(blocks, tolerance, path, i, j, k - 1);
        assert(close(blocks[path[k - 1]], blocks[path[k - 1 + 1]], tolerance));
        if blocks[b] <= blocks[t] {
            assert(close(blocks[a], blocks[t], tolerance));
            lemma_close_is_one_group(blocks, tolerance, a, t);
        }
    }
}

/// A group with a block above that of `t`, which it does not hold, is all more
/// than the tolerance above it.
proof fn lemma_group_above(blocks: Seq<u64>, tolerance: u64, i: int, h: int, t: int)
    requires
        0 <= i < blocks.len(),
        0 <= h < blocks.len(),
        0 <= t < blocks.len(),
        roots_of(blocks, tolerance)[i] == roots_of(blocks, tolerance)[h],
        roots_of(blocks, tolerance)[i] != roots_of(blocks, tolerance)[t],
        blocks[i] > blocks[t],
    ensures
        blocks[h] > blocks[t] + tolerance,
{
    groups_are_what_is_connected(blocks, tolerance, i, h);
    let path = choose|path: Seq<int>| leads(blocks, tolerance, path, i, h);
    lemma_path_stays_above(blocks, tolerance, path, i, h, t, path.len() - 1);
    if close(blocks[h], blocks[t], tolerance) {
        lemma_close_is_one_group(blocks, tolerance, h, t);
    }
}

/// The highest block and the lowest are those of some of the hashes.
proof fn lemma_extremes(blocks: Seq<u64>, hs: Seq<int>)
    requires
        hs.len() > 0,
    ensures
        hs.contains(top_hash(blocks, hs)),
        exists|k: int| 0 <= k < hs.len() && lowest(blocks, hs) == blocks[#[trigger] hs[k]],
    decreases hs.len(),
{
    if hs.len() == 1 {
        assert(hs[0] == top_hash(blocks, hs));
        assert(lowest(blocks, hs) == blocks[hs[0]]);
    } else {
        let front = hs.drop_last();
        lemma_extremes(blocks, front);
        let t = front.index_of(top_hash(blocks, front));
        assert(hs[t] == front[t]);
        assert(hs[hs.len() - 1] == hs.last());
        let k = choose|k: int|
            0 <= k < front.len() && lowest(blocks, front) == blocks[#[trigger] front[k]];
        assert(hs[k] == front[k]);
    }
}

/// Any two groups lie more than the tolerance apart, from the lowest block of
/// the upper one to the highest block of the lower one.
pub proof fn groups_lie_apart(
    tips: Seq<Option<TipView>>,
    shares: Seq<Share>,
    tolerance: u64,
    g: int,
    h: int,
)
    requires
        0 <= g < groups_of(tips, shares, tolerance).len(),
        0 <= h < groups_of(tips, shares, tolerance).len(),
        g != h,
    ensures
        ({
            let groups = groups_of(tips, shares, tolerance);
            ||| groups[g].block_min > groups[h].block_max + tolerance
            ||| groups[h].block_min > groups[g].block_max + tolerance
        }),
{
    let blocks = blocks_of(tips);
    let roots = tip_roots(tips, tolerance);
    let order = group_roots(roots);
    roots_are_their_own(blocks, tolerance);
    crate::count::lemma_select(roots.len() as int, is_root(roots));
    assert(order[g] != order[h]);
    let (a, b) = (group_hashes(roots, order[g]), group_hashes(roots, order[h]));
    crate::count::lemma_select(roots.len() as int, has_root(roots, order[g]));
    crate::count::lemma_select(roots.len() as int, has_root(roots, order[h]));
    assert(is_root(roots)(order[g]) && is_root(roots)(order[h]));
    assert(has_root(roots, order[g])(order[g]) && has_root(roots, order[h])(order[h]));
    assert(a.contains(order[g]) && b.contains(order[h]));
    lemma_extremes(blocks, a);
    lemma_extremes(blocks, b);
    let (s, t) = (top_hash(blocks, a), top_hash(blocks, b));
    let x = a[choose|k: int| 0 <= k < a.len() && lowest(blocks, a) == blocks[#[trigger] a[k]]];
    let y = b[choose|k: int| 0 <= k < b.len() && lowest(blocks, b) == blocks[#[trigger] b[k]]];
    assert(a.contains(x) && b.contains(y));
    assert(has_root(roots, order[g])(s) && has_root(roots, order[g])(x));
    assert(has_root(roots, order[h])(t) && has_root(roots, order[h])(y));
    if blocks[s] > blocks[t] {
        lemma_group_above(blocks, tolerance, s, x, t);
    } else if blocks[t] > blocks[s] {
        lemma_group_above(blocks, tolerance, t, y, s);
    } else {
        lemma_close_is_one_group(blocks, tolerance, s, t);
    }
}

} // verus!
