use cardano_census::chains::{chain_groups, settle, EntryTip};
use cardano_census::ip::{Ip, SockAddr};
use cardano_census::probe::{Family, Outcome, Reached, Tip};
use cardano_census::stake::Share;

fn tip(hash: &str, block: u64) -> Option<Outcome> {
    Some(Ok(Reached {
        peer: SockAddr { ip: Ip::V4(1), port: 1, scope: 0 },
        family: Family::V4,
        n2n_version: "14".into(),
        tip: Tip { slot: block, hash: hash.into(), block },
        rtt_ms: 1,
    }))
}

fn shares(n: usize) -> Vec<Share> {
    (0..n).map(|pool| Share { pool, parts: 1 }).collect()
}

#[test]
fn tips_within_the_tolerance_are_one_chain() {
    // 100 and 95 are close, 95 and 88 are close, so all three are one group; 50 is on its own.
    let best = vec![tip("a", 100), tip("b", 95), None, tip("c", 88), tip("d", 50), tip("a", 99)];
    let c = chain_groups(&best, &shares(6), 7);
    assert_eq!(c.groups.len(), 2);
    let (chains, tips) = settle(&c, &c.groups.iter().map(|g| g.relays).collect::<Vec<_>>(), &best, 100);
    let main = &chains[0];
    assert!(main.main && !chains[1].main);
    assert_eq!((main.block_max, main.block_min, main.hash.as_str(), main.relays), (100, 88, "a", 4));
    assert_eq!((chains[1].block_max, chains[1].hash.as_str(), chains[1].relays), (50, "d", 1));
    let mut pools: Vec<usize> = main.stake.iter().map(|s| s.pool).collect();
    pools.sort_unstable();
    assert_eq!(pools, vec![0, 1, 3, 5]);
    assert_eq!(tips[0], Some(EntryTip { lag_blocks: 0, main: true }));
    assert_eq!(tips[2], None);
    assert_eq!(tips[3], Some(EntryTip { lag_blocks: 12, main: true }));
    assert_eq!(tips[4], Some(EntryTip { lag_blocks: 50, main: false }));
}

#[test]
fn groups_lie_further_apart_than_the_tolerance() {
    let best = vec![tip("a", 100), tip("b", 90), tip("c", 79), tip("d", 70), tip("e", 0)];
    let c = chain_groups(&best, &shares(5), 10);
    let mut spans: Vec<(u64, u64)> = c.groups.iter().map(|g| (g.block_min, g.block_max)).collect();
    spans.sort_unstable();
    assert_eq!(spans, vec![(0, 0), (70, 79), (90, 100)]);
    assert!(spans.windows(2).all(|w| w[1].0 > w[0].1 + 10));
}

#[test]
fn the_group_with_the_most_stake_is_main() {
    let best = vec![tip("a", 100), tip("b", 10), tip("c", 50)];
    let c = chain_groups(&best, &shares(3), 0);
    // Groups stand by hash: a, b, c.
    let (chains, tips) = settle(&c, &[1, 9, 5], &best, 100);
    let order: Vec<(&str, bool)> = chains.iter().map(|g| (g.hash.as_str(), g.main)).collect();
    assert_eq!(order, vec![("b", true), ("c", false), ("a", false)]);
    assert_eq!(tips[1], Some(EntryTip { lag_blocks: 90, main: true }));
}

#[test]
fn no_tips_make_no_chains() {
    let best = vec![None, None];
    let c = chain_groups(&best, &shares(2), 10);
    let (chains, tips) = settle(&c, &[], &best, 0);
    assert!(chains.is_empty());
    assert_eq!(tips, vec![None, None]);
}

#[test]
fn a_tip_above_the_highest_lags_nothing() {
    let best = vec![tip("a", 100)];
    let c = chain_groups(&best, &shares(1), 10);
    let (_, tips) = settle(&c, &[1], &best, 90);
    assert_eq!(tips[0], Some(EntryTip { lag_blocks: 0, main: true }));
}
