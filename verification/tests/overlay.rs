//! What the overlay promises, on values.

use crds_gossip_push::crds::Crds;
use crds_gossip_push::crds_gossip_error::CrdsGossipError;
use crds_gossip_push::crds_gossip_push::{
    CrdsGossipPush, CRDS_GOSSIP_NUM_ACTIVE, CRDS_GOSSIP_PRUNE_MSG_TIMEOUT_MS,
    CRDS_GOSSIP_PUSH_FANOUT, CRDS_GOSSIP_PUSH_MSG_TIMEOUT_MS,
};
use crds_gossip_push::crds_value::{
    ContactInfo, CrdsData, CrdsValue, Digest, IpAddr, NodeInstance, Record, SocketAddr,
};
use crds_gossip_push::pubkey::Pubkey;
use crds_gossip_push::pubkey_map::{PubkeyMap, PubkeySet};
use crds_gossip_push::push_options::PushOption;
use crds_gossip_push::received_cache::Ingress;
use crds_gossip_push::rotation::active_keys;
use std::sync::Arc;

/// A key whose first byte is `number`.
fn key(number: u128) -> Pubkey {
    Pubkey { hi: number << 120, lo: number }
}

fn info(number: u128) -> ContactInfo {
    ContactInfo {
        id: key(number),
        gossip: SocketAddr { ip: IpAddr::V4(0x7f00_0001), port: 1234 },
        wallclock: 1000,
        shred_version: 0,
    }
}

fn value(data: CrdsData, size: usize) -> CrdsValue {
    CrdsValue { data, digest: Digest { hi: 0, lo: 0 }, payload: Arc::new(vec![0; size]) }
}

fn record(kind: u32, from: u128, wallclock: u64) -> CrdsValue {
    value(CrdsData::Record(Record { kind, from: key(from), wallclock }), 100)
}

fn options(numbers: &[u128]) -> Vec<PushOption> {
    numbers.iter().map(|number| PushOption { info: info(*number), since: 0, stake: 0 }).collect()
}

/// An overlay whose peers are `numbers`, in that order.
fn overlay(numbers: &[u128]) -> CrdsGossipPush {
    let mut push = CrdsGossipPush::default();
    let order: Vec<usize> = (0..numbers.len()).collect();
    push.refresh_push_active_set_in_order(&options(numbers), &order, &vec![], 1, 1);
    push
}

fn messages(entries: Vec<(u128, Vec<CrdsValue>)>) -> PubkeyMap<Vec<CrdsValue>> {
    let mut map = PubkeyMap::new();
    for (number, values) in entries {
        map.insert(key(number), values);
    }
    map
}

fn stakes_of(entries: &[(u128, u64)]) -> PubkeyMap<u64> {
    let mut stakes = PubkeyMap::new();
    for (number, stake) in entries {
        stakes.insert(key(*number), *stake);
    }
    stakes
}

#[test]
fn overlays_start_empty() {
    let push = CrdsGossipPush::default();
    assert_eq!(push.max_bytes, 64 * 1232);
    assert_eq!(push.num_active, CRDS_GOSSIP_NUM_ACTIVE);
    assert_eq!(push.num_active, 30);
    assert_eq!(push.push_fanout, CRDS_GOSSIP_PUSH_FANOUT);
    assert_eq!(push.push_fanout, 6);
    assert_eq!(push.msg_timeout, CRDS_GOSSIP_PUSH_MSG_TIMEOUT_MS);
    assert_eq!(push.msg_timeout, 30_000);
    assert_eq!(push.prune_timeout, CRDS_GOSSIP_PRUNE_MSG_TIMEOUT_MS);
    assert_eq!(push.prune_timeout, 500);
    assert_eq!((push.num_total, push.num_old, push.num_pushes), (0, 0, 0));
    assert_eq!(push.active_set.len(), 0);
    assert_eq!(push.received_cache.len(), 0);
    assert_eq!(push.crds_cursor.ordinal, 0);
}

#[test]
fn window_is_closed_on_both_sides() {
    let push = CrdsGossipPush::default();
    assert_eq!(push.wallclock_window(100_000), (70_000, 130_000));
    assert_eq!(push.wallclock_window(1), (0, 30_001));
    let mut crds = Crds::new();
    let mut push = CrdsGossipPush::default();
    for (wallclock, result) in vec![
        (69_999, Err(CrdsGossipError::PushMessageTimeout)),
        (70_000, Ok(None)),
        (130_000, Ok(None)),
        (130_001, Err(CrdsGossipError::PushMessageTimeout)),
    ] {
        let pushed = record(wallclock as u32, 1, wallclock);
        assert_eq!(push.process_push_message(&mut crds, &key(2), pushed, 100_000), result);
    }
    assert_eq!((push.num_total, push.num_old), (4, 0));
    assert_eq!(crds.len(), 2);
}

#[test]
fn pushes_are_counted_and_recorded() {
    let mut crds = Crds::new();
    let mut push = CrdsGossipPush::default();
    assert_eq!(push.process_push_message(&mut crds, &key(2), record(0, 1, 5), 10), Ok(None));
    assert_eq!(
        push.process_push_message(&mut crds, &key(3), record(0, 1, 5), 20),
        Err(CrdsGossipError::PushMessageOldVersion)
    );
    assert_eq!((push.num_total, push.num_old), (2, 1));
    let peers = push.received_cache.get(&key(1)).unwrap();
    assert_eq!(peers.len(), 2);
    assert_eq!(peers.get(&key(2)), Some(&Ingress { pruned: false, timestamp: 10 }));
    assert_eq!(peers.get(&key(3)), Some(&Ingress { pruned: false, timestamp: 20 }));
    let old = push.process_push_message(&mut crds, &key(2), record(0, 1, 6), 30).unwrap();
    assert_eq!(old.unwrap().value, record(0, 1, 5));
    // a value that comes too late is not recorded
    assert_eq!(
        push.process_push_message(&mut crds, &key(9), record(0, 9, 6), 90_000),
        Err(CrdsGossipError::PushMessageTimeout)
    );
    assert!(push.received_cache.get(&key(9)).is_none());
    assert_eq!((push.num_total, push.num_old), (4, 1));
}

#[test]
fn first_byte_of_the_origin_chooses_the_peers() {
    let mut crds = Crds::new();
    let mut push = overlay(&[10, 20, 30]);
    push.push_fanout = 2;
    crds.insert(record(0, 1, 5), 5).unwrap();
    crds.insert(record(1, 2, 5), 5).unwrap();
    crds.insert(record(2, 1, 5), 5).unwrap();
    assert_eq!(push.num_pending(&crds), 3);
    let expected = messages(vec![
        (10, vec![record(1, 2, 5)]),
        (20, vec![record(0, 1, 5), record(2, 1, 5)]),
        (30, vec![record(0, 1, 5), record(1, 2, 5), record(2, 1, 5)]),
    ]);
    assert_eq!(push.new_push_messages(&crds, 5), expected);
    assert_eq!(push.num_pushes, 6);
    assert_eq!(push.num_pending(&crds), 0);
    for number in vec![10, 20, 30] {
        assert_eq!(push.last_pushed_to.peek(&key(number)), Some(5));
    }
    // nothing is pushed twice
    assert_eq!(push.new_push_messages(&crds, 6), messages(vec![]));
    assert_eq!(push.last_pushed_to.peek(&key(10)), Some(5));
    assert_eq!(push.num_pushes, 6);
}

#[test]
fn without_fanout_nothing_is_consumed() {
    let mut crds = Crds::new();
    crds.insert(record(0, 1, 5), 5).unwrap();
    let mut push = CrdsGossipPush::default();
    assert_eq!(push.new_push_messages(&crds, 5), messages(vec![]));
    assert_eq!(push.num_pending(&crds), 1);
    let mut push = overlay(&[10]);
    push.push_fanout = 0;
    assert_eq!(push.new_push_messages(&crds, 5), messages(vec![]));
    assert_eq!(push.num_pending(&crds), 1);
}

#[test]
fn value_that_is_too_many_bytes_is_dropped() {
    let mut crds = Crds::new();
    let mut push = overlay(&[10]);
    push.max_bytes = 250;
    for kind in 0..4 {
        crds.insert(record(kind, 1, 5), 5).unwrap();
    }
    let expected = messages(vec![(10, vec![record(0, 1, 5), record(1, 1, 5)])]);
    assert_eq!(push.new_push_messages(&crds, 5), expected);
    assert_eq!(push.num_pending(&crds), 1);
    assert_eq!(push.crds_cursor.ordinal, 3);
    let expected = messages(vec![(10, vec![record(3, 1, 5)])]);
    assert_eq!(push.new_push_messages(&crds, 5), expected);
    assert_eq!(push.num_pending(&crds), 0);
}

#[test]
fn values_outside_of_the_window_are_dropped_silently() {
    let mut crds = Crds::new();
    let mut push = overlay(&[10]);
    push.max_bytes = 100;
    crds.insert(record(0, 1, 5), 5).unwrap();
    crds.insert(record(1, 1, 50_000), 5).unwrap();
    crds.insert(record(2, 1, 99_999), 5).unwrap();
    let expected = messages(vec![(10, vec![record(1, 1, 50_000)])]);
    assert_eq!(push.new_push_messages(&crds, 50_000), expected);
    assert_eq!(push.num_pending(&crds), 0);
}

#[test]
fn prunes_are_heeded() {
    let mut crds = Crds::new();
    let mut push = overlay(&[10, 20]);
    crds.insert(record(0, 1, 5), 5).unwrap();
    crds.insert(record(0, 2, 5), 5).unwrap();
    push.process_prune_msg(&key(2), &key(10), &[key(1), key(2)]);
    push.process_prune_msg(&key(2), &key(40), &[key(1)]);
    let expected = messages(vec![
        (10, vec![record(0, 2, 5)]),
        (20, vec![record(0, 1, 5), record(0, 2, 5)]),
    ]);
    assert_eq!(push.new_push_messages(&crds, 5), expected);
    assert_eq!(push.num_pushes, 3);
}

#[test]
fn node_gets_its_own_instance_but_not_its_other_values() {
    let mut crds = Crds::new();
    let mut push = overlay(&[10]);
    let instance =
        value(CrdsData::NodeInstance(NodeInstance { from: key(10), wallclock: 5 }), 50);
    crds.insert(record(0, 10, 5), 5).unwrap();
    crds.insert(instance.copy(), 5).unwrap();
    let expected = messages(vec![(10, vec![instance])]);
    assert_eq!(push.new_push_messages(&crds, 5), expected);
}

fn ingress_of(peers: &[u128]) -> (Crds, CrdsGossipPush) {
    let mut crds = Crds::new();
    let mut push = CrdsGossipPush::default();
    for peer in peers {
        let _ = push.process_push_message(&mut crds, &key(*peer), record(0, 1, 5), 5);
    }
    (crds, push)
}

#[test]
fn peers_are_kept_until_they_are_enough() {
    let stakes = stakes_of(&[(1, 100), (9, 100), (2, 10), (3, 20), (4, 30), (5, 1), (7, 0)]);
    let (mut crds, mut push) = ingress_of(&[2, 3, 4, 5, 6, 7]);
    assert_eq!(
        push.prune_candidates(&key(1), &stakes),
        vec![(key(2), 10), (key(3), 20), (key(4), 30), (key(5), 1)]
    );
    // 15 is needed: 1 and 20 have it, and with the origin they are three
    let pruned = push.prune_received_cache_in_order(&key(9), &key(1), &stakes, &vec![3, 1, 0, 2]);
    assert_eq!(pruned, vec![key(2), key(4), key(6), key(7)]);
    for (peer, expected) in
        vec![(2, true), (3, false), (4, true), (5, false), (6, true), (7, true)]
    {
        let peers = push.received_cache.get(&key(1)).unwrap();
        assert_eq!(peers.get(&key(peer)), Some(&Ingress { pruned: expected, timestamp: 5 }));
    }
    // those that were pruned before are told again, and stay pruned when they push
    let _ = push.process_push_message(&mut crds, &key(4), record(0, 1, 5), 8);
    let pruned = push.prune_received_cache(&key(9), &key(1), &stakes);
    assert_eq!(pruned, vec![key(2), key(4), key(6), key(7)]);
    let peers = push.received_cache.get(&key(1)).unwrap();
    assert_eq!(peers.get(&key(4)), Some(&Ingress { pruned: true, timestamp: 8 }));
}

#[test]
fn one_heavy_peer_is_not_enough() {
    let stakes = stakes_of(&[(1, 100), (9, 100), (2, 1000), (3, 1), (4, 1)]);
    let (_, mut push) = ingress_of(&[2, 3, 4]);
    let pruned = push.prune_received_cache_in_order(&key(9), &key(1), &stakes, &vec![0, 2, 1]);
    assert_eq!(pruned, vec![key(3)]);
}

#[test]
fn origin_is_kept_and_not_counted_as_a_peer() {
    let stakes = stakes_of(&[(1, 100), (9, 100), (2, 50), (3, 50), (4, 50)]);
    let (_, mut push) = ingress_of(&[1, 2, 3, 4]);
    let pruned = push.prune_received_cache_in_order(&key(9), &key(1), &stakes, &vec![0, 3, 1, 2]);
    assert_eq!(pruned, vec![key(3)]);
    let peers = push.received_cache.get(&key(1)).unwrap();
    assert!(!peers.get(&key(1)).unwrap().pruned);
}

#[test]
fn nothing_is_pruned_below_the_threshold() {
    let stakes = stakes_of(&[(1, 100), (9, 100), (2, 14)]);
    let (_, mut push) = ingress_of(&[2, 3]);
    assert_eq!(push.prune_received_cache(&key(9), &key(1), &stakes), vec![]);
    assert_eq!(push.prune_received_cache(&key(9), &key(8), &stakes), vec![]);
    let stakes = stakes_of(&[(1, 100), (9, 100), (2, 15)]);
    assert_eq!(push.prune_received_cache(&key(9), &key(1), &stakes), vec![key(3)]);
}

#[test]
fn pruning_leaves_enough_stake() {
    let numbers: Vec<u128> = (10..60).collect();
    for round in 0..20 {
        let entries: Vec<(u128, u64)> =
            numbers.iter().map(|n| (*n, ((*n as u64) * 7 + round) % 13)).collect();
        let mut stakes = stakes_of(&entries);
        stakes.insert(key(1), 500);
        stakes.insert(key(9), 400);
        let (_, mut push) = ingress_of(&numbers);
        let pruned = push.prune_received_cache(&key(9), &key(1), &stakes);
        let kept: u64 = entries
            .iter()
            .filter(|(n, _)| !pruned.contains(&key(*n)))
            .map(|(_, stake)| *stake)
            .sum();
        assert!(!pruned.is_empty());
        assert!(kept >= CrdsGossipPush::prune_stake_threshold(400, 500));
    }
}

#[test]
fn orders_of_pruning_vary() {
    let numbers: Vec<u128> = (10..60).collect();
    let entries: Vec<(u128, u64)> = numbers.iter().map(|n| (*n, 10)).collect();
    let mut stakes = stakes_of(&entries);
    stakes.insert(key(1), 100);
    stakes.insert(key(9), 100);
    let runs: Vec<Vec<Pubkey>> = (0..10)
        .map(|_| ingress_of(&numbers).1.prune_received_cache(&key(9), &key(1), &stakes))
        .collect();
    assert!(runs.iter().all(|pruned| pruned.len() == 48));
    assert!(runs.iter().any(|pruned| *pruned != runs[0]));
}

#[test]
fn purges_keep_recent_peers() {
    let mut crds = Crds::new();
    let mut push = CrdsGossipPush::default();
    for (origin, peer, now) in vec![(1, 2, 10), (1, 3, 20), (4, 2, 10)] {
        push.process_push_message(&mut crds, &key(peer), record(now as u32, origin, 5), now)
            .unwrap();
    }
    push.purge_old_received_cache(9);
    assert_eq!(push.received_cache.len(), 2);
    push.purge_old_received_cache(10);
    assert_eq!(push.received_cache.len(), 1);
    let peers = push.received_cache.get(&key(1)).unwrap();
    assert_eq!(peers.len(), 1);
    assert_eq!(peers.get(&key(3)), Some(&Ingress { pruned: false, timestamp: 20 }));
    push.purge_old_received_cache(20);
    assert_eq!(push.received_cache.len(), 0);
}

#[test]
fn two_purges_do_what_the_later_one_does() {
    let (_, mut push) = ingress_of(&[2, 3]);
    let mut crds = Crds::new();
    let _ = push.process_push_message(&mut crds, &key(4), record(0, 1, 5), 9);
    let mut copy = push.mock_clone();
    push.purge_old_received_cache(7);
    push.purge_old_received_cache(3);
    copy.purge_old_received_cache(7);
    assert_eq!(push.received_cache, copy.received_cache);
    assert_eq!(push.received_cache.get(&key(1)).unwrap().len(), 1);
}

#[test]
fn newer_version_wins_in_either_order() {
    let (older, newer) = (record(0, 1, 5), record(0, 1, 6));
    let mut crds = Crds::new();
    let mut push = CrdsGossipPush::default();
    assert_eq!(push.process_push_message(&mut crds, &key(2), newer.copy(), 5), Ok(None));
    assert_eq!(
        push.process_push_message(&mut crds, &key(2), older.copy(), 5),
        Err(CrdsGossipError::PushMessageOldVersion)
    );
    assert_eq!(crds.lookup(&newer.label()), Some(&newer));
    let mut crds = Crds::new();
    assert_eq!(push.process_push_message(&mut crds, &key(2), older.copy(), 5), Ok(None));
    assert!(push.process_push_message(&mut crds, &key(2), newer.copy(), 5).is_ok());
    assert_eq!(crds.lookup(&newer.label()), Some(&newer));
    assert_eq!(crds.len(), 1);
}

#[test]
fn refresh_replaces_one_of_ratio() {
    let mut push = overlay(&[10, 20, 30, 40]);
    push.num_active = 4;
    let order = vec![0, 1, 2, 3];
    let rotation = vec![key(20), key(40), key(10), key(30)];
    push.refresh_push_active_set_in_order(
        &options(&[40, 50, 10, 60]),
        &order,
        &rotation,
        1,
        2,
    );
    assert_eq!(active_keys(&push.active_set), vec![key(10), key(30), key(50), key(60)]);
    assert!(push.active_set.get(&key(50)).unwrap().contains(&key(50)));
    // without options nobody leaves
    push.refresh_push_active_set(&vec![], &vec![], 1, 1);
    assert_eq!(active_keys(&push.active_set), vec![key(10), key(30), key(50), key(60)]);
}

#[test]
fn refresh_fills_the_active_set() {
    let numbers: Vec<u128> = (1..=100).collect();
    let inverse = vec![1; 100];
    let mut push = CrdsGossipPush::default();
    push.refresh_push_active_set(&options(&numbers), &inverse, 1, 10);
    assert_eq!(push.active_set.len(), 30);
    let mut seen = PubkeySet::new();
    for _ in 0..20 {
        let before = active_keys(&push.active_set);
        push.refresh_push_active_set(&options(&numbers), &inverse, 1, 10);
        let after = active_keys(&push.active_set);
        assert_eq!(after.len(), 30);
        let left: Vec<&Pubkey> = before.iter().filter(|peer| !after.contains(peer)).collect();
        assert_eq!(left.len(), 3);
        for peer in left {
            seen.insert(*peer, ());
        }
    }
    assert!(seen.len() > 3);
    // fewer options than are missing
    let mut push = CrdsGossipPush::default();
    push.refresh_push_active_set(&options(&[1, 2]), &vec![1, 1], 1, 1);
    assert_eq!(push.active_set.len(), 2);
}

#[test]
fn options_tell_stake_and_time() {
    let mut crds = Crds::new();
    let mut push = CrdsGossipPush::default();
    let now = 10_000_000;
    for number in 1..=3 {
        crds.insert(value(CrdsData::ContactInfo(info(number)), 10), now).unwrap();
    }
    crds.insert(record(0, 4, now), now).unwrap();
    push.last_pushed_to.put(key(1), now - 2_048);
    push.last_pushed_to.put(key(2), now + 5);
    let stakes = stakes_of(&[(2, 77)]);
    let found = push.push_options(&crds, &key(9), 0, &stakes, None, now);
    assert_eq!(
        found,
        vec![
            PushOption { info: info(1), since: 2, stake: 0 },
            PushOption { info: info(2), since: 0, stake: 77 },
            PushOption { info: info(3), since: 3_515, stake: 0 },
        ]
    );
    let found = push.push_options(&crds, &key(2), 0, &stakes, None, now);
    assert_eq!(found.len(), 2);
    let mut unreachable = info(5);
    unreachable.gossip.port = 0;
    crds.insert(value(CrdsData::ContactInfo(unreachable), 10), now).unwrap();
    assert_eq!(push.push_options(&crds, &key(9), 0, &stakes, None, now).len(), 3);
}

#[test]
fn stale_nodes_are_options_by_chance_and_stake() {
    let mut crds = Crds::new();
    let push = CrdsGossipPush::default();
    let now = 10_000_000;
    crds.insert(value(CrdsData::ContactInfo(info(1)), 10), now - 60_000).unwrap();
    crds.insert(value(CrdsData::ContactInfo(info(2)), 10), now - 60_001).unwrap();
    crds.insert(value(CrdsData::ContactInfo(info(3)), 10), now - 60_001).unwrap();
    let stakes = stakes_of(&[(2, 1)]);
    let mut retried = 0;
    for _ in 0..2000 {
        let found = push.push_options(&crds, &key(9), 0, &stakes, None, now);
        let ids: Vec<Pubkey> = found.iter().map(|option| option.info.id).collect();
        assert!(ids.contains(&key(1)) && !ids.contains(&key(3)));
        if ids.contains(&key(2)) {
            retried += 1;
        }
    }
    assert!(50 < retried && retried < 250);
    let retries = vec![false, true, true];
    let found = push.push_options_with_retries(&crds, &retries, &key(9), 0, &stakes, None, now);
    assert_eq!(found.len(), 2);
    let retries = vec![true, false, true];
    let found = push.push_options_with_retries(&crds, &retries, &key(9), 0, &stakes, None, now);
    assert_eq!(found.len(), 1);
}

#[test]
fn clones_act_alike() {
    let stakes = stakes_of(&[(1, 100), (9, 100), (2, 50), (3, 50), (4, 50)]);
    let (mut crds, mut push) = ingress_of(&[2, 3, 4]);
    push.refresh_push_active_set_in_order(&options(&[10, 20, 30]), &vec![0, 1, 2], &vec![], 1, 1);
    push.process_prune_msg(&key(9), &key(20), &[key(1)]);
    push.last_pushed_to.put(key(7), 3);
    push.push_fanout = 2;
    let mut copy = push.mock_clone();
    assert_eq!(active_keys(&copy.active_set), active_keys(&push.active_set));
    assert_eq!(copy.received_cache, push.received_cache);
    assert_eq!(copy.last_pushed_to.peek(&key(7)), Some(3));
    assert_eq!((copy.num_total, copy.num_old, copy.num_pushes), (3, 2, 0));
    assert_eq!(copy.push_fanout, 2);
    crds.insert(record(5, 1, 5), 5).unwrap();
    let messages = push.new_push_messages(&crds, 5);
    assert_eq!(copy.new_push_messages(&crds, 5), messages);
    assert_eq!(messages.len(), 1);
    assert_eq!(copy.crds_cursor, push.crds_cursor);
    let order = vec![1, 2, 0];
    assert_eq!(
        copy.prune_received_cache_in_order(&key(9), &key(1), &stakes, &order),
        push.prune_received_cache_in_order(&key(9), &key(1), &stakes, &order)
    );
}

#[test]
fn second_prune_tells_all_that_the_first_told() {
    let numbers: Vec<u128> = (10..40).collect();
    let entries: Vec<(u128, u64)> = numbers.iter().map(|n| (*n, (*n as u64) % 5)).collect();
    let mut stakes = stakes_of(&entries);
    stakes.insert(key(1), 100);
    stakes.insert(key(9), 100);
    for _ in 0..20 {
        let (_, mut push) = ingress_of(&numbers);
        let first = push.prune_received_cache(&key(9), &key(1), &stakes);
        let second = push.prune_received_cache(&key(9), &key(1), &stakes);
        assert!(!first.is_empty());
        assert!(first.iter().all(|peer| second.contains(peer)));
        let peers = push.received_cache.get(&key(1)).unwrap();
        assert!(first.iter().all(|peer| peers.get(peer).unwrap().pruned));
    }
}

#[test]
fn origin_is_never_pruned_as_its_own_source() {
    let stakes = stakes_of(&[(1, 0), (9, 100), (2, 50), (3, 50), (4, 50)]);
    let (mut crds, mut push) = ingress_of(&[1, 2, 3, 4]);
    for now in 6..12 {
        let pruned = push.prune_received_cache(&key(9), &key(1), &stakes);
        assert!(!pruned.is_empty() && !pruned.contains(&key(1)));
        let _ = push.process_push_message(&mut crds, &key(1), record(0, 1, 5), now);
        push.purge_old_received_cache(4);
        let copy = push.mock_clone();
        for overlay in vec![&push, &copy] {
            let own = overlay.received_cache.get(&key(1)).unwrap().get(&key(1)).unwrap();
            assert_eq!(*own, Ingress { pruned: false, timestamp: now });
        }
    }
}

#[test]
fn pruned_origin_stays_pruned_while_the_peer_is_active() {
    let mut crds = Crds::new();
    let mut push = overlay(&[10, 20, 30]);
    push.num_active = 3;
    push.process_prune_msg(&key(9), &key(10), &[key(1)]);
    push.process_prune_msg(&key(9), &key(10), &[key(2), key(3)]);
    push.process_prune_msg(&key(9), &key(20), &[key(4)]);
    let rotation = vec![key(30), key(10), key(20)];
    push.refresh_push_active_set_in_order(&options(&[40, 50]), &vec![0, 1], &rotation, 1, 3);
    assert_eq!(active_keys(&push.active_set), vec![key(10), key(20), key(40)]);
    for kind in 0..3 {
        crds.insert(record(kind, 1, 5), 5).unwrap();
        let values = vec![record(kind, 1, 5)];
        let expected = messages(vec![(20, vec![values[0].copy()]), (40, values)]);
        assert_eq!(push.new_push_messages(&crds, 5), expected);
    }
}

#[test]
fn no_value_is_pushed_twice() {
    let mut crds = Crds::new();
    let mut push = overlay(&[10, 20]);
    push.max_bytes = 300;
    for kind in 0..20 {
        crds.insert(record(kind, 1, 5), 5).unwrap();
    }
    let mut seen: Vec<CrdsValue> = Vec::new();
    let mut now = 5;
    while push.num_pending(&crds) > 0 {
        let cursor = push.crds_cursor.ordinal;
        let messages = push.new_push_messages(&crds, now);
        let values = messages.get(&key(10)).unwrap();
        assert_eq!(messages.get(&key(20)), Some(values));
        for value in values {
            assert!(!seen.contains(value));
            seen.push(value.copy());
        }
        assert!(push.crds_cursor.ordinal > cursor);
        push.process_prune_msg(&key(9), &key(10), &[key(2)]);
        now += 1;
    }
    // of every four values, the last one made too many bytes
    assert_eq!(seen.len(), 15);
}

#[test]
fn nothing_is_pending_where_all_that_is_fresh_fits() {
    let mut crds = Crds::new();
    let mut push = overlay(&[10]);
    push.max_bytes = 200;
    push.process_prune_msg(&key(9), &key(10), &[key(2)]);
    crds.insert(record(0, 1, 5), 5).unwrap();
    crds.insert(record(0, 2, 5), 5).unwrap();
    crds.insert(record(1, 1, 90_000), 5).unwrap();
    assert_eq!(push.num_pending(&crds), 3);
    let expected = messages(vec![(10, vec![record(0, 1, 5)])]);
    assert_eq!(push.new_push_messages(&crds, 5), expected);
    assert_eq!(push.num_pending(&crds), 0);
}

#[test]
fn node_is_not_its_own_peer() {
    let mut crds = Crds::new();
    let now = 10_000_000;
    for number in 1..=5 {
        crds.insert(value(CrdsData::ContactInfo(info(number)), 10), now).unwrap();
    }
    let mut push = CrdsGossipPush::default();
    for _ in 0..20 {
        let found = push.push_options(&crds, &key(3), 0, &PubkeyMap::new(), None, now);
        let inverse = vec![1; found.len()];
        push.refresh_push_active_set(&found, &inverse, 1, 1);
        assert!(push.active_set.get(&key(3)).is_none());
    }
}
