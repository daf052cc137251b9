//! The parts of the overlay, one by one.

use crds_gossip_push::active_set::ActiveSet;
use crds_gossip_push::bloom::Bloom;
use crds_gossip_push::crds::{Crds, CrdsError, Cursor};
use crds_gossip_push::crds_gossip_push::CrdsGossipPush;
use crds_gossip_push::crds_value::{
    ContactInfo, CrdsData, CrdsValue, CrdsValueLabel, Digest, IpAddr, NodeInstance, Record,
    SocketAddr,
};
use crds_gossip_push::double::to_double;
use crds_gossip_push::pending::{first_entry_since, wallclock_bounds};
use crds_gossip_push::pubkey::Pubkey;
use crds_gossip_push::pubkey_map::PubkeyMap;
use crds_gossip_push::push_times::PushTimes;
use crds_gossip_push::received_cache::{record_received, Ingress, ReceivedCache};
use crds_gossip_push::rotation::{active_keys, bloom_items, pick, rotate_in, rotate_out};
use crds_gossip_push::weighted_shuffle::{
    order_by_rank, shuffle_by_inverse_weight, weighted_shuffle,
};
use rand::distributions::Uniform;
use rand::{Rng, SeedableRng};
use rand_chacha::ChaChaRng;
use std::sync::Arc;

fn key(number: u128) -> Pubkey {
    Pubkey { hi: number << 120, lo: number }
}

fn record(kind: u32, from: Pubkey, wallclock: u64, digest: u128) -> CrdsValue {
    CrdsValue {
        data: CrdsData::Record(Record { kind, from, wallclock }),
        digest: Digest { hi: 0, lo: digest },
        payload: Arc::new(vec![0; 10]),
    }
}

#[test]
fn bytes_of_keys_are_big_endian() {
    let key = Pubkey {
        hi: 0x0102_0304_0506_0708_090a_0b0c_0d0e_0f10,
        lo: 0x1112_1314_1516_1718_191a_1b1c_1d1e_1f20,
    };
    for i in 0..32 {
        assert_eq!(key.byte(i), i as u8 + 1);
    }
    assert!(Pubkey { hi: 1, lo: 9 }.is_before(&Pubkey { hi: 2, lo: 0 }));
    assert!(Pubkey { hi: 1, lo: 8 }.is_before(&Pubkey { hi: 1, lo: 9 }));
    assert!(!key.is_before(&key));
}

#[test]
fn map_finds_what_was_inserted() {
    let mut map: PubkeyMap<u32> = PubkeyMap::new();
    for number in vec![5, 1, 9, 3, 7] {
        map.insert(key(number), number as u32);
    }
    map.insert(key(9), 90);
    assert_eq!(map.len(), 5);
    for index in 0..5 {
        assert_eq!(map.key_at(index), key(2 * index as u128 + 1));
    }
    assert_eq!(map.get(&key(9)), Some(&90));
    assert_eq!(map.get(&key(2)), None);
    assert!(map.contains_key(&key(1)) && !map.contains_key(&key(0)));
    *map.get_mut(&key(3)).unwrap() = 30;
    assert_eq!(*map.value_at(1), 30);
    assert!(map.get_mut(&key(4)).is_none());
    map.push_last(key(11), 11);
    assert_eq!(map.get(&key(11)), Some(&11));
}

#[test]
fn threshold_is_that_of_doubles() {
    let mut rng = rand::thread_rng();
    let mut stakes: Vec<u64> = (0..5000).collect();
    for shift in 0..64 {
        for _ in 0..200 {
            stakes.push(rng.gen::<u64>() >> shift);
        }
    }
    stakes.push(u64::MAX);
    for stake in stakes {
        let expected = ((0.15_f64 * stake as f64).round() as u64).max(1);
        assert_eq!(CrdsGossipPush::prune_stake_threshold(stake, u64::MAX), expected);
        assert_eq!(CrdsGossipPush::prune_stake_threshold(u64::MAX, stake), expected);
    }
    assert_eq!(CrdsGossipPush::prune_stake_threshold(100, 100), 15);
    assert_eq!(CrdsGossipPush::prune_stake_threshold(0, 100), 1);
    assert_eq!(CrdsGossipPush::prune_stake_threshold(10, 1000), 2);
}

#[test]
fn doubles_are_those_of_the_machine() {
    let mut rng = rand::thread_rng();
    for shift in 1..128 {
        for _ in 0..100 {
            let number = rng.gen::<u128>() >> shift;
            assert_eq!(to_double(number), number as f64 as u128);
        }
    }
    assert_eq!(to_double(9_007_199_254_740_993), 9_007_199_254_740_992);
    assert_eq!(to_double(9_007_199_254_740_995), 9_007_199_254_740_996);
}

#[test]
fn filters_are_of_the_best_size() {
    for items in 0..20_000_usize {
        let n = items as f64;
        let m = ((n * 0.1_f64.ln()) / (1_f64 / 2_f64.powf(2_f64.ln())).ln()).ceil();
        let bits = std::cmp::max(1, std::cmp::min(m as usize, 32_768));
        let keys =
            if items == 0 { 0.0 } else { 1_f64.max(((bits as f64 / n) * 2_f64.ln()).round()) };
        assert_eq!(Bloom::num_bits(items, 32_768), bits);
        assert_eq!(Bloom::num_keys(bits, items), keys as usize);
    }
    assert_eq!(Bloom::num_bits(500, 32_768), 2_397);
    assert_eq!(Bloom::num_keys(2_397, 500), 3);
    assert_eq!(Bloom::num_bits(0, 32_768), 1);
    assert_eq!(bloom_items(1), 500);
    assert_eq!(bloom_items(501), 501);
}

#[test]
fn filters_hold_what_was_added() {
    let mut bloom = Bloom::random(500, 32_768);
    assert!(!bloom.contains(&key(1)));
    for number in 0..100 {
        bloom.add(&key(number));
    }
    for number in 0..100 {
        assert!(bloom.contains(&key(number)));
    }
    let claimed = (1000..2000).filter(|number| bloom.contains(&key(*number))).count();
    assert!(claimed < 100);
    let copy = bloom.mock_clone();
    assert_eq!(format!("{:?}", copy), format!("{:?}", bloom));
}

#[test]
fn filters_have_random_hash_keys() {
    let one = Bloom::random(500, 32_768);
    let other = Bloom::random(500, 32_768);
    assert_ne!(format!("{:?}", one), format!("{:?}", other));
}

#[test]
fn ranks_decide_the_order() {
    assert_eq!(order_by_rank(&vec![30, 10, 20, 10]), vec![1, 3, 2, 0]);
    assert_eq!(order_by_rank(&vec![]), Vec::<usize>::new());
}

#[test]
fn seeds_decide_the_shuffle() {
    let weights: Vec<u64> = vec![5, 100, 1, 30, 64, 9, 1000, 2];
    let total: u64 = weights.iter().sum();
    let inverse: Vec<u64> = weights.iter().map(|weight| total / weight).collect();
    for number in 0..50 {
        let seed = [number as u8; 32];
        let draws: Vec<u64> = ChaChaRng::from_seed(seed)
            .sample_iter(Uniform::new(1, u64::from(u16::MAX)))
            .take(weights.len())
            .collect();
        let mut expected: Vec<usize> = (0..weights.len()).collect();
        expected.sort_by_key(|i| u128::from(draws[*i]) * u128::from(inverse[*i]));
        assert_eq!(weighted_shuffle(&weights, &seed), expected);
        assert_eq!(shuffle_by_inverse_weight(&inverse, &seed), expected);
    }
}

#[test]
fn heavy_items_tend_to_come_first() {
    let weights: Vec<u64> = vec![1, 1_000_000, 1];
    let mut first = 0;
    for number in 0..100 {
        if weighted_shuffle(&weights, &[number; 32])[0] == 1 {
            first += 1;
        }
    }
    assert!(first > 95);
}

#[test]
fn last_peer_takes_the_place_of_one_that_leaves() {
    let mut active_set = ActiveSet::new();
    rotate_in(&mut active_set, &vec![key(3), key(1), key(2)], 1);
    assert_eq!(active_keys(&active_set), vec![key(3), key(1), key(2)]);
    rotate_out(&mut active_set, &vec![key(3), key(7), key(1)], 2);
    assert_eq!(active_keys(&active_set), vec![key(2), key(1)]);
    assert_eq!(active_set.len(), 2);
    assert!(active_set.get(&key(3)).is_none());
    assert!(active_set.get(&key(1)).unwrap().contains(&key(1)));
}

#[test]
fn picks_are_the_first_that_are_not_active() {
    let mut active_set = ActiveSet::new();
    rotate_in(&mut active_set, &vec![key(2)], 1);
    let ids = vec![key(1), key(2), key(3), key(1), key(4)];
    let order = vec![3, 1, 0, 4, 2];
    assert_eq!(pick(&ids, &order, &active_set, 5), vec![key(1), key(4), key(3)]);
    assert_eq!(pick(&ids, &order, &active_set, 2), vec![key(1), key(4)]);
    assert_eq!(pick(&ids, &order, &active_set, 0), vec![]);
}

#[test]
fn oldest_push_time_makes_room() {
    let mut times = PushTimes::new(2);
    times.put(key(1), 10);
    times.put(key(2), 20);
    assert_eq!(times.peek(&key(1)), Some(10));
    times.put(key(3), 30);
    assert_eq!(times.peek(&key(1)), None);
    times.put(key(2), 40);
    times.put(key(4), 50);
    assert_eq!(times.peek(&key(2)), Some(40));
    assert_eq!(times.peek(&key(3)), None);
    assert_eq!(times.peek(&key(4)), Some(50));
}

#[test]
fn copied_push_times_age_alike() {
    let mut times = PushTimes::new(3);
    times.put(key(1), 10);
    times.put(key(2), 20);
    times.put(key(3), 30);
    times.put(key(1), 40);
    let mut copy = times.copy();
    copy.put(key(4), 50);
    assert_eq!(copy.peek(&key(2)), None);
    assert_eq!(copy.peek(&key(3)), Some(30));
    assert_eq!(copy.peek(&key(1)), Some(40));
    assert_eq!(copy.peek(&key(4)), Some(50));
    assert_eq!(times.peek(&key(2)), Some(20));
}

#[test]
fn cache_without_room_keeps_no_times() {
    let mut times = PushTimes::new(0);
    times.put(key(1), 10);
    assert_eq!(times.peek(&key(1)), None);
}

#[test]
fn addresses_need_a_port_and_a_host() {
    let valid = |ip, port| ContactInfo::is_valid_address(&SocketAddr { ip, port });
    assert!(valid(IpAddr::V4(0x7f00_0001), 1234));
    assert!(!valid(IpAddr::V4(0x7f00_0001), 0));
    assert!(!valid(IpAddr::V4(0), 1234));
    assert!(!valid(IpAddr::V4(0xe000_0001), 1234));
    assert!(!valid(IpAddr::V4(0xefff_ffff), 1234));
    assert!(valid(IpAddr::V4(0xf000_0000), 1234));
    assert!(valid(IpAddr::V6(1), 1234));
    assert!(!valid(IpAddr::V6(0), 1234));
    assert!(!valid(IpAddr::V6(0xff02 << 112), 1234));
    assert!(valid(IpAddr::V6(0xfe80 << 112), 1234));
}

#[test]
fn values_tell_what_they_hold() {
    let instance = CrdsValue {
        data: CrdsData::NodeInstance(NodeInstance { from: key(4), wallclock: 7 }),
        digest: Digest { hi: 0, lo: 0 },
        payload: Arc::new(vec![1, 2, 3]),
    };
    assert_eq!(instance.pubkey(), key(4));
    assert_eq!(instance.wallclock(), 7);
    assert_eq!(instance.label(), CrdsValueLabel::NodeInstance(key(4)));
    assert_eq!(instance.serialized_size(), 3);
    assert_eq!(instance.contact_info(), None);
    assert!(instance.should_force_push(&key(4)));
    assert!(!instance.should_force_push(&key(5)));
    let copy = instance.copy();
    assert_eq!(copy, instance);
    assert!(Arc::ptr_eq(&copy.payload, &instance.payload));
    assert_eq!(record(3, key(4), 7, 0).label(), CrdsValueLabel::Record(3, key(4)));
}

#[test]
fn table_keeps_the_newest_version() {
    let mut crds = Crds::new();
    assert_eq!(crds.insert(record(0, key(1), 5, 50), 100), Ok(None));
    assert_eq!(crds.insert(record(1, key(1), 5, 50), 101), Ok(None));
    assert_eq!(crds.insert(record(0, key(1), 4, 99), 102), Err(CrdsError::InsertFailed));
    assert_eq!(crds.insert(record(0, key(1), 5, 50), 103), Err(CrdsError::InsertFailed));
    assert_eq!(crds.insert(record(0, key(1), 5, 49), 104), Err(CrdsError::InsertFailed));
    let replaced = crds.insert(record(0, key(1), 5, 51), 105).unwrap().unwrap();
    assert_eq!(replaced.value, record(0, key(1), 5, 50));
    assert_eq!(replaced.ordinal, 0);
    assert_eq!(crds.len(), 2);
    assert_eq!(crds.entry_at(1).ordinal, 2);
    assert_eq!(crds.entry_at(1).local_timestamp, 105);
    assert_eq!(
        crds.lookup(&CrdsValueLabel::Record(0, key(1))),
        Some(&record(0, key(1), 5, 51))
    );
    assert_eq!(crds.lookup(&CrdsValueLabel::Record(2, key(1))), None);
    assert_eq!(first_entry_since(&crds, &Cursor { ordinal: 0 }), 0);
    assert_eq!(first_entry_since(&crds, &Cursor { ordinal: 2 }), 1);
    assert_eq!(first_entry_since(&crds, &Cursor { ordinal: 3 }), 2);
    assert_eq!(crds.end(), Cursor { ordinal: 3 });
}

#[test]
fn windows_end_where_numbers_do() {
    assert_eq!(wallclock_bounds(100, 30), (70, 130));
    assert_eq!(wallclock_bounds(10, 30), (0, 40));
    assert_eq!(wallclock_bounds(u64::MAX - 10, 30), (u64::MAX - 40, u64::MAX));
}

#[test]
fn pruned_peers_stay_pruned() {
    let mut cache: ReceivedCache = PubkeyMap::new();
    record_received(&mut cache, key(1), key(2), 10);
    assert_eq!(
        cache.get(&key(1)).unwrap().get(&key(2)),
        Some(&Ingress { pruned: false, timestamp: 10 })
    );
    cache.get_mut(&key(1)).unwrap().get_mut(&key(2)).unwrap().pruned = true;
    record_received(&mut cache, key(1), key(2), 20);
    record_received(&mut cache, key(1), key(3), 20);
    assert_eq!(
        cache.get(&key(1)).unwrap().get(&key(2)),
        Some(&Ingress { pruned: true, timestamp: 20 })
    );
    assert_eq!(
        cache.get(&key(1)).unwrap().get(&key(3)),
        Some(&Ingress { pruned: false, timestamp: 20 })
    );
    assert_eq!(cache.len(), 1);
}
