//! The overlay in use.

use crds_gossip_push::crds::Crds;
use crds_gossip_push::crds_gossip_error::CrdsGossipError;
use crds_gossip_push::crds_gossip_push::CrdsGossipPush;
use crds_gossip_push::crds_value::{
    ContactInfo, CrdsData, CrdsValue, Digest, IpAddr, SocketAddr,
};
use crds_gossip_push::pubkey::Pubkey;
use crds_gossip_push::pubkey_map::{PubkeyMap, PubkeySet};
use crds_gossip_push::push_options::PushOption;
use rand::Rng;
use std::sync::Arc;
use std::time::{SystemTime, UNIX_EPOCH};

const NOBODY: Pubkey = Pubkey { hi: 0, lo: 0 };

const LOCALHOST: SocketAddr = SocketAddr { ip: IpAddr::V4(0x7f00_0001), port: 1234 };

fn timestamp() -> u64 {
    SystemTime::now().duration_since(UNIX_EPOCH).unwrap().as_millis() as u64
}

fn new_rand() -> Pubkey {
    let mut rng = rand::thread_rng();
    Pubkey { hi: rng.gen(), lo: rng.gen() }
}

fn new_localhost(id: &Pubkey, wallclock: u64) -> ContactInfo {
    ContactInfo { id: *id, gossip: LOCALHOST, wallclock, shred_version: 0 }
}

fn new_rand_contact() -> ContactInfo {
    let delay = 10 * 60 * 1000;
    let now = timestamp() - delay + rand::thread_rng().gen_range(0, 2 * delay);
    new_localhost(&new_rand(), now)
}

fn new_unsigned(info: ContactInfo) -> CrdsValue {
    let payload = bincode::serialize(&(
        0u32,
        info.id.hi,
        info.id.lo,
        info.gossip.port,
        info.wallclock,
        info.shred_version,
    ))
    .unwrap();
    CrdsValue {
        data: CrdsData::ContactInfo(info),
        digest: Digest { hi: info.id.hi, lo: info.id.lo },
        payload: Arc::new(payload),
    }
}

fn weight_of(option: &PushOption) -> f32 {
    let max_weight = u16::MAX as f32 - 1.0;
    let stake = f64::from(u32::MAX).min(option.stake as f64) as f32;
    let weight = option.since as f32 * stake.ln().max(1.0);
    weight.min(max_weight).max(1.0)
}

fn inverse_weights(options: &Vec<PushOption>) -> Vec<u64> {
    let total: f32 = options.iter().map(weight_of).sum();
    options.iter().map(|option| (total / weight_of(option)) as u64).collect()
}

fn refresh(push: &mut CrdsGossipPush, crds: &Crds) {
    let options = push.push_options(crds, &NOBODY, 0, &PubkeyMap::new(), None, timestamp());
    let inverse = inverse_weights(&options);
    push.refresh_push_active_set(&options, &inverse, 1, 1);
}

#[test]
fn test_prune() {
    let mut crds = Crds::new();
    let mut push = CrdsGossipPush::default();
    let mut stakes: PubkeyMap<u64> = PubkeyMap::new();

    let self_id = new_rand();
    let origin = new_rand();
    stakes.insert(self_id, 100);
    stakes.insert(origin, 100);

    let value = new_unsigned(new_localhost(&origin, 0));
    let low_staked_peers = (0..10).map(|_| new_rand());
    let mut low_staked_set = PubkeySet::new();
    low_staked_peers.for_each(|p| {
        let _ = push.process_push_message(&mut crds, &p, value.copy(), 0);
        low_staked_set.insert(p, ());
        stakes.insert(p, 1);
    });

    let pruned = push.prune_received_cache(&self_id, &origin, &stakes);
    assert!(pruned.is_empty(), "should not prune if min threshold has not been reached");

    let high_staked_peer = new_rand();
    let high_stake = CrdsGossipPush::prune_stake_threshold(100, 100) + 10;
    stakes.insert(high_staked_peer, high_stake);
    let _ = push.process_push_message(&mut crds, &high_staked_peer, value, 0);

    let pruned = push.prune_received_cache(&self_id, &origin, &stakes);
    assert!(pruned.len() < low_staked_set.len() + 1, "should not prune all peers");
    pruned.iter().for_each(|p| {
        assert!(low_staked_set.contains_key(p), "only low staked peers should be pruned");
    });
}

#[test]
fn test_process_push_one() {
    let mut crds = Crds::new();
    let mut push = CrdsGossipPush::default();
    let value = new_unsigned(new_localhost(&new_rand(), 0));
    let label = value.label();
    // push a new message
    assert_eq!(push.process_push_message(&mut crds, &NOBODY, value.copy(), 0), Ok(None));
    assert_eq!(crds.lookup(&label), Some(&value));

    // push it again
    assert!(matches!(
        push.process_push_message(&mut crds, &NOBODY, value, 0),
        Err(CrdsGossipError::PushMessageOldVersion)
    ));
}

#[test]
fn test_process_push_old_version() {
    let mut crds = Crds::new();
    let mut push = CrdsGossipPush::default();
    let mut ci = new_localhost(&new_rand(), 0);
    ci.wallclock = 1;
    let value = new_unsigned(ci);

    // push a new message
    assert_eq!(push.process_push_message(&mut crds, &NOBODY, value, 0), Ok(None));

    // push an old version
    ci.wallclock = 0;
    let value = new_unsigned(ci);
    assert_eq!(
        push.process_push_message(&mut crds, &NOBODY, value, 0),
        Err(CrdsGossipError::PushMessageOldVersion)
    );
}

#[test]
fn test_process_push_timeout() {
    let mut crds = Crds::new();
    let mut push = CrdsGossipPush::default();
    let timeout = push.msg_timeout;
    let mut ci = new_localhost(&new_rand(), 0);

    // push a version too far in the future
    ci.wallclock = timeout + 1;
    let value = new_unsigned(ci);
    assert_eq!(
        push.process_push_message(&mut crds, &NOBODY, value, 0),
        Err(CrdsGossipError::PushMessageTimeout)
    );

    // push a version too far in the past
    ci.wallclock = 0;
    let value = new_unsigned(ci);
    assert_eq!(
        push.process_push_message(&mut crds, &NOBODY, value, timeout + 1),
        Err(CrdsGossipError::PushMessageTimeout)
    );
}

#[test]
fn test_process_push_update() {
    let mut crds = Crds::new();
    let mut push = CrdsGossipPush::default();
    let mut ci = new_localhost(&new_rand(), 0);
    ci.wallclock = 0;
    let value_old = new_unsigned(ci);

    // push a new message
    assert_eq!(push.process_push_message(&mut crds, &NOBODY, value_old.copy(), 0), Ok(None));

    // push a newer version
    ci.wallclock = 1;
    let value = new_unsigned(ci);
    assert_eq!(
        push.process_push_message(&mut crds, &NOBODY, value, 0).unwrap().unwrap().value,
        value_old
    );
}

#[test]
fn test_compute_need() {
    assert_eq!(CrdsGossipPush::compute_need(30, 0, 10), 30);
    assert_eq!(CrdsGossipPush::compute_need(30, 1, 10), 29);
    assert_eq!(CrdsGossipPush::compute_need(30, 30, 10), 3);
    assert_eq!(CrdsGossipPush::compute_need(30, 29, 10), 3);
}

#[test]
fn test_refresh_active_set() {
    let now = timestamp();
    let mut crds = Crds::new();
    let mut push = CrdsGossipPush::default();
    let value1 = new_unsigned(new_localhost(&new_rand(), 0));

    assert_eq!(crds.insert(value1.copy(), now), Ok(None));
    refresh(&mut push, &crds);

    assert!(push.active_set.get(&value1.pubkey()).is_some());
    let value2 = new_unsigned(new_localhost(&new_rand(), 0));
    assert!(push.active_set.get(&value2.pubkey()).is_none());
    assert_eq!(crds.insert(value2.copy(), now), Ok(None));
    for _ in 0..30 {
        refresh(&mut push, &crds);
        if push.active_set.get(&value2.pubkey()).is_some() {
            break;
        }
    }
    assert!(push.active_set.get(&value2.pubkey()).is_some());

    for _ in 0..push.num_active {
        let value2 = new_unsigned(new_localhost(&new_rand(), 0));
        assert_eq!(crds.insert(value2.copy(), now), Ok(None));
    }
    refresh(&mut push, &crds);
    assert_eq!(push.active_set.len(), push.num_active);
}

#[test]
fn test_active_set_refresh_with_bank() {
    let time = timestamp() - 1024; // make sure there is at least a 1 second delay
    let mut crds = Crds::new();
    let mut push = CrdsGossipPush::default();
    let mut stakes: PubkeyMap<u64> = PubkeyMap::new();
    for i in 1..=100 {
        let peer = new_unsigned(new_localhost(&new_rand(), time));
        let id = peer.pubkey();
        crds.insert(peer.copy(), time).unwrap();
        stakes.insert(id, i * 100);
        push.last_pushed_to.put(id, time);
    }
    let mut options = push.push_options(&crds, &NOBODY, 0, &stakes, None, timestamp());
    assert!(!options.is_empty());
    options.sort_by(|l, r| weight_of(r).partial_cmp(&weight_of(l)).unwrap());
    // check that the highest stake holder is also the heaviest weighted
    assert_eq!(*stakes.get(&options.get(0).unwrap().info.id).unwrap(), 10_000_u64);
}

#[test]
fn test_no_pushes_to_from_different_shred_versions() {
    let now = timestamp();
    let mut crds = Crds::new();
    let stakes: PubkeyMap<u64> = PubkeyMap::new();
    let node = CrdsGossipPush::default();

    let gossip = LOCALHOST;
    let me = new_unsigned(ContactInfo { id: new_rand(), shred_version: 123, gossip, wallclock: 0 });
    let spy = new_unsigned(ContactInfo { id: new_rand(), shred_version: 0, gossip, wallclock: 0 });
    let node_123 =
        new_unsigned(ContactInfo { id: new_rand(), shred_version: 123, gossip, wallclock: 0 });
    let node_456 =
        new_unsigned(ContactInfo { id: new_rand(), shred_version: 456, gossip, wallclock: 0 });

    crds.insert(me.copy(), now).unwrap();
    crds.insert(spy.copy(), now).unwrap();
    crds.insert(node_123.copy(), now).unwrap();
    crds.insert(node_456, now).unwrap();

    // shred version 123 should ignore nodes with versions 0 and 456
    let options = node
        .push_options(&crds, &me.pubkey(), 123, &stakes, None, timestamp())
        .iter()
        .map(|option| option.info.id)
        .collect::<Vec<_>>();
    assert_eq!(options.len(), 1);
    assert!(!options.contains(&spy.pubkey()));
    assert!(options.contains(&node_123.pubkey()));

    // spy nodes should not push to people on different shred versions
    let options = node
        .push_options(&crds, &spy.pubkey(), 0, &stakes, None, timestamp())
        .iter()
        .map(|option| option.info.id)
        .collect::<Vec<_>>();
    assert!(options.is_empty());
}

#[test]
fn test_pushes_only_to_allowed() {
    let now = timestamp();
    let mut crds = Crds::new();
    let stakes: PubkeyMap<u64> = PubkeyMap::new();
    let node = CrdsGossipPush::default();
    let gossip = LOCALHOST;

    let me = new_unsigned(ContactInfo { id: new_rand(), gossip, wallclock: 0, shred_version: 0 });
    let node_123 =
        new_unsigned(ContactInfo { id: new_rand(), gossip, wallclock: 0, shred_version: 0 });

    crds.insert(me.copy(), 0).unwrap();
    crds.insert(node_123.copy(), now).unwrap();

    // no pubkey in gossip_validators -- will push to nobody
    let mut gossip_validators = PubkeySet::new();
    let options =
        node.push_options(&crds, &me.pubkey(), 0, &stakes, Some(&gossip_validators), timestamp());
    assert!(options.is_empty());

    // unknown pubkey in gossip_validators -- will push to nobody
    gossip_validators.insert(new_rand(), ());
    let options =
        node.push_options(&crds, &me.pubkey(), 0, &stakes, Some(&gossip_validators), timestamp());
    assert!(options.is_empty());

    // node_123 pubkey in gossip_validators -- will push to it
    gossip_validators.insert(node_123.pubkey(), ());
    let options =
        node.push_options(&crds, &me.pubkey(), 0, &stakes, Some(&gossip_validators), timestamp());
    assert_eq!(options.len(), 1);
    assert_eq!(options[0].info.id, node_123.pubkey());
}

#[test]
fn test_new_push_messages() {
    let now = timestamp();
    let mut crds = Crds::new();
    let mut push = CrdsGossipPush::default();
    let peer = new_unsigned(new_localhost(&new_rand(), 0));
    assert_eq!(crds.insert(peer.copy(), now), Ok(None));
    refresh(&mut push, &crds);

    let new_msg = new_unsigned(new_localhost(&new_rand(), 0));
    let mut expected: PubkeyMap<Vec<CrdsValue>> = PubkeyMap::new();
    expected.insert(peer.pubkey(), vec![new_msg.copy()]);
    assert_eq!(push.process_push_message(&mut crds, &NOBODY, new_msg, 0), Ok(None));
    assert_eq!(push.active_set.len(), 1);
    assert_eq!(push.new_push_messages(&crds, 0), expected);
}

#[test]
fn test_personalized_push_messages() {
    let now = timestamp();
    let mut crds = Crds::new();
    let mut push = CrdsGossipPush::default();
    let peers: Vec<_> = vec![0, 0, now]
        .into_iter()
        .map(|wallclock| {
            let mut peer = new_rand_contact();
            peer.wallclock = wallclock;
            new_unsigned(peer)
        })
        .collect();
    assert_eq!(crds.insert(peers[0].copy(), now), Ok(None));
    assert_eq!(crds.insert(peers[1].copy(), now), Ok(None));
    assert_eq!(push.process_push_message(&mut crds, &NOBODY, peers[2].copy(), now), Ok(None));
    refresh(&mut push, &crds);

    // push the contact info of the last one to the other two
    let mut expected: PubkeyMap<Vec<CrdsValue>> = PubkeyMap::new();
    expected.insert(peers[0].pubkey(), vec![peers[2].copy()]);
    expected.insert(peers[1].pubkey(), vec![peers[2].copy()]);
    assert_eq!(push.active_set.len(), 3);
    assert_eq!(push.new_push_messages(&crds, now), expected);
}

#[test]
fn test_process_prune() {
    let mut crds = Crds::new();
    let self_id = new_rand();
    let mut push = CrdsGossipPush::default();
    let peer = new_unsigned(new_localhost(&new_rand(), 0));
    assert_eq!(crds.insert(peer.copy(), 0), Ok(None));
    refresh(&mut push, &crds);

    let new_msg = new_unsigned(new_localhost(&new_rand(), 0));
    let expected: PubkeyMap<Vec<CrdsValue>> = PubkeyMap::new();
    assert_eq!(push.process_push_message(&mut crds, &NOBODY, new_msg.copy(), 0), Ok(None));
    push.process_prune_msg(&self_id, &peer.pubkey(), &[new_msg.pubkey()]);
    assert_eq!(push.new_push_messages(&crds, 0), expected);
}

#[test]
fn test_purge_old_pending_push_messages() {
    let mut crds = Crds::new();
    let mut push = CrdsGossipPush::default();
    let peer = new_unsigned(new_localhost(&new_rand(), 0));
    assert_eq!(crds.insert(peer, 0), Ok(None));
    refresh(&mut push, &crds);

    let mut ci = new_localhost(&new_rand(), 0);
    ci.wallclock = 1;
    let new_msg = new_unsigned(ci);
    let expected: PubkeyMap<Vec<CrdsValue>> = PubkeyMap::new();
    assert_eq!(push.process_push_message(&mut crds, &NOBODY, new_msg, 1), Ok(None));
    assert_eq!(push.new_push_messages(&crds, 0), expected);
}

#[test]
fn test_purge_old_received_cache() {
    let mut crds = Crds::new();
    let mut push = CrdsGossipPush::default();
    let mut ci = new_localhost(&new_rand(), 0);
    ci.wallclock = 0;
    let value = new_unsigned(ci);
    let label = value.label();
    // push a new message
    assert_eq!(push.process_push_message(&mut crds, &NOBODY, value.copy(), 0), Ok(None));
    assert_eq!(crds.lookup(&label), Some(&value));

    // push it again
    assert!(matches!(
        push.process_push_message(&mut crds, &NOBODY, value.copy(), 0),
        Err(CrdsGossipError::PushMessageOldVersion)
    ));

    // purge the old pushed
    push.purge_old_received_cache(1);

    // push it again
    assert_eq!(
        push.process_push_message(&mut crds, &NOBODY, value, 0),
        Err(CrdsGossipError::PushMessageOldVersion)
    );
}
