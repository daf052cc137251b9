//! The push overlay: what a node does with the values that others push to it, and to
//! whom it pushes the values that it knows of.

use crate::active_set::{index_map_get_index, index_map_get_mut, index_map_insert, ActiveSet};
use crate::bloom::{Bloom, BloomView};
use crate::crds::{entries_since, inserted, is_news, Crds, CrdsError, Cursor, VersionedCrdsValue};
use crate::crds_gossip_error::CrdsGossipError;
use crate::crds_value::CrdsValue;
use crate::keyed::lemma_sorted_keys_are_unique;
use crate::keyed::{as_map, has_key, index_of_key, keys_of};
use crate::laws_of_active_set::law_refresh_fills_active_set;
use crate::laws_of_ingress::{law_origins_are_never_pruned, no_origin_pruned};
use crate::laws_of_messages::{law_pending_entries, time_of};
use crate::laws_of_refresh::law_pushes_are_noted;
use crate::laws_of_values::{are_versions, law_table_keeps_the_latest_version};
use crate::messages::{
    active_view, active_wf, hand_out_all, messages_of, messages_view, push_count, referenced,
};
use crate::pending::{
    consume_due, consumed_count, due_values, first_entry_since, in_window, ordinal_behind,
    wallclock_bounds,
};
use crate::prune::{
    candidates_of, kept_peers, not_kept, ranked, stake_of, threshold_of, unpruned_stake, weights_of,
    with_pruned,
};
use crate::prune::{
    get_stake, prune_candidates, prune_peers, prune_stake_threshold, unpruned_peer_stake,
};
use crate::prune::{lemma_candidates, lemma_candidates_sum};
use crate::pubkey::Pubkey;
use crate::pubkey_map::{PubkeyMap, PubkeySet};
use crate::push_options::{draw_retries, find_options, validators_view, PushOption, PushQuery};
use crate::push_times::{touched, PushTimes, CRDS_UNIQUE_PUBKEY_CAPACITY};
use crate::random::{random_seed, shuffle_keys};
use crate::received_cache::{
    copy_received, purge_received, purged, received_view, received_wf, record_received, recorded,
    Ingress, ReceivedCache,
};
use crate::rotation::{active_keys, is_refreshed, pick, picked, rotate_in, rotate_out, rotated};
use crate::rotation::{lemma_picked, lemma_rotated, lemma_rotated_entries};
use crate::weighted_shuffle::{
    inverse_of, is_permutation, is_weighted_order, shuffle_by_inverse_weight, weighted_shuffle,
};
use vstd::prelude::*;

verus! {

/// The number of peers that a node pushes to.
pub const CRDS_GOSSIP_NUM_ACTIVE: usize = 30;

/// The number of peers that each value is pushed to. With 6 of them, a cluster of
/// 1000 nodes takes about 4 hops to converge.
pub const CRDS_GOSSIP_PUSH_FANOUT: usize = 6;

/// Values are pushed for this long. Pushes are weighed by stake, so some trailing
/// nodes need more time than others.
pub const CRDS_GOSSIP_PUSH_MSG_TIMEOUT_MS: u64 = 30_000;

/// Prunes are heeded for this long.
pub const CRDS_GOSSIP_PRUNE_MSG_TIMEOUT_MS: u64 = 500;

/// The number of bytes that values are pushed in at a time: 64 packets.
pub const MAX_PUSH_BYTES: usize = 78_848;

/// The push overlay of a node.
pub struct CrdsGossipPush {
    /// The number of bytes that values are pushed in at a time.
    pub max_bytes: usize,
    /// The peers that the node pushes to. The filter of a peer holds the origins that
    /// it pruned.
    pub active_set: ActiveSet,
    /// The place in the table from which on values are still to be pushed.
    pub crds_cursor: Cursor,
    /// From which peers the values of an origin came. It lags behind the active sets
    /// of those peers.
    pub received_cache: ReceivedCache,
    /// When the node last pushed to a peer.
    pub last_pushed_to: PushTimes,
    pub num_active: usize,
    pub push_fanout: usize,
    pub msg_timeout: u64,
    pub prune_timeout: u64,
    /// The number of values that were pushed to the node.
    pub num_total: usize,
    /// How many of them were no news.
    pub num_old: usize,
    /// How often the node pushed a value to a peer.
    pub num_pushes: usize,
}

/// The number of actives that are missing or are to be replaced, where one of `ratio`
/// actives is.
pub open spec fn need_of(num_active: int, active_set_len: int, ratio: int) -> int {
    num_active - active_set_len + active_set_len / ratio
}

impl CrdsGossipPush {
    /// The peers that the node pushes to, and their filters.
    pub open spec fn active(&self) -> Seq<(Pubkey, Bloom)> {
        self.active_set.entries()
    }

    /// The ordinal from which on values are still to be pushed.
    pub open spec fn cursor(&self) -> u64 {
        self.crds_cursor.ordinal
    }

    /// From which peers the values of each origin came.
    pub open spec fn received(&self) -> Map<Pubkey, Map<Pubkey, Ingress>> {
        received_view(&self.received_cache)
    }

    /// From which peers the values of `origin` came, in the order of their keys.
    pub open spec fn ingress(&self, origin: Pubkey) -> Seq<(Pubkey, Ingress)> {
        self.received_cache@[origin].spec_entries()
    }

    /// When the node last pushed to peers, the most recent first.
    pub open spec fn pushed_at(&self) -> Seq<(Pubkey, u64)> {
        self.last_pushed_to.entries()
    }

    /// The number of peers whose push times are kept.
    pub open spec fn pushed_at_limit(&self) -> nat {
        self.last_pushed_to.limit()
    }

    /// The peers of each origin are in order, and no origin is without.
    pub open spec fn received_in_order(&self) -> bool {
        received_wf(&self.received_cache)
    }

    /// The parts are in order.
    pub open spec fn wf(&self) -> bool {
        &&& active_wf(self.active())
        &&& self.received_in_order()
        &&& self.last_pushed_to.wf()
    }

    /// The settings are those of `other`.
    pub open spec fn same_settings(&self, other: &CrdsGossipPush) -> bool {
        &&& self.max_bytes == other.max_bytes
        &&& self.num_active == other.num_active
        &&& self.push_fanout == other.push_fanout
        &&& self.msg_timeout == other.msg_timeout
        &&& self.prune_timeout == other.prune_timeout
    }

    /// The counters are those of `other`.
    pub open spec fn same_counters(&self, other: &CrdsGossipPush) -> bool {
        &&& self.num_total == other.num_total
        &&& self.num_old == other.num_old
        &&& self.num_pushes == other.num_pushes
    }

    /// What was received is that of `other`.
    pub open spec fn same_received(&self, other: &CrdsGossipPush) -> bool {
        &&& self.received() == other.received()
        &&& forall|origin: Pubkey| #[trigger]
            self.received().contains_key(origin) ==> self.ingress(origin) == other.ingress(origin)
    }

    /// The push times are those of `other`.
    pub open spec fn same_push_times(&self, other: &CrdsGossipPush) -> bool {
        &&& self.pushed_at() == other.pushed_at()
        &&& self.pushed_at_limit() == other.pushed_at_limit()
    }

    /// The stake of the peers that push values of `origin` and are not pruned.
    pub open spec fn ingress_stake(&self, origin: Pubkey, stakes: Map<Pubkey, u64>) -> nat {
        unpruned_stake(self.ingress(origin), stakes)
    }

    /// Peers of `origin` are to be pruned: values of it came, and from peers of
    /// enough stake.
    pub open spec fn prunes(
        &self,
        self_pubkey: Pubkey,
        origin: Pubkey,
        stakes: Map<Pubkey, u64>,
    ) -> bool {
        &&& self.received().contains_key(origin)
        &&& self.ingress_stake(origin, stakes) >= threshold_of(
            stake_of(stakes, self_pubkey),
            stake_of(stakes, origin),
        )
    }

    /// The peers of `origin` that are kept, where the candidates are taken in `order`.
    pub open spec fn kept_of(
        &self,
        self_pubkey: Pubkey,
        origin: Pubkey,
        stakes: Map<Pubkey, u64>,
        order: Seq<usize>,
    ) -> Seq<(Pubkey, u64)> {
        kept_peers(
            ranked(candidates_of(self.ingress(origin), stakes), order, origin),
            threshold_of(stake_of(stakes, self_pubkey), stake_of(stakes, origin)),
        )
    }

    /// The values that are due to be pushed at `now`.
    pub open spec fn due(&self, crds: &Crds, now: u64) -> Seq<CrdsValue> {
        due_values(
            entries_since(crds.entries(), self.cursor()),
            now,
            self.msg_timeout,
            self.max_bytes,
        )
    }

    /// The number of peers that each value goes to.
    pub open spec fn fanout(&self) -> int {
        if self.push_fanout < self.active().len() {
            self.push_fanout as int
        } else {
            self.active().len() as int
        }
    }

    /// The values to push at `now`, by the peers that they go to.
    pub open spec fn messages(&self, crds: &Crds, now: u64) -> Map<Pubkey, Seq<CrdsValue>> {
        if self.fanout() == 0 {
            Map::empty()
        } else {
            messages_of(active_view(self.active()), self.fanout(), self.due(crds, now))
        }
    }

    /// The ordinal from which on values are still to be pushed, after a push at `now`.
    pub open spec fn cursor_after(&self, crds: &Crds, now: u64) -> u64 {
        let entries = entries_since(crds.entries(), self.cursor());
        let count = consumed_count(entries, now, self.msg_timeout, self.max_bytes, 0);
        if self.fanout() == 0 {
            self.cursor()
        } else {
            ordinal_behind(entries, self.cursor(), count)
        }
    }

    /// No origin is pruned as a source of its own values.
    pub open spec fn origins_unpruned(&self) -> bool {
        no_origin_pruned(self.received())
    }

    /// How often the due values go to peers.
    pub open spec fn pushes(&self, crds: &Crds, now: u64) -> nat {
        if self.fanout() == 0 {
            0
        } else {
            push_count(active_view(self.active()), self.fanout(), self.due(crds, now))
        }
    }
}

impl Default for CrdsGossipPush {
    /// An overlay that knows of no peers, with the usual settings.
    fn default() -> (push: Self)
        ensures
            push.wf(),
            push.active() == Seq::<(Pubkey, Bloom)>::empty(),
            push.cursor() == 0,
            push.received() == Map::<Pubkey, Map<Pubkey, Ingress>>::empty(),
            push.origins_unpruned(),
            push.pushed_at() == Seq::<(Pubkey, u64)>::empty(),
            push.pushed_at_limit() == CRDS_UNIQUE_PUBKEY_CAPACITY == 4096,
            push.max_bytes == MAX_PUSH_BYTES == 64 * 1232,
            push.num_active == CRDS_GOSSIP_NUM_ACTIVE == 30,
            push.push_fanout == CRDS_GOSSIP_PUSH_FANOUT == 6,
            push.msg_timeout == CRDS_GOSSIP_PUSH_MSG_TIMEOUT_MS == 30_000,
            push.prune_timeout == CRDS_GOSSIP_PRUNE_MSG_TIMEOUT_MS == 500,
            push.num_total == 0,
            push.num_old == 0,
            push.num_pushes == 0,
    {
        let push = CrdsGossipPush {
            max_bytes: MAX_PUSH_BYTES,
            active_set: ActiveSet::new(),
            crds_cursor: Cursor::new(),
            received_cache: PubkeyMap::new(),
            last_pushed_to: PushTimes::new(CRDS_UNIQUE_PUBKEY_CAPACITY),
            num_active: CRDS_GOSSIP_NUM_ACTIVE,
            push_fanout: CRDS_GOSSIP_PUSH_FANOUT,
            msg_timeout: CRDS_GOSSIP_PUSH_MSG_TIMEOUT_MS,
            prune_timeout: CRDS_GOSSIP_PRUNE_MSG_TIMEOUT_MS,
            num_total: 0,
            num_old: 0,
            num_pushes: 0,
        };
        assert(push.received() =~= Map::<Pubkey, Map<Pubkey, Ingress>>::empty());
        push
    }
}

impl CrdsGossipPush {
    /// The number of values that are still to be pushed.
    pub fn num_pending(&self, crds: &Crds) -> (num: usize)
        requires
            crds.wf(),
        ensures
            num == entries_since(crds.entries(), self.cursor()).len(),
            num == crds.entries().filter(
                |entry: VersionedCrdsValue| self.cursor() <= entry.ordinal,
            ).len(),
    {
        proof {
            law_pending_entries(*crds, self.cursor());
        }
        crds.len() - first_entry_since(crds, &self.crds_cursor)
    }

    /// The stake that the ingress nodes of an origin have to have.
    pub fn prune_stake_threshold(self_stake: u64, origin_stake: u64) -> (threshold: u64)
        ensures
            threshold == threshold_of(self_stake, origin_stake),
    {
        prune_stake_threshold(self_stake, origin_stake)
    }

    /// The oldest and the newest wallclock of values that are heeded at `now`.
    pub fn wallclock_window(&self, now: u64) -> (window: (u64, u64))
        ensures
            forall|wallclock: u64|
                #![trigger in_window(wallclock, now, self.msg_timeout)]
                in_window(wallclock, now, self.msg_timeout) <==> window.0 <= wallclock <= window.1,
            window.0 == if now >= self.msg_timeout { now - self.msg_timeout } else { 0 },
            window.1 == if now + self.msg_timeout <= u64::MAX {
                now + self.msg_timeout
            } else {
                u64::MAX as int
            },
    {
        wallclock_bounds(now, self.msg_timeout)
    }

    /// Takes in a value that `from` pushed to the node.
    pub fn process_push_message(
        &mut self,
        crds: &mut Crds,
        from: &Pubkey,
        value: CrdsValue,
        now: u64,
    ) -> (result: Result<Option<VersionedCrdsValue>, CrdsGossipError>)
        requires
            old(self).wf(),
            old(crds).wf(),
            old(self).num_total < usize::MAX,
            in_window(value.data.spec_wallclock(), now, old(self).msg_timeout) ==> if is_news(
                old(crds).entries(),
                value,
            ) {
                old(crds).next_ordinal() < u64::MAX
            } else {
                old(self).num_old < usize::MAX
            },
        ensures
            final(self).wf(),
            final(crds).wf(),
            final(self).same_settings(old(self)),
            final(self).active() == old(self).active(),
            final(self).cursor() == old(self).cursor(),
            final(self).same_push_times(old(self)),
            final(self).num_pushes == old(self).num_pushes,
            final(self).num_total == old(self).num_total + 1,
            old(self).origins_unpruned() ==> final(self).origins_unpruned(),
            result == Err::<Option<VersionedCrdsValue>, CrdsGossipError>(
                CrdsGossipError::PushMessageTimeout,
            ) <==> time_of(value) + old(self).msg_timeout < now || time_of(value) > now + old(
                self,
            ).msg_timeout,
            now - old(self).msg_timeout <= time_of(value) <= now + old(self).msg_timeout
                ==> forall|i: int|
                0 <= i < old(crds).entries().len() && are_versions(
                    (#[trigger] old(crds).entries()[i]).value,
                    value,
                ) ==> {
                    let version = old(crds).entries()[i];
                    &&& time_of(value) > time_of(version.value) ==> result == Ok::<
                        Option<VersionedCrdsValue>,
                        CrdsGossipError,
                    >(Some(version))
                    &&& time_of(value) < time_of(version.value) ==> result == Err::<
                        Option<VersionedCrdsValue>,
                        CrdsGossipError,
                    >(CrdsGossipError::PushMessageOldVersion)
                },
            !in_window(value.data.spec_wallclock(), now, old(self).msg_timeout) ==> {
                &&& result == Err::<Option<VersionedCrdsValue>, CrdsGossipError>(
                    CrdsGossipError::PushMessageTimeout,
                )
                &&& *final(crds) == *old(crds)
                &&& final(self).same_received(old(self))
                &&& final(self).num_old == old(self).num_old
            },
            in_window(value.data.spec_wallclock(), now, old(self).msg_timeout) ==> {
                &&& final(self).received() == recorded(
                    old(self).received(),
                    value.origin(),
                    *from,
                    now,
                )
                &&& match result {
                    Ok(replaced) => {
                        &&& inserted(*old(crds), *final(crds), value, now, Ok(replaced))
                        &&& final(self).num_old == old(self).num_old
                    },
                    Err(error) => {
                        &&& error == CrdsGossipError::PushMessageOldVersion
                        &&& inserted(
                            *old(crds),
                            *final(crds),
                            value,
                            now,
                            Err(CrdsError::InsertFailed),
                        )
                        &&& final(self).num_old == old(self).num_old + 1
                    },
                }
            },
    {
        self.num_total += 1;
        let (oldest, newest) = self.wallclock_window(now);
        let wallclock: u64 = value.wallclock();
        assert(in_window(wallclock, now, self.msg_timeout) <==> oldest <= wallclock <= newest);
        if wallclock < oldest || newest < wallclock {
            return Err(CrdsGossipError::PushMessageTimeout);
        }
        let origin: Pubkey = value.pubkey();
        record_received(&mut self.received_cache, origin, *from, now);
        proof {
            if old(self).origins_unpruned() {
                law_origins_are_never_pruned(
                    old(self).received(),
                    origin,
                    *from,
                    now,
                    Seq::empty(),
                    Seq::empty(),
                );
            }
        }
        let inserting = crds.insert(value, now);
        proof {
            assert forall|i: int|
                0 <= i < old(crds).entries().len() && are_versions(
                    (#[trigger] old(crds).entries()[i]).value,
                    value,
                ) implies {
                let version = old(crds).entries()[i];
                &&& time_of(value) > time_of(version.value) ==> inserting == Ok::<
                    Option<VersionedCrdsValue>,
                    CrdsError,
                >(Some(version))
                &&& time_of(value) < time_of(version.value) ==> inserting is Err
            } by {
                law_table_keeps_the_latest_version(*old(crds), *crds, value, now, inserting, i);
            }
        }
        match inserting {
            Ok(replaced) => Ok(replaced),
            Err(_) => {
                self.num_old += 1;
                Err(CrdsGossipError::PushMessageOldVersion)
            },
        }
    }

    /// Forgets the peers that pushed nothing later than `min_time`.
    pub fn purge_old_received_cache(&mut self, min_time: u64)
        requires
            old(self).wf(),
        ensures
            final(self).wf(),
            final(self).received() == purged(old(self).received(), min_time),
            old(self).origins_unpruned() ==> final(self).origins_unpruned(),
            final(self).same_settings(old(self)),
            final(self).same_counters(old(self)),
            final(self).active() == old(self).active(),
            final(self).cursor() == old(self).cursor(),
            final(self).same_push_times(old(self)),
    {
        purge_received(&mut self.received_cache, min_time);
        proof {
            if old(self).origins_unpruned() {
                let nobody = Pubkey { hi: 0, lo: 0 };
                law_origins_are_never_pruned(
                    old(self).received(),
                    nobody,
                    nobody,
                    min_time,
                    Seq::empty(),
                    Seq::empty(),
                );
            }
        }
    }

    /// The number of actives that are missing or are to be replaced, where one of
    /// `ratio` actives is.
    pub fn compute_need(num_active: usize, active_set_len: usize, ratio: usize) -> (need: usize)
        requires
            ratio > 0,
            active_set_len <= num_active,
        ensures
            need == need_of(num_active as int, active_set_len as int, ratio as int),
            need == num_active - active_set_len + active_set_len / ratio,
            need <= num_active,
    {
        proof {
            assert(active_set_len as int / ratio as int <= active_set_len) by (nonlinear_arith)
                requires
                    active_set_len >= 0,
                    ratio > 0,
            ;
        }
        let num: usize = active_set_len / ratio;
        let need: usize = (num_active - active_set_len) + num;
        if num_active < need { num_active } else { need }
    }
}

/// A filter after each of `origins` but `self_pubkey` was added to it.
pub open spec fn with_origins(
    filter: BloomView,
    self_pubkey: Pubkey,
    origins: Seq<Pubkey>,
) -> BloomView
    decreases origins.len(),
{
    if origins.len() == 0 {
        filter
    } else {
        let before = with_origins(filter, self_pubkey, origins.drop_last());
        if origins.last() != self_pubkey {
            before.add(origins.last())
        } else {
            before
        }
    }
}

/// What a prune of `origins` by `peer` does to the active set: the filter of the peer,
/// where it is active, takes in the origins but for the node itself.
pub open spec fn prune_heeded(
    before: CrdsGossipPush,
    after: CrdsGossipPush,
    self_pubkey: Pubkey,
    peer: Pubkey,
    origins: Seq<Pubkey>,
) -> bool {
    if has_key(before.active(), peer) {
        let index = index_of_key(before.active(), peer);
        let filter = after.active()[index].1;
        &&& after.active() == before.active().update(index, (peer, filter))
        &&& filter@ == with_origins(before.active()[index].1@, self_pubkey, origins)
    } else {
        after.active() == before.active()
    }
}

impl CrdsGossipPush {
    /// The values to push at `now`, by the peers that they go to. Values that are too old
    /// or too new are passed over, and none goes to a peer that pruned its origin.
    pub fn new_push_messages(&mut self, crds: &Crds, now: u64) -> (messages: PubkeyMap<
        Vec<CrdsValue>,
    >)
        requires
            old(self).wf(),
            crds.wf(),
            old(self).num_pushes + old(self).pushes(crds, now) <= usize::MAX,
        ensures
            final(self).wf(),
            messages.wf(),
            final(self).same_settings(old(self)),
            final(self).active() == old(self).active(),
            final(self).same_received(old(self)),
            final(self).num_total == old(self).num_total,
            final(self).num_old == old(self).num_old,
            final(self).num_pushes == old(self).num_pushes + old(self).pushes(crds, now),
            messages_view(&messages) == old(self).messages(crds, now),
            final(self).cursor() == old(self).cursor_after(crds, now),
            final(self).pushed_at() == touched(
                old(self).pushed_at(),
                old(self).pushed_at_limit(),
                keys_of(messages.spec_entries()),
                now,
            ),
            final(self).pushed_at_limit() == old(self).pushed_at_limit(),
            messages.spec_entries().len() <= old(self).pushed_at_limit() ==> forall|peer: Pubkey|
                #[trigger] messages@.contains_key(peer) ==> final(self).pushed_at().contains(
                    (peer, now),
                ),
            old(self).origins_unpruned() ==> final(self).origins_unpruned(),
    {
        let len: usize = self.active_set.len();
        let fanout: usize = if self.push_fanout < len { self.push_fanout } else { len };
        if fanout == 0 {
            let messages: PubkeyMap<Vec<CrdsValue>> = PubkeyMap::new();
            assert(messages_view(&messages) =~= Map::<Pubkey, Seq<CrdsValue>>::empty());
            return messages;
        }
        let (values, cursor) = consume_due(
            crds,
            &self.crds_cursor,
            now,
            self.msg_timeout,
            self.max_bytes,
        );
        assert(referenced(values@) =~= self.due(crds, now));
        let (messages, num_pushes) = hand_out_all(&self.active_set, fanout, &values);
        self.crds_cursor = cursor;
        self.num_pushes += num_pushes;
        let ghost keys = keys_of(messages.spec_entries());
        let mut i: usize = 0;
        assert(keys.take(0) =~= Seq::<Pubkey>::empty());
        while i < messages.len()
            invariant
                i <= keys.len(),
                keys == keys_of(messages.spec_entries()),
                self.last_pushed_to.wf(),
                self.last_pushed_to.limit() == old(self).last_pushed_to.limit(),
                self.last_pushed_to.entries() == touched(
                    old(self).last_pushed_to.entries(),
                    old(self).last_pushed_to.limit(),
                    keys.take(i as int),
                    now,
                ),
                self.active_set == old(self).active_set,
                self.received_cache == old(self).received_cache,
                self.crds_cursor == cursor,
                self.same_settings(old(self)),
                self.num_total == old(self).num_total,
                self.num_old == old(self).num_old,
                self.num_pushes == old(self).num_pushes + num_pushes,
            decreases keys.len() - i,
        {
            assert(keys.take(i + 1).drop_last() =~= keys.take(i as int));
            self.last_pushed_to.put(messages.key_at(i), now);
            i += 1;
        }
        assert(keys.take(i as int) =~= keys);
        proof {
            if messages.spec_entries().len() <= old(self).pushed_at_limit() {
                assert(keys.no_duplicates()) by {
                    assert forall|a: int, b: int|
                        0 <= a < keys.len() && 0 <= b < keys.len() && a != b implies keys[a]
                        != keys[b] by {
                        let entries = messages.spec_entries();
                        if a < b {
                            assert(entries[a].0.lt(entries[b].0));
                        } else {
                            assert(entries[b].0.lt(entries[a].0));
                        }
                    }
                }
                assert forall|peer: Pubkey| #[trigger]
                    messages@.contains_key(peer) implies self.pushed_at().contains((peer, now)) by {
                    let at = index_of_key(messages.spec_entries(), peer);
                    assert(keys[at] == peer);
                    law_pushes_are_noted(
                        old(self).pushed_at(),
                        old(self).pushed_at_limit(),
                        keys,
                        now,
                        peer,
                        (peer, now),
                    );
                }
            }
        }
        messages
    }

    /// Heeds that `peer` pruned `origins`: the filter of the peer takes them in, but for
    /// the node itself.
    pub fn process_prune_msg(&mut self, self_pubkey: &Pubkey, peer: &Pubkey, origins: &[Pubkey])
        requires
            old(self).wf(),
        ensures
            final(self).wf(),
            final(self).same_settings(old(self)),
            final(self).same_counters(old(self)),
            final(self).cursor() == old(self).cursor(),
            final(self).same_received(old(self)),
            final(self).same_push_times(old(self)),
            prune_heeded(*old(self), *final(self), *self_pubkey, *peer, origins@),
            old(self).origins_unpruned() ==> final(self).origins_unpruned(),
    {
        let ghost before = self.active_set.entries();
        match index_map_get_mut(&mut self.active_set.map, peer) {
            Some(filter) => {
                let ghost index = index_of_key(before, *peer);
                assert(before[index].1.wf());
                let ghost old_filter = filter@;
                let mut i: usize = 0;
                assert(origins@.take(0) =~= Seq::<Pubkey>::empty());
                while i < origins.len()
                    invariant
                        i <= origins@.len(),
                        filter.wf(),
                        filter@ == with_origins(old_filter, *self_pubkey, origins@.take(i as int)),
                    decreases origins@.len() - i,
                {
                    assert(origins@.take(i + 1).drop_last() =~= origins@.take(i as int));
                    let origin: Pubkey = origins[i];
                    if origin != *self_pubkey {
                        filter.add(&origin);
                    }
                    i += 1;
                }
                assert(origins@.take(i as int) =~= origins@);
            },
            None => {},
        }
        proof {
            let after = self.active_set.entries();
            if has_key(before, *peer) {
                let index = index_of_key(before, *peer);
                assert forall|i: int, j: int|
                    #![trigger after[i], after[j]]
                    0 <= i < j < after.len() implies after[i].0 != after[j].0 by {
                    assert(before[i].0 != before[j].0);
                }
                assert forall|i: int| 0 <= i < after.len() implies (#[trigger] after[i]).1.wf() by {
                    assert(before[i].1.wf());
                }
            }
        }
    }
}

/// What pruning the peers of `origin` does, where the candidates are taken in `order`,
/// and what it returns.
pub open spec fn pruned_in_order(
    before: CrdsGossipPush,
    after: CrdsGossipPush,
    self_pubkey: Pubkey,
    origin: Pubkey,
    stakes: Map<Pubkey, u64>,
    order: Seq<usize>,
    pruned: Seq<Pubkey>,
) -> bool {
    let kept = before.kept_of(self_pubkey, origin, stakes, order);
    &&& after.ingress(origin) == with_pruned(before.ingress(origin), kept, origin)
    &&& after.received() == before.received().insert(origin, as_map(after.ingress(origin)))
    &&& forall|other: Pubkey| #[trigger]
        before.received().contains_key(other) && other != origin ==> after.ingress(other)
            == before.ingress(other)
    &&& pruned == not_kept(before.ingress(origin), kept, origin)
}

/// What pruning the peers of `origin` does, and what it returns: nothing where they are
/// not to be pruned, and else the candidates are taken in an order that some seed gives
/// them by their stakes.
pub open spec fn pruned_by_weight(
    before: CrdsGossipPush,
    after: CrdsGossipPush,
    self_pubkey: Pubkey,
    origin: Pubkey,
    stakes: Map<Pubkey, u64>,
    pruned: Seq<Pubkey>,
) -> bool {
    if !before.prunes(self_pubkey, origin, stakes) {
        &&& pruned == Seq::<Pubkey>::empty()
        &&& after.same_received(&before)
    } else {
        exists|order: Seq<usize>|
            {
                &&& is_weighted_order(
                    inverse_of(weights_of(candidates_of(before.ingress(origin), stakes))),
                    order,
                )
                &&& #[trigger] pruned_in_order(
                    before,
                    after,
                    self_pubkey,
                    origin,
                    stakes,
                    order,
                    pruned,
                )
            }
    }
}

impl CrdsGossipPush {
    /// The peers of `origin` with a stake that are not pruned, and their stakes.
    pub fn prune_candidates(&self, origin: &Pubkey, stakes: &PubkeyMap<u64>) -> (candidates: Vec<
        (Pubkey, u64),
    >)
        requires
            self.wf(),
            stakes.wf(),
        ensures
            self.received().contains_key(*origin) ==> candidates@ == candidates_of(
                self.ingress(*origin),
                stakes@,
            ),
            !self.received().contains_key(*origin) ==> candidates@.len() == 0,
    {
        match self.received_cache.get(origin) {
            Some(peers) => prune_candidates(peers, stakes),
            None => Vec::new(),
        }
    }

    /// Tells whether peers of `origin` are to be pruned.
    fn is_to_prune(
        &self,
        self_pubkey: &Pubkey,
        origin: &Pubkey,
        stakes: &PubkeyMap<u64>,
    ) -> (prunes: bool)
        requires
            self.wf(),
            stakes.wf(),
            self.received().contains_key(*origin) ==> self.ingress_stake(*origin, stakes@)
                <= u64::MAX,
        ensures
            prunes == self.prunes(*self_pubkey, *origin, stakes@),
    {
        match self.received_cache.get(origin) {
            Some(peers) => {
                let peer_stake: u64 = unpruned_peer_stake(peers, stakes);
                peer_stake >= prune_stake_threshold(
                    get_stake(stakes, self_pubkey),
                    get_stake(stakes, origin),
                )
            },
            None => false,
        }
    }

    /// Prunes the peers of `origin` that are not needed, where `candidates` are those of its
    /// peers with a stake that are not pruned, taken in the given order.
    fn prune_candidates_in_order(
        &mut self,
        self_pubkey: &Pubkey,
        origin: &Pubkey,
        stakes: &PubkeyMap<u64>,
        candidates: &Vec<(Pubkey, u64)>,
        order: &Vec<usize>,
    ) -> (pruned: Vec<Pubkey>)
        requires
            old(self).wf(),
            stakes.wf(),
            old(self).received().contains_key(*origin),
            candidates@ == candidates_of(old(self).ingress(*origin), stakes@),
            is_permutation(order@, candidates@.len()),
        ensures
            final(self).wf(),
            final(self).same_settings(old(self)),
            final(self).same_counters(old(self)),
            final(self).active() == old(self).active(),
            final(self).cursor() == old(self).cursor(),
            final(self).same_push_times(old(self)),
            old(self).origins_unpruned() ==> final(self).origins_unpruned(),
            pruned_in_order(
                *old(self),
                *final(self),
                *self_pubkey,
                *origin,
                stakes@,
                order@,
                pruned@,
            ),
    {
        let threshold: u64 = prune_stake_threshold(
            get_stake(stakes, self_pubkey),
            get_stake(stakes, origin),
        );
        match self.received_cache.get_mut(origin) {
            Some(peers) => {
                let pruned: Vec<Pubkey> = prune_peers(peers, candidates, order, origin, threshold);
                proof {
                    assert(self.received() =~= old(self).received().insert(
                        *origin,
                        as_map(self.ingress(*origin)),
                    ));
                    lemma_sorted_keys_are_unique(old(self).ingress(*origin));
                    if old(self).origins_unpruned() {
                        law_origins_are_never_pruned(
                            old(self).received(),
                            *origin,
                            *self_pubkey,
                            0,
                            old(self).ingress(*origin),
                            old(self).kept_of(*self_pubkey, *origin, stakes@, order@),
                        );
                    }
                }
                pruned
            },
            None => Vec::new(),
        }
    }

    /// Prunes the peers of `origin` that are not needed to receive its values, where the
    /// candidates are taken in the given order. Returns the peers that may not go on
    /// pushing.
    pub fn prune_received_cache_in_order(
        &mut self,
        self_pubkey: &Pubkey,
        origin: &Pubkey,
        stakes: &PubkeyMap<u64>,
        order: &Vec<usize>,
    ) -> (pruned: Vec<Pubkey>)
        requires
            old(self).wf(),
            stakes.wf(),
            old(self).received().contains_key(*origin) ==> {
                &&& old(self).ingress_stake(*origin, stakes@) <= u64::MAX
                &&& is_permutation(
                    order@,
                    candidates_of(old(self).ingress(*origin), stakes@).len(),
                )
            },
        ensures
            final(self).wf(),
            final(self).same_settings(old(self)),
            final(self).same_counters(old(self)),
            final(self).active() == old(self).active(),
            final(self).cursor() == old(self).cursor(),
            final(self).same_push_times(old(self)),
            old(self).origins_unpruned() ==> final(self).origins_unpruned(),
            !old(self).prunes(*self_pubkey, *origin, stakes@) ==> {
                &&& pruned@ == Seq::<Pubkey>::empty()
                &&& final(self).same_received(old(self))
            },
            old(self).prunes(*self_pubkey, *origin, stakes@) ==> pruned_in_order(
                *old(self),
                *final(self),
                *self_pubkey,
                *origin,
                stakes@,
                order@,
                pruned@,
            ),
    {
        if !self.is_to_prune(self_pubkey, origin, stakes) {
            return Vec::new();
        }
        let candidates: Vec<(Pubkey, u64)> = self.prune_candidates(origin, stakes);
        self.prune_candidates_in_order(self_pubkey, origin, stakes, &candidates, order)
    }

    /// Prunes the peers of `origin` that are not needed to receive its values. They are
    /// taken in a random order in which those of greater stake tend to come first, and
    /// kept until they are enough. Returns the peers that may not go on pushing.
    pub fn prune_received_cache(
        &mut self,
        self_pubkey: &Pubkey,
        origin: &Pubkey,
        stakes: &PubkeyMap<u64>,
    ) -> (pruned: Vec<Pubkey>)
        requires
            old(self).wf(),
            stakes.wf(),
            old(self).received().contains_key(*origin) ==> old(self).ingress_stake(
                *origin,
                stakes@,
            ) <= u64::MAX,
        ensures
            final(self).wf(),
            final(self).same_settings(old(self)),
            final(self).same_counters(old(self)),
            final(self).active() == old(self).active(),
            final(self).cursor() == old(self).cursor(),
            final(self).same_push_times(old(self)),
            old(self).origins_unpruned() ==> final(self).origins_unpruned(),
            pruned_by_weight(
                *old(self),
                *final(self),
                *self_pubkey,
                *origin,
                stakes@,
                pruned@,
            ),
    {
        if !self.is_to_prune(self_pubkey, origin, stakes) {
            return Vec::new();
        }
        let candidates: Vec<(Pubkey, u64)> = self.prune_candidates(origin, stakes);
        let mut weights: Vec<u64> = Vec::new();
        let mut i: usize = 0;
        while i < candidates.len()
            invariant
                i <= candidates@.len(),
                weights@.len() == i,
                forall|j: int| 0 <= j < i ==> #[trigger] weights@[j] == candidates@[j].1,
            decreases candidates@.len() - i,
        {
            weights.push(candidates[i].1);
            i += 1;
        }
        proof {
            assert(weights@ =~= weights_of(candidates@));
            lemma_candidates_sum(self.ingress(*origin), stakes@);
            lemma_candidates(self.ingress(*origin), stakes@);
            assert forall|j: int| 0 <= j < weights@.len() implies #[trigger] weights@[j] > 0 by {
                assert(candidates@[j] == candidates_of(self.ingress(*origin), stakes@)[j]);
            }
        }
        let seed: [u8; 32] = random_seed();
        let order: Vec<usize> = weighted_shuffle(&weights, &seed);
        assert(is_weighted_order(inverse_of(weights@), order@));
        self.prune_candidates_in_order(self_pubkey, origin, stakes, &candidates, &order)
    }
}

/// The nodes of options.
pub open spec fn ids_of(options: Seq<PushOption>) -> Seq<Pubkey> {
    Seq::new(options.len(), |i: int| options[i].info.id)
}

/// What refreshing the active set does to it, where the options are taken in `order`
/// and the peers leave in the order of `rotation`.
pub open spec fn refreshed_in_order(
    before: CrdsGossipPush,
    after: CrdsGossipPush,
    options: Seq<PushOption>,
    order: Seq<usize>,
    rotation: Seq<Pubkey>,
    network_size: usize,
    ratio: usize,
) -> bool {
    let len = before.active().len() as int;
    let need = need_of(before.num_active as int, len, ratio as int);
    is_refreshed(
        before.active(),
        after.active(),
        rotation.take(len / ratio as int),
        picked(ids_of(options), order, before.active(), need as nat),
        network_size,
    )
}

/// What refreshing the active set does to it, where the options have these inverse
/// weights: nothing without options, and else the options are taken in an order that some
/// seed gives them, and the peers leave in any order.
pub open spec fn refreshed(
    before: CrdsGossipPush,
    after: CrdsGossipPush,
    options: Seq<PushOption>,
    inverse_weights: Seq<u64>,
    network_size: usize,
    ratio: usize,
) -> bool {
    if options.len() == 0 {
        after.active() == before.active()
    } else {
        exists|order: Seq<usize>, rotation: Seq<Pubkey>|
            {
                &&& is_weighted_order(inverse_weights, order)
                &&& rotation.to_multiset() == keys_of(before.active()).to_multiset()
                &&& #[trigger] refreshed_in_order(
                    before,
                    after,
                    options,
                    order,
                    rotation,
                    network_size,
                    ratio,
                )
            }
    }
}

impl CrdsGossipPush {
    /// Replaces one of `ratio` actives, and adds missing ones: of the options, in the
    /// given order, the first that are not active. The peers leave in the order of
    /// `rotation`.
    pub fn refresh_push_active_set_in_order(
        &mut self,
        options: &Vec<PushOption>,
        order: &Vec<usize>,
        rotation: &Vec<Pubkey>,
        network_size: usize,
        ratio: usize,
    )
        requires
            old(self).wf(),
            ratio > 0,
            old(self).active().len() <= old(self).num_active,
            is_permutation(order@, options@.len()),
            rotation@.len() == old(self).active().len(),
        ensures
            final(self).wf(),
            final(self).same_settings(old(self)),
            final(self).same_counters(old(self)),
            final(self).cursor() == old(self).cursor(),
            final(self).same_received(old(self)),
            final(self).same_push_times(old(self)),
            old(self).origins_unpruned() ==> final(self).origins_unpruned(),
            refreshed_in_order(
                *old(self),
                *final(self),
                options@,
                order@,
                rotation@,
                network_size,
                ratio,
            ),
    {
        let ghost before = self.active_set.entries();
        let len: usize = self.active_set.len();
        let need: usize = CrdsGossipPush::compute_need(self.num_active, len, ratio);
        let mut ids: Vec<Pubkey> = Vec::new();
        let mut i: usize = 0;
        while i < options.len()
            invariant
                i <= options@.len(),
                ids@.len() == i,
                forall|j: int| 0 <= j < i ==> #[trigger] ids@[j] == options@[j].info.id,
            decreases options@.len() - i,
        {
            ids.push(options[i].info.id);
            i += 1;
        }
        assert(ids@ =~= ids_of(options@));
        let picks: Vec<Pubkey> = pick(&ids, order, &self.active_set, need);
        proof {
            assert(0 <= len as int / ratio as int <= len) by (nonlinear_arith)
                requires
                    len >= 0,
                    ratio > 0,
            ;
        }
        let num: usize = len / ratio;
        rotate_out(&mut self.active_set, rotation, num);
        proof {
            let removed = rotation@.take(num as int);
            let rest = rotated(before, removed);
            lemma_picked(ids@, order@, before, need as nat);
            lemma_rotated(before, removed);
            assert forall|j: int| 0 <= j < rest.len() implies (#[trigger] rest[j]).1.wf() by {
                lemma_rotated_entries(before, removed, j);
                let k = choose|k: int| 0 <= k < before.len() && before[k] == rest[j];
                assert(before[k].1.wf());
            }
            assert forall|j: int| 0 <= j < picks@.len() implies !has_key(
                rest,
                #[trigger] picks@[j],
            ) by {
                assert(!has_key(before, picks@[j]));
                assert(as_map(rest).contains_key(picks@[j]) ==> as_map(before).contains_key(
                    picks@[j],
                ));
            }
        }
        rotate_in(&mut self.active_set, &picks, network_size);
    }

    /// Replaces one of `ratio` actives, chosen at random, and adds missing ones: the
    /// first of the options that are not active, in a random order in which those of
    /// lower inverse weight tend to come first. Without options, nothing happens.
    pub fn refresh_push_active_set(
        &mut self,
        options: &Vec<PushOption>,
        inverse_weights: &Vec<u64>,
        network_size: usize,
        ratio: usize,
    )
        requires
            old(self).wf(),
            ratio > 0,
            old(self).active().len() <= old(self).num_active,
            inverse_weights@.len() == options@.len(),
        ensures
            final(self).wf(),
            final(self).same_settings(old(self)),
            final(self).same_counters(old(self)),
            final(self).cursor() == old(self).cursor(),
            final(self).same_received(old(self)),
            final(self).same_push_times(old(self)),
            final(self).active().len() <= final(self).num_active,
            old(self).origins_unpruned() ==> final(self).origins_unpruned(),
            refreshed(
                *old(self),
                *final(self),
                options@,
                inverse_weights@,
                network_size,
                ratio,
            ),
    {
        if options.len() == 0 {
            return ;
        }
        let seed: [u8; 32] = random_seed();
        let order: Vec<usize> = shuffle_by_inverse_weight(inverse_weights, &seed);
        assert(is_weighted_order(inverse_weights@, order@));
        let mut rotation: Vec<Pubkey> = active_keys(&self.active_set);
        let ghost keys = rotation@;
        shuffle_keys(&mut rotation);
        proof {
            broadcast use vstd::seq_lib::group_to_multiset_ensures;

            assert(rotation@.len() == rotation@.to_multiset().len());
            assert(keys.len() == keys.to_multiset().len());
        }
        self.refresh_push_active_set_in_order(options, &order, &rotation, network_size, ratio);
        proof {
            law_refresh_fills_active_set(
                *old(self),
                *self,
                options@,
                order@,
                rotation@,
                network_size,
                ratio,
            );
        }
    }

    /// The nodes that may be pushed to, where `retries` tells for each entry of the table
    /// whether its node is retried.
    pub fn push_options_with_retries(
        &self,
        crds: &Crds,
        retries: &Vec<bool>,
        self_id: &Pubkey,
        self_shred_version: u16,
        stakes: &PubkeyMap<u64>,
        gossip_validators: Option<&PubkeySet>,
        now: u64,
    ) -> (options: Vec<PushOption>)
        requires
            stakes.wf(),
            gossip_validators matches Some(validators) ==> validators.wf(),
            retries@.len() == crds.entries().len(),
        ensures
            options@ == self.push_query(
                *self_id,
                self_shred_version,
                stakes@,
                validators_view(gossip_validators),
                now,
            ).options_of(crds.entries(), retries@, crds.entries().len()),
    {
        find_options(
            crds,
            retries,
            self_id,
            self_shred_version,
            stakes,
            gossip_validators,
            &self.last_pushed_to,
            now,
        )
    }

    /// What decides which nodes may be pushed to.
    pub open spec fn push_query(
        &self,
        self_id: Pubkey,
        self_shred_version: u16,
        stakes: Map<Pubkey, u64>,
        gossip_validators: Option<Map<Pubkey, ()>>,
        now: u64,
    ) -> PushQuery {
        PushQuery {
            self_id,
            self_shred_version,
            stakes,
            gossip_validators,
            pushed_at: self.pushed_at(),
            now,
        }
    }

    /// The nodes that may be pushed to. Those that were not updated for long are passed
    /// over; in order to mitigate eclipse attacks, ones with a stake are retried by
    /// chance.
    pub fn push_options(
        &self,
        crds: &Crds,
        self_id: &Pubkey,
        self_shred_version: u16,
        stakes: &PubkeyMap<u64>,
        gossip_validators: Option<&PubkeySet>,
        now: u64,
    ) -> (options: Vec<PushOption>)
        requires
            stakes.wf(),
            gossip_validators matches Some(validators) ==> validators.wf(),
        ensures
            exists|retries: Seq<bool>|
                {
                    &&& retries.len() == crds.entries().len()
                    &&& options@ == #[trigger] self.push_query(
                        *self_id,
                        self_shred_version,
                        stakes@,
                        validators_view(gossip_validators),
                        now,
                    ).options_of(crds.entries(), retries, crds.entries().len())
                },
    {
        let retries: Vec<bool> = draw_retries(crds, stakes, now);
        self.push_options_with_retries(
            crds,
            &retries,
            self_id,
            self_shred_version,
            stakes,
            gossip_validators,
            now,
        )
    }

    /// The same overlay.
    pub fn mock_clone(&self) -> (copy: CrdsGossipPush)
        requires
            self.wf(),
        ensures
            copy.wf(),
            copy.same_settings(self),
            copy.same_counters(self),
            active_view(copy.active()) == active_view(self.active()),
            copy.cursor() == self.cursor(),
            copy.same_received(self),
            self.origins_unpruned() ==> copy.origins_unpruned(),
            copy.same_push_times(self),
    {
        let ghost entries = self.active_set.entries();
        let mut active_set: ActiveSet = ActiveSet::new();
        let mut i: usize = 0;
        while i < self.active_set.len()
            invariant
                entries == self.active_set.entries(),
                active_wf(entries),
                i <= entries.len(),
                active_set.entries().len() == i,
                forall|j: int|
                    0 <= j < i ==> {
                        &&& (#[trigger] active_set.entries()[j]).0 == entries[j].0
                        &&& active_set.entries()[j].1@ == entries[j].1@
                    },
            decreases entries.len() - i,
        {
            match index_map_get_index(&self.active_set.map, i) {
                Some((peer, filter)) => {
                    let ghost before = active_set.entries();
                    proof {
                        assert(!has_key(before, peer)) by {
                            if has_key(before, peer) {
                                let k = index_of_key(before, peer);
                                assert(entries[k].0 != entries[i as int].0);
                            }
                        }
                    }
                    index_map_insert(&mut active_set.map, peer, filter.mock_clone());
                    assert(forall|j: int|
                        0 <= j < i ==> #[trigger] active_set.entries()[j] == before[j]);
                },
                None => {},
            }
            i += 1;
        }
        proof {
            let copies = active_set.entries();
            assert(active_view(copies) =~= active_view(entries));
            assert forall|a: int, b: int|
                #![trigger copies[a], copies[b]]
                0 <= a < b < copies.len() implies copies[a].0 != copies[b].0 by {
                assert(entries[a].0 != entries[b].0);
            }
            assert forall|j: int| 0 <= j < copies.len() implies (#[trigger] copies[j]).1.wf() by {
                assert(entries[j].1.wf());
            }
        }
        CrdsGossipPush {
            max_bytes: self.max_bytes,
            active_set,
            crds_cursor: self.crds_cursor,
            received_cache: copy_received(&self.received_cache),
            last_pushed_to: self.last_pushed_to.copy(),
            num_active: self.num_active,
            push_fanout: self.push_fanout,
            msg_timeout: self.msg_timeout,
            prune_timeout: self.prune_timeout,
            num_total: self.num_total,
            num_old: self.num_old,
            num_pushes: self.num_pushes,
        }
    }
}

} // verus!
