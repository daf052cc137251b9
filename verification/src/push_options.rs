//! Which nodes a node may push to.

use crate::crds::{Crds, VersionedCrdsValue};
use crate::crds_value::{valid_address, ContactInfo, CrdsData};
use crate::keyed::{has_key, index_of_key};
use crate::prune::{get_stake, stake_of};
use crate::pubkey::Pubkey;
use crate::pubkey_map::{PubkeyMap, PubkeySet};
use crate::push_times::PushTimes;
use crate::random::random_ratio;
use vstd::prelude::*;

verus! {

/// Nodes that were not updated for this long are not pushed to.
pub const PUSH_ACTIVE_TIMEOUT_MS: u64 = 60_000;

/// Nodes with a stake that were not updated for long are retried in one of this many
/// cases.
pub const STALE_RETRY_RATIO: u32 = 16;

/// No difference is made between nodes that were not pushed to for longer than this.
pub const MAX_SINCE_MS: u64 = 3_600_000;

/// The unit of the time since the last push.
pub const SINCE_UNIT_MS: u64 = 1024;

/// A node that may be pushed to, and what its weight depends on.
#[derive(Clone, Copy, Debug, PartialEq, Eq, Structural)]
pub struct PushOption {
    pub info: ContactInfo,
    /// The time since the last push to it, in units of [`SINCE_UNIT_MS`].
    pub since: u32,
    pub stake: u64,
}

/// What decides whether a node may be pushed to.
pub struct PushQuery {
    pub self_id: Pubkey,
    pub self_shred_version: u16,
    pub stakes: Map<Pubkey, u64>,
    /// Where there are validators, only they are pushed to.
    pub gossip_validators: Option<Map<Pubkey, ()>>,
    /// When peers were last pushed to.
    pub pushed_at: Seq<(Pubkey, u64)>,
    pub now: u64,
}

/// When a peer was last pushed to; never is at 0.
pub open spec fn last_push(pushed_at: Seq<(Pubkey, u64)>, key: Pubkey) -> u64 {
    if has_key(pushed_at, key) {
        pushed_at[index_of_key(pushed_at, key)].1
    } else {
        0
    }
}

/// The time from `last` to `now` in units, at most that of [`MAX_SINCE_MS`].
pub open spec fn units_since(now: u64, last: u64) -> u32 {
    let time = if last > now { 0 } else { now - last };
    let capped = if time < MAX_SINCE_MS { time } else { MAX_SINCE_MS as int };
    (capped / SINCE_UNIT_MS as int) as u32
}

/// An entry was not updated for long.
pub open spec fn is_stale(entry: VersionedCrdsValue, now: u64) -> bool {
    entry.local_timestamp < now - PUSH_ACTIVE_TIMEOUT_MS
}

impl PushQuery {
    /// A node may be pushed to, whenever it was updated: it is another one, at a
    /// valid address, of the same shred version and, where there are validators, one
    /// of them.
    pub open spec fn admits(self, info: ContactInfo) -> bool {
        &&& info.id != self.self_id
        &&& valid_address(info.gossip)
        &&& info.shred_version == self.self_shred_version
        &&& self.gossip_validators matches Some(validators) ==> validators.contains_key(info.id)
    }

    /// What an entry offers. Of a node that was not updated for long, `retry` decides
    /// where it has a stake, and it offers nothing where it has none.
    pub open spec fn option_of(self, entry: VersionedCrdsValue, retry: bool) -> Option<PushOption> {
        match entry.value.data {
            CrdsData::ContactInfo(info) => {
                let stake = stake_of(self.stakes, info.id);
                if is_stale(entry, self.now) && (stake == 0 || !retry) {
                    None
                } else if !self.admits(info) {
                    None
                } else {
                    Some(
                        PushOption {
                            info,
                            since: units_since(self.now, last_push(self.pushed_at, info.id)),
                            stake,
                        },
                    )
                }
            },
            _ => None,
        }
    }

    /// What the first `count` entries offer.
    pub open spec fn options_of(
        self,
        entries: Seq<VersionedCrdsValue>,
        retries: Seq<bool>,
        count: nat,
    ) -> Seq<PushOption>
        decreases count,
    {
        if count == 0 {
            Seq::empty()
        } else {
            let before = self.options_of(entries, retries, (count - 1) as nat);
            match self.option_of(entries[count - 1], retries[count - 1]) {
                Some(option) => before.push(option),
                None => before,
            }
        }
    }
}

/// What validators hold.
pub open spec fn validators_view(validators: Option<&PubkeySet>) -> Option<Map<Pubkey, ()>> {
    match validators {
        Some(set) => Some(set@),
        None => None,
    }
}

/// Tells for each entry whether its node is retried: by chance where the entry was
/// not updated for long and the node has a stake, and not otherwise.
pub fn draw_retries(crds: &Crds, stakes: &PubkeyMap<u64>, now: u64) -> (retries: Vec<bool>)
    requires
        stakes.wf(),
    ensures
        retries@.len() == crds.entries().len(),
        forall|i: int|
            0 <= i < retries@.len() && #[trigger] retries@[i] ==> is_stale(crds.entries()[i], now)
                && stake_of(stakes@, crds.entries()[i].value.origin()) > 0,
{
    let cutoff: u64 = now.saturating_sub(PUSH_ACTIVE_TIMEOUT_MS);
    let mut retries: Vec<bool> = Vec::new();
    let mut i: usize = 0;
    while i < crds.len()
        invariant
            stakes.wf(),
            cutoff == (if now >= PUSH_ACTIVE_TIMEOUT_MS { now - PUSH_ACTIVE_TIMEOUT_MS } else { 0 }),
            i <= crds.entries().len(),
            retries@.len() == i,
            forall|j: int|
                0 <= j < i && #[trigger] retries@[j] ==> is_stale(crds.entries()[j], now)
                    && stake_of(stakes@, crds.entries()[j].value.origin()) > 0,
        decreases crds.entries().len() - i,
    {
        let entry: &VersionedCrdsValue = crds.entry_at(i);
        let stale: bool = entry.local_timestamp < cutoff;
        if stale && get_stake(stakes, &entry.value.pubkey()) > 0 {
            retries.push(random_ratio(1, STALE_RETRY_RATIO));
        } else {
            retries.push(false);
        }
        i += 1;
    }
    retries
}

/// The nodes that may be pushed to, where `retries` tells for each entry of the table
/// whether its node is retried.
pub fn find_options(
    crds: &Crds,
    retries: &Vec<bool>,
    self_id: &Pubkey,
    self_shred_version: u16,
    stakes: &PubkeyMap<u64>,
    gossip_validators: Option<&PubkeySet>,
    pushed_at: &PushTimes,
    now: u64,
) -> (options: Vec<PushOption>)
    requires
        stakes.wf(),
        gossip_validators matches Some(validators) ==> validators.wf(),
        retries@.len() == crds.entries().len(),
    ensures
        options@ == (PushQuery {
            self_id: *self_id,
            self_shred_version,
            stakes: stakes@,
            gossip_validators: validators_view(gossip_validators),
            pushed_at: pushed_at.entries(),
            now,
        }).options_of(crds.entries(), retries@, crds.entries().len()),
{
    let ghost query = PushQuery {
        self_id: *self_id,
        self_shred_version,
        stakes: stakes@,
        gossip_validators: validators_view(gossip_validators),
        pushed_at: pushed_at.entries(),
        now,
    };
    let cutoff: u64 = now.saturating_sub(PUSH_ACTIVE_TIMEOUT_MS);
    let mut options: Vec<PushOption> = Vec::new();
    let mut i: usize = 0;
    while i < crds.len()
        invariant
            stakes.wf(),
            gossip_validators matches Some(validators) ==> validators.wf(),
            retries@.len() == crds.entries().len(),
            query == (PushQuery {
                self_id: *self_id,
                self_shred_version,
                stakes: stakes@,
                gossip_validators: validators_view(gossip_validators),
                pushed_at: pushed_at.entries(),
                now,
            }),
            cutoff == (if now >= PUSH_ACTIVE_TIMEOUT_MS { now - PUSH_ACTIVE_TIMEOUT_MS } else { 0 }),
            i <= crds.entries().len(),
            options@ == query.options_of(crds.entries(), retries@, i as nat),
        decreases crds.entries().len() - i,
    {
        let entry: &VersionedCrdsValue = crds.entry_at(i);
        let retry: bool = retries[i];
        i += 1;
        if let Some(info) = entry.value.contact_info() {
            let stake: u64 = get_stake(stakes, &info.id);
            if entry.local_timestamp < cutoff && (stake == 0 || !retry) {
                continue ;
            }
            let allowed: bool = match gossip_validators {
                Some(validators) => validators.contains_key(&info.id),
                None => true,
            };
            if info.id != *self_id && ContactInfo::is_valid_address(&info.gossip)
                && self_shred_version == info.shred_version && allowed {
                let last: u64 = match pushed_at.peek(&info.id) {
                    Some(time) => time,
                    None => 0,
                };
                let time: u64 = now.saturating_sub(last);
                let capped: u64 = if time < MAX_SINCE_MS { time } else { MAX_SINCE_MS };
                let since: u32 = (capped / SINCE_UNIT_MS) as u32;
                options.push(PushOption { info, since, stake });
            }
        }
    }
    options
}

} // verus!
