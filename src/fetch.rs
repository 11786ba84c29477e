use vstd::prelude::*;
use crate::schema::{done_key, key, TABLE_META, META_DONE};
use crate::store::{IndexStore, Key, Val};

verus! {

/// Where block data is read from.
#[derive(PartialEq, Eq, Structural, Clone, Copy, Debug)]
pub enum FetchFrom {
    /// The node's JSON-RPC interface: slower, follows reorganisations.
    Bitcoind,
    /// The node's raw block files: faster, for the initial sync only.
    BlkFiles,
}

/// The settings that choose how blocks are fetched.
#[derive(PartialEq, Eq, Structural, Clone, Copy, Debug)]
pub struct Config {
    /// Always fetch over JSON-RPC.
    pub jsonrpc_import: bool,
}

/// RPC when configured so or once the initial sync is done; raw files before.
pub open spec fn fetch_mode(jsonrpc_import: bool, m: Map<Key, Val>) -> FetchFrom {
    if jsonrpc_import || m.contains_key(done_key()) {
        FetchFrom::Bitcoind
    } else {
        FetchFrom::BlkFiles
    }
}

/// Chooses the fetch mode from the configuration and the store's
/// done-initial-sync flag, read afresh on each call.
pub fn fetch_from(config: &Config, store: &IndexStore) -> (r: FetchFrom)
    requires
        store.wf(),
    ensures
        r == fetch_mode(config.jsonrpc_import, store@),
{
    let mut jsonrpc_import = config.jsonrpc_import;
    if !jsonrpc_import {
        // switch over to RPC once the initial sync is done
        jsonrpc_import = store.get(&key(TABLE_META, META_DONE, 0, 0)).is_some();
    }
    if jsonrpc_import {
        FetchFrom::Bitcoind
    } else {
        FetchFrom::BlkFiles
    }
}

/// Without an override, the mode is raw files while the done-initial-sync
/// flag is absent, and RPC as soon as a batch has put it.
pub proof fn lemma_fetch_mode_transition(m: Map<Key, Val>, flag: Val)
    requires
        !m.contains_key(done_key()),
    ensures
        fetch_mode(false, m) == FetchFrom::BlkFiles,
        fetch_mode(false, m.insert(done_key(), flag)) == FetchFrom::Bitcoind,
{
}

/// What the driving loop is told: a wake-up or the outcome of a sync.
#[derive(PartialEq, Eq, Structural, Clone, Copy, Debug)]
pub enum Event {
    /// A shutdown was requested.
    Shutdown,
    /// The poll interval elapsed; the node reports this best block hash.
    BestBlock(u64),
    /// A sync step committed and reached the tip with this hash.
    Synced(u64),
    /// A sync step failed on a transient error of the node; the index stays
    /// at its last committed batch.
    UpdateFailed,
    /// A sync step hit a fatal condition: malformed chain data, a
    /// reorganisation deeper than the ancestor search allows, or a failed
    /// commit.
    Fatal,
}

/// What the driving loop does next.
#[derive(PartialEq, Eq, Structural, Clone, Copy, Debug)]
pub enum Action {
    /// Leave the loop.
    Stop,
    /// Wait for the next interval.
    Idle,
    /// Run the sync step towards the reported tip.
    Update,
}

/// The tip recorded: it moves only when a sync step has committed.
pub open spec fn next_tip(tip: Option<u64>, e: Event) -> Option<u64> {
    match e {
        Event::Synced(h) => Some(h),
        _ => tip,
    }
}

pub open spec fn next_action(tip: Option<u64>, e: Event) -> Action {
    match e {
        Event::Shutdown => Action::Stop,
        Event::BestBlock(h) => if tip == Some(h) {
            Action::Idle
        } else {
            Action::Update
        },
        Event::Synced(_) => Action::Idle,
        Event::UpdateFailed => Action::Idle,
        Event::Fatal => Action::Stop,
    }
}

/// The decisions of the driving loop: the tip it last synced to.
pub struct Poller {
    pub tip: Option<u64>,
}

impl Poller {
    pub fn new(tip: Option<u64>) -> (r: Poller)
        ensures
            r.tip == tip,
    {
        Poller { tip }
    }

    /// Decides what to do on `e`: stop on shutdown or a fatal error; sync when the node's best
    /// block differs from the tip last synced to, else wait; record the tip
    /// only once a sync step has committed, so that a failed step is retried
    /// on the next interval.
    pub fn step(&mut self, e: Event) -> (r: Action)
        ensures
            r == next_action(old(self).tip, e),
            final(self).tip == next_tip(old(self).tip, e),
    {
        match e {
            Event::Shutdown => Action::Stop,
            Event::BestBlock(h) => {
                if self.tip == Some(h) {
                    Action::Idle
                } else {
                    Action::Update
                }
            },
            Event::Synced(h) => {
                self.tip = Some(h);
                Action::Idle
            },
            Event::UpdateFailed => Action::Idle,
            Event::Fatal => Action::Stop,
        }
    }
}

/// Once a sync step has committed the tip `h`, a wake-up that reports the
/// same best block hash asks for no sync.
pub proof fn lemma_repeat_is_idle(tip: Option<u64>, h: u64)
    ensures
        next_action(next_tip(tip, Event::Synced(h)), Event::BestBlock(h)) == Action::Idle,
{
}

/// A fatal sync error ends the loop, whatever the tip.
pub proof fn lemma_fatal_stops(tip: Option<u64>)
    ensures
        next_action(tip, Event::Fatal) == Action::Stop,
        next_tip(tip, Event::Fatal) == tip,
{
}

/// After a failed sync step the tip stays where it was, so the next wake-up
/// that reports the same new best block asks for the sync again.
pub proof fn lemma_failed_update_is_retried(tip: Option<u64>, h: u64)
    requires
        tip != Some(h),
    ensures
        next_action(tip, Event::BestBlock(h)) == Action::Update,
        next_action(next_tip(tip, Event::UpdateFailed), Event::BestBlock(h)) == Action::Update,
{
}

} // verus!
