use electrs_index::chain::{BlockHeader, HeaderChain};
use electrs_index::fetch::{fetch_from, Action, Config, Event, FetchFrom, Poller};
use electrs_index::mempool::{Mempool, MempoolEntry};
use electrs_index::query::{history, tx_location, utxos, HistoryItem, Utxo};
use electrs_index::schema::{Block, OutPoint, Transaction, TxOut, TABLE_HISTORY, TABLE_TX};
use electrs_index::store::{IndexStore, Key, Val, WriteBatch};
use electrs_index::sync::{SyncEngine, SyncError, WalkStep};

fn k(table: u8, a: u64, b: u64, c: u64) -> Key {
    Key { table, a, b, c }
}

fn v(data: u64) -> Val {
    Val { height: 0, block: 0, data }
}

fn hdr(height: u64, hash: u64, prev_hash: u64) -> BlockHeader {
    BlockHeader { hash, prev_hash, height }
}

fn tx(txid: u64, inputs: Vec<(u64, u64)>, outputs: Vec<(u64, u64)>) -> Transaction {
    Transaction {
        txid,
        inputs: inputs.into_iter().map(|(txid, vout)| OutPoint { txid, vout }).collect(),
        outputs: outputs.into_iter().map(|(script, value)| TxOut { script, value }).collect(),
    }
}

fn block(height: u64, hash: u64, prev_hash: u64, txs: Vec<Transaction>) -> Block {
    Block { header: hdr(height, hash, prev_hash), txs }
}

/// Blocks of a plain chain: block h has hash base + h and one coinbase-like
/// transaction with id base * 10 + h paying script 7.
fn plain_chain(base: u64, from: u64, to: u64, parent: u64) -> Vec<Block> {
    let mut out = Vec::new();
    let mut prev = parent;
    for h in from..=to {
        let hash = base + h;
        out.push(block(h, hash, prev, vec![tx(base * 10 + h, vec![], vec![(7, 50)])]));
        prev = hash;
    }
    out
}

fn hashes(chain: &HeaderChain) -> Vec<u64> {
    (0..chain.len() as u64).map(|h| chain.header_at(h).unwrap().hash).collect()
}

#[test]
fn store_put_get_delete() {
    let mut s = IndexStore::new();
    let mut b = WriteBatch::new();
    b.put(k(1, 2, 0, 0), v(10));
    b.put(k(1, 1, 0, 0), v(11));
    b.put(k(1, 2, 0, 0), v(12));
    b.delete(k(1, 1, 0, 0));
    s.write(&b);
    assert_eq!(s.get(&k(1, 2, 0, 0)), Some(v(12)));
    assert_eq!(s.get(&k(1, 1, 0, 0)), None);
    assert_eq!(s.len(), 1);
}

#[test]
fn interrupted_batch_is_invisible_after_restart() {
    let mut s = IndexStore::new();
    let mut first = WriteBatch::new();
    first.put(k(0, 1, 0, 0), v(1));
    s.write(&first);
    let mut b = WriteBatch::new();
    b.put(k(0, 2, 0, 0), v(2));
    b.put(k(0, 3, 0, 0), v(3));
    b.delete(k(0, 1, 0, 0));
    for crash_at in 0..=b.len() {
        let mut copy = s.reopen();
        copy.write_interrupted(&b, crash_at);
        let restarted = copy.reopen();
        assert_eq!(restarted.get(&k(0, 1, 0, 0)), Some(v(1)));
        assert_eq!(restarted.get(&k(0, 2, 0, 0)), None);
        assert_eq!(restarted.get(&k(0, 3, 0, 0)), None);
    }
    s.write(&b);
    let restarted = s.reopen();
    assert_eq!(restarted.get(&k(0, 1, 0, 0)), None);
    assert_eq!(restarted.get(&k(0, 2, 0, 0)), Some(v(2)));
    assert_eq!(restarted.get(&k(0, 3, 0, 0)), Some(v(3)));
}

#[test]
fn scan_prefix_is_ordered_and_exact() {
    let mut s = IndexStore::new();
    let mut b = WriteBatch::new();
    b.put(k(5, 9, 3, 0), v(1));
    b.put(k(5, 9, 1, 2), v(2));
    b.put(k(5, 8, 0, 0), v(3));
    b.put(k(5, 9, 1, 1), v(4));
    b.put(k(6, 9, 0, 0), v(5));
    s.write(&b);
    let keys: Vec<Key> = s.scan_prefix(5, 9).iter().map(|e| e.key).collect();
    assert_eq!(keys, vec![k(5, 9, 1, 1), k(5, 9, 1, 2), k(5, 9, 3, 0)]);
    assert!(s.scan_prefix(4, 9).is_empty());
}

#[test]
fn header_chain_links_and_truncates() {
    let mut c = HeaderChain::new();
    assert!(c.can_extend(&hdr(0, 100, 0)));
    c.push(hdr(0, 100, 0));
    assert!(!c.can_extend(&hdr(1, 101, 999)));
    assert!(!c.can_extend(&hdr(2, 101, 100)));
    assert!(!c.can_extend(&hdr(1, 100, 100)));
    c.push(hdr(1, 101, 100));
    assert_eq!(c.height_of(101), Some(1));
    assert_eq!(c.height_of(555), None);
    assert_eq!(c.tip().unwrap().hash, 101);
    c.truncate(1);
    assert_eq!(c.len(), 1);
    assert_eq!(c.tip().unwrap().hash, 100);
}

#[test]
fn fetch_mode_switches_when_initial_sync_is_done() {
    let mut e = SyncEngine::new();
    let cfg = Config { jsonrpc_import: false };
    assert_eq!(fetch_from(&cfg, e.store()), FetchFrom::BlkFiles);
    e.ingest_bulk(&plain_chain(1000, 0, 2, 0), 4, false).unwrap();
    assert!(!e.done_initial_sync());
    assert_eq!(fetch_from(&cfg, e.store()), FetchFrom::BlkFiles);
    e.ingest_bulk(&plain_chain(1000, 3, 4, 1002), 4, true).unwrap();
    assert!(!e.done_initial_sync());
    e.ingest_bulk(&Vec::new(), 4, false).unwrap();
    assert!(e.done_initial_sync());
    assert_eq!(fetch_from(&cfg, e.store()), FetchFrom::Bitcoind);
}

#[test]
fn fetch_mode_override_forces_rpc() {
    let e = SyncEngine::new();
    assert_eq!(fetch_from(&Config { jsonrpc_import: true }, e.store()), FetchFrom::Bitcoind);
}

#[test]
fn bulk_ingest_rejects_gap() {
    let mut e = SyncEngine::new();
    assert_eq!(e.ingest_bulk(&plain_chain(1000, 1, 2, 1000), 2, false), Err(SyncError::Disconnected));
    assert_eq!(e.chain().len(), 0);
}

#[test]
fn update_with_unchanged_tip_writes_nothing() {
    let mut e = SyncEngine::new();
    e.reconcile(&plain_chain(1000, 0, 3, 0)).unwrap();
    let before: Vec<_> = e.store().scan_prefix(TABLE_TX, 10003).iter().map(|x| x.val).collect();
    let n = e.store().len();
    e.reconcile(&Vec::new()).unwrap();
    assert_eq!(e.store().len(), n);
    let after: Vec<_> = e.store().scan_prefix(TABLE_TX, 10003).iter().map(|x| x.val).collect();
    assert_eq!(before, after);
    assert_eq!(e.tip_hash(), Some(1003));

    let mut p = Poller::new(None);
    assert_eq!(p.step(Event::BestBlock(1003)), Action::Update);
    assert_eq!(p.step(Event::Synced(1003)), Action::Idle);
    assert_eq!(p.step(Event::BestBlock(1003)), Action::Idle);
    assert_eq!(p.step(Event::BestBlock(1004)), Action::Update);
    assert_eq!(p.step(Event::Shutdown), Action::Stop);
}

#[test]
fn failed_update_is_retried_next_interval() {
    let mut p = Poller::new(Some(7));
    assert_eq!(p.step(Event::BestBlock(8)), Action::Update);
    assert_eq!(p.step(Event::UpdateFailed), Action::Idle);
    assert_eq!(p.tip, Some(7));
    assert_eq!(p.step(Event::BestBlock(8)), Action::Update);
}

#[test]
fn reorg_replaces_abandoned_blocks() {
    let mut e = SyncEngine::new();
    e.reconcile(&plain_chain(1000, 0, 5, 0)).unwrap();
    assert_eq!(tx_location(e.store(), 10004), Some((4, 0)));
    // the node's best chain leaves ours after height 2 and reaches height 6
    let branch = plain_chain(2000, 3, 6, 1002);
    e.reconcile(&branch).unwrap();
    assert_eq!(hashes(e.chain()), vec![1000, 1001, 1002, 2003, 2004, 2005, 2006]);
    assert_eq!(e.tip_hash(), Some(2006));
    for abandoned in 10003..=10005 {
        assert_eq!(tx_location(e.store(), abandoned), None);
    }
    assert_eq!(tx_location(e.store(), 10002), Some((2, 0)));
    assert_eq!(tx_location(e.store(), 20005), Some((5, 0)));
    // the history of script 7 names only blocks of the new chain
    let heights: Vec<u64> = history(e.store(), 7).iter().map(|i| i.height).collect();
    assert_eq!(heights, vec![0, 1, 2, 3, 4, 5, 6]);
    let txids: Vec<u64> = history(e.store(), 7).iter().map(|i| i.txid).collect();
    assert_eq!(txids, vec![10000, 10001, 10002, 20003, 20004, 20005, 20006]);
}

#[test]
fn reorg_to_shorter_chain() {
    let mut e = SyncEngine::new();
    e.reconcile(&plain_chain(1000, 0, 5, 0)).unwrap();
    e.reconcile(&plain_chain(3000, 2, 3, 1001)).unwrap();
    assert_eq!(hashes(e.chain()), vec![1000, 1001, 3002, 3003]);
    assert!(e.store().scan_prefix(TABLE_HISTORY, 7).iter().all(|x| x.key.b <= 3));
}

#[test]
fn reorg_rejects_disconnected_branch() {
    let mut e = SyncEngine::new();
    e.reconcile(&plain_chain(1000, 0, 3, 0)).unwrap();
    let n = e.store().len();
    assert_eq!(e.reconcile(&plain_chain(2000, 2, 4, 4242)), Err(SyncError::Disconnected));
    assert_eq!(e.reconcile(&plain_chain(2000, 9, 10, 1003)), Err(SyncError::Disconnected));
    // a branch that repeats a hash we keep below the fork
    assert_eq!(e.reconcile(&vec![block(2, 1000, 1001, vec![])]), Err(SyncError::Disconnected));
    assert_eq!(hashes(e.chain()), vec![1000, 1001, 1002, 1003]);
    assert_eq!(e.store().len(), n);
}

#[test]
fn reorg_deeper_than_limit_is_refused() {
    let mut e = SyncEngine::new();
    e.reconcile(&plain_chain(100000, 0, 1001, 0)).unwrap();
    assert_eq!(e.reconcile(&plain_chain(900000, 1, 2, 100000)), Err(SyncError::DeepReorg));
    assert_eq!(e.chain().len(), 1002);
    assert!(e.reconcile(&plain_chain(900000, 2, 3, 100001)).is_ok());
    assert_eq!(e.tip_hash(), Some(900003));
}

#[test]
fn history_is_ordered_by_height_then_position() {
    let mut e = SyncEngine::new();
    let b0 = block(0, 1, 0, vec![tx(10, vec![], vec![(5, 1)]), tx(11, vec![], vec![(6, 1), (5, 2)])]);
    let b1 = block(1, 2, 1, vec![tx(20, vec![], vec![(6, 3)]), tx(21, vec![(10, 0)], vec![(9, 1)])]);
    e.reconcile(&vec![b0, b1]).unwrap();
    let h = history(e.store(), 5);
    assert_eq!(
        h,
        vec![
            HistoryItem { height: 0, pos: 0, txid: 10 },
            HistoryItem { height: 0, pos: 1, txid: 11 },
            HistoryItem { height: 1, pos: 1, txid: 21 },
        ]
    );
    let h6: Vec<(u64, u64)> = history(e.store(), 6).iter().map(|i| (i.height, i.txid)).collect();
    assert_eq!(h6, vec![(0, 11), (1, 20)]);
    assert!(history(e.store(), 42).is_empty());
}

#[test]
fn utxo_disappears_once_spent() {
    let mut e = SyncEngine::new();
    let b0 = block(0, 1, 0, vec![tx(10, vec![], vec![(5, 100), (5, 200)])]);
    e.reconcile(&vec![b0]).unwrap();
    assert_eq!(
        utxos(e.store(), 5),
        vec![Utxo { txid: 10, vout: 0, value: 100 }, Utxo { txid: 10, vout: 1, value: 200 }]
    );
    let b1 = block(1, 2, 1, vec![tx(11, vec![(10, 1)], vec![(8, 190)])]);
    e.reconcile(&vec![b1]).unwrap();
    assert_eq!(utxos(e.store(), 5), vec![Utxo { txid: 10, vout: 0, value: 100 }]);
    assert_eq!(utxos(e.store(), 8), vec![Utxo { txid: 11, vout: 0, value: 190 }]);
    // rolling the spending block back makes the output unspent again
    e.reconcile(&vec![block(1, 3, 1, vec![])]).unwrap();
    assert_eq!(utxos(e.store(), 5).len(), 2);
    assert!(utxos(e.store(), 8).is_empty());
}

fn entry(txid: u64, scripts: Vec<u64>) -> MempoolEntry {
    MempoolEntry { txid, fee: 1, scripts, depends: vec![] }
}

#[test]
fn mempool_refresh_follows_snapshot() {
    let mut m = Mempool::new();
    m.refresh(&vec![1, 2, 3], vec![entry(1, vec![]), entry(2, vec![]), entry(3, vec![])]);
    assert!(m.contains(1) && m.contains(2) && m.contains(3));
    let missing = m.missing(&vec![2, 3, 4]);
    assert_eq!(missing, vec![4]);
    m.refresh(&vec![2, 3, 4], vec![entry(4, vec![])]);
    assert!(!m.contains(1));
    assert!(m.contains(2) && m.contains(3) && m.contains(4));
}

#[test]
fn mempool_ignores_bodies_outside_snapshot() {
    let mut m = Mempool::new();
    m.refresh(&vec![1], vec![entry(1, vec![]), entry(9, vec![]), entry(1, vec![])]);
    assert!(m.contains(1));
    assert!(!m.contains(9));
    m.refresh(&vec![], vec![]);
    assert!(!m.contains(1));
}

#[test]
fn mempool_pending_for_script() {
    let mut m = Mempool::new();
    m.refresh(&vec![1, 2, 3], vec![entry(1, vec![5, 6]), entry(2, vec![6]), entry(3, vec![7])]);
    let mut p = m.pending_for_script(6);
    p.sort();
    assert_eq!(p, vec![1, 2]);
    assert!(m.pending_for_script(8).is_empty());
}

#[test]
fn spend_within_block_records_funding_script_history() {
    let mut e = SyncEngine::new();
    let b0 = block(0, 1, 0, vec![tx(10, vec![], vec![(5, 100)]), tx(11, vec![(10, 0)], vec![(6, 90)])]);
    e.reconcile(&vec![b0]).unwrap();
    let txids: Vec<u64> = history(e.store(), 5).iter().map(|i| i.txid).collect();
    assert_eq!(txids, vec![10, 11]);
    assert!(utxos(e.store(), 5).is_empty());
}

#[test]
fn restart_rebuilds_chain_from_store() {
    let mut e = SyncEngine::new();
    e.reconcile(&plain_chain(1000, 0, 4, 0)).unwrap();
    let mut crashed = e.store().reopen();
    // a crash in the middle of the next block's batch leaves nothing of it
    let mut b = WriteBatch::new();
    b.put(k(TABLE_TX, 77, 0, 0), Val { height: 5, block: 1005, data: 0 });
    crashed.write_interrupted(&b, 1);
    let r = SyncEngine::open(crashed).unwrap();
    assert_eq!(hashes(r.chain()), vec![1000, 1001, 1002, 1003, 1004]);
    assert_eq!(r.tip_hash(), Some(1004));
    assert_eq!(tx_location(r.store(), 77), None);
    let mut r = r;
    r.reconcile(&plain_chain(1000, 5, 5, 1004)).unwrap();
    assert_eq!(r.tip_hash(), Some(1005));
    assert!(SyncEngine::open(IndexStore::new()).unwrap().chain().len() == 0);
}

#[test]
fn open_refuses_store_with_orphan_entry() {
    let mut e = SyncEngine::new();
    e.reconcile(&plain_chain(1000, 0, 2, 0)).unwrap();
    let mut s = e.store().reopen();
    let mut b = WriteBatch::new();
    b.put(k(TABLE_TX, 99, 0, 0), Val { height: 1, block: 4242, data: 0 });
    s.write(&b);
    assert!(SyncEngine::open(s).is_none());
}

#[test]
fn walk_back_finds_common_ancestor() {
    let mut e = SyncEngine::new();
    e.reconcile(&plain_chain(1000, 0, 3, 0)).unwrap();
    assert_eq!(e.walk_step(&hdr(2, 1002, 1001), 1), WalkStep::Found(2));
    assert_eq!(e.walk_step(&hdr(3, 2003, 1002), 0), WalkStep::Continue(1002));
    assert_eq!(e.walk_step(&hdr(3, 2003, 1002), 1000), WalkStep::TooDeep);
    assert!(!e.branch_links(&Vec::new()));
}

#[test]
fn mempool_keeps_existing_entries_and_takes_fetched_bodies() {
    let mut m = Mempool::new();
    m.refresh(&vec![1], vec![entry(1, vec![5])]);
    m.refresh(&vec![1, 2], vec![entry(1, vec![9]), entry(2, vec![6])]);
    assert_eq!(m.pending_for_script(5), vec![1]);
    assert!(m.pending_for_script(9).is_empty());
    assert_eq!(m.pending_for_script(6), vec![2]);
}

#[test]
fn fatal_sync_error_stops_the_loop() {
    let mut p = Poller::new(Some(7));
    assert_eq!(p.step(Event::BestBlock(8)), Action::Update);
    assert_eq!(p.step(Event::Fatal), Action::Stop);
    assert_eq!(p.tip, Some(7));
}
