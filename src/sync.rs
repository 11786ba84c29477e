use vstd::prelude::*;
use crate::chain::{BlockHeader, HeaderChain, chain_ok, chain_has, extends};
use crate::schema::{
    Block, Transaction, consistent, headers_recorded, header_recorded, history_tagged, header_by_hash_key, header_by_height_key, key, mk_key, tagged, tip_key, done_key, META_DONE, tx_key, funding_key,
    script_out_key, history_key, spend_key, TABLE_HEADER_BY_HASH, TABLE_HEADER_BY_HEIGHT,
    TABLE_TX, TABLE_FUNDING, TABLE_SCRIPT_OUT, TABLE_HISTORY, TABLE_SPEND, TABLE_META, META_TIP,
};
use crate::store::{IndexStore, Key, Val, Op, WriteBatch, apply_ops, lemma_apply_push, seq_has};

verus! {

/// Entries that output `o` of `tx` leaves in `m`.
pub open spec fn out_indexed(m: Map<Key, Val>, tx: Transaction, height: u64, pos: u64, o: int) -> bool {
    &&& m.contains_key(funding_key(tx.txid, o as u64))
    &&& m.contains_key(script_out_key(tx.outputs@[o].script, tx.txid, o as u64))
    &&& m.contains_key(history_key(tx.outputs@[o].script, height, pos))
}

/// Entries that the first `n` outputs of `tx` leave in `m`.
pub open spec fn outs_indexed(m: Map<Key, Val>, tx: Transaction, height: u64, pos: u64, n: int) -> bool {
    forall|o: int| 0 <= o < n ==> #[trigger] out_indexed(m, tx, height, pos, o)
}

/// Spend-edges that the first `n` inputs of `tx` leave in `m`.
pub open spec fn ins_indexed(m: Map<Key, Val>, tx: Transaction, n: int) -> bool {
    forall|q: int|
        0 <= q < n ==> m.contains_key(spend_key(#[trigger] tx.inputs@[q].txid, tx.inputs@[q].vout))
}

/// Entries that indexing transaction `tx` at position `pos` of the block at
/// `height` leaves in `m`.
pub open spec fn tx_indexed(m: Map<Key, Val>, tx: Transaction, height: u64, pos: u64) -> bool {
    &&& m.contains_key(tx_key(tx.txid))
    &&& outs_indexed(m, tx, height, pos, tx.outputs@.len() as int)
    &&& ins_indexed(m, tx, tx.inputs@.len() as int)
}

pub open spec fn txs_indexed(m: Map<Key, Val>, b: Block, n: int) -> bool {
    forall|p: int|
        0 <= p < n ==> tx_indexed(m, #[trigger] b.txs@[p], b.header.height, p as u64)
}

proof fn lemma_keep_txs(m1: Map<Key, Val>, m2: Map<Key, Val>, b: Block, n: int)
    requires
        m1.dom().subset_of(m2.dom()),
        txs_indexed(m1, b, n),
    ensures
        txs_indexed(m2, b, n),
{
    assert forall|p: int| 0 <= p < n implies tx_indexed(
        m2,
        #[trigger] b.txs@[p],
        b.header.height,
        p as u64,
    ) by {
        let tx = b.txs@[p];
        assert(tx_indexed(m1, tx, b.header.height, p as u64));
        assert(m2.contains_key(tx_key(tx.txid)));
        lemma_keep_outs(m1, m2, tx, b.header.height, p as u64, tx.outputs@.len() as int);
        lemma_keep_ins(m1, m2, tx, tx.inputs@.len() as int);
    }
}

proof fn lemma_keep_outs(
    m1: Map<Key, Val>,
    m2: Map<Key, Val>,
    tx: Transaction,
    height: u64,
    pos: u64,
    n: int,
)
    requires
        m1.dom().subset_of(m2.dom()),
        outs_indexed(m1, tx, height, pos, n),
    ensures
        outs_indexed(m2, tx, height, pos, n),
{
    assert forall|o: int| 0 <= o < n implies #[trigger] out_indexed(m2, tx, height, pos, o) by {
        assert(out_indexed(m1, tx, height, pos, o));
    }
}

proof fn lemma_keep_ins(m1: Map<Key, Val>, m2: Map<Key, Val>, tx: Transaction, n: int)
    requires
        m1.dom().subset_of(m2.dom()),
        ins_indexed(m1, tx, n),
    ensures
        ins_indexed(m2, tx, n),
{
    assert forall|q: int| 0 <= q < n implies m2.contains_key(
        spend_key(#[trigger] tx.inputs@[q].txid, tx.inputs@[q].vout),
    ) by {
        assert(m1.contains_key(spend_key(tx.inputs@[q].txid, tx.inputs@[q].vout)));
    }
}

/// `k` is the spend-edge of an input of block `b`.
pub open spec fn spend_from(b: Block, k: Key) -> bool {
    exists|p: int, q: int|
        0 <= p < b.txs@.len() && 0 <= q < b.txs@[p].inputs@.len() && k == spend_key(
            (#[trigger] b.txs@[p].inputs@[q]).txid,
            b.txs@[p].inputs@[q].vout,
        )
}

/// Every spend-edge of `m` was in `base` or is one of `b`'s inputs.
pub open spec fn spends_ok(base: Map<Key, Val>, m: Map<Key, Val>, b: Block) -> bool {
    forall|k: Key|
        #![trigger m.contains_key(k)]
        m.contains_key(k) && k.table == TABLE_SPEND ==> base.contains_key(k) || spend_from(b, k)
}

/// Entries that indexing block `b` leaves in `m`.
pub open spec fn block_indexed(m: Map<Key, Val>, b: Block) -> bool {
    &&& m.contains_key(mk_key(TABLE_HEADER_BY_HASH, b.header.hash, 0, 0))
    &&& m.contains_key(mk_key(TABLE_HEADER_BY_HEIGHT, b.header.height, 0, 0))
    &&& txs_indexed(m, b, b.txs@.len() as int)
}

/// What a batch under construction may have done so far to `base`, with
/// `s` the chain that the batch's block extends: entries only added or
/// overwritten, each tagged with a block of `s` and, when not as before, with
/// the last; of the header tables only the last block's keys touched; and the
/// metadata left alone.
pub open spec fn staged_ok(base: Map<Key, Val>, m: Map<Key, Val>, s: Seq<BlockHeader>) -> bool {
    &&& forall|k: Key|
        #![trigger m[k]]
        m.contains_key(k) && k.table != TABLE_META ==> m[k].height < s.len()
            && s[m[k].height as int].hash == m[k].block
    &&& forall|k: Key| #![trigger m.contains_key(k)] base.contains_key(k) ==> m.contains_key(k)
    &&& forall|k: Key|
        #![trigger m.contains_key(k)]
        k.table == TABLE_META ==> (m.contains_key(k) == base.contains_key(k) && m[k] == base[k])
    &&& forall|k: Key|
        #![trigger m[k]]
        m.contains_key(k) && k.table != TABLE_META ==> (base.contains_key(k) && m[k] == base[k])
            || m[k].height + 1 == s.len()
    &&& forall|k: Key|
        #![trigger m.contains_key(k)]
        m.contains_key(k) && (k.table == TABLE_HEADER_BY_HASH || k.table == TABLE_HEADER_BY_HEIGHT)
            && k != header_by_height_key(s.last().height) && k != header_by_hash_key(s.last().hash)
            ==> base.contains_key(k) && m[k] == base[k]
}

/// History entries at the height of block `b` name the transaction of `b`
/// at the position their key gives.
pub open spec fn staged_history(m: Map<Key, Val>, b: Block) -> bool {
    &&& history_tagged(m)
    &&& forall|k: Key|
        #![trigger m[k]]
        m.contains_key(k) && k.table == TABLE_HISTORY && k.b == b.header.height ==> m[k].data
            == b.txs@[k.c as int].txid
}

/// Each output of block `b` has its history entry, naming its transaction.
pub open spec fn block_history(m: Map<Key, Val>, b: Block) -> bool {
    forall|p: int, o: int|
        0 <= p < b.txs@.len() && 0 <= o < b.txs@[p].outputs@.len() ==> {
            &&& m.contains_key(
                history_key((#[trigger] b.txs@[p].outputs@[o]).script, b.header.height, p as u64),
            )
            &&& m[history_key(b.txs@[p].outputs@[o].script, b.header.height, p as u64)].data
                == b.txs@[p].txid
        }
}

proof fn lemma_keep_history(m1: Map<Key, Val>, m2: Map<Key, Val>, b: Block, h: u64)
    requires
        block_history(m1, b),
        history_tagged(m2),
        m1.dom().subset_of(m2.dom()),
        forall|k: Key|
            #![trigger m2[k]]
            m2.contains_key(k) && k.table != TABLE_META ==> (m1.contains_key(k) && m2[k] == m1[k])
                || m2[k].height == h,
        b.header.height != h,
    ensures
        block_history(m2, b),
{
    assert forall|p: int, o: int|
        0 <= p < b.txs@.len() && 0 <= o < b.txs@[p].outputs@.len() implies {
            &&& m2.contains_key(
                history_key((#[trigger] b.txs@[p].outputs@[o]).script, b.header.height, p as u64),
            )
            &&& m2[history_key(b.txs@[p].outputs@[o].script, b.header.height, p as u64)].data
                == b.txs@[p].txid
        } by {
        let k = history_key(b.txs@[p].outputs@[o].script, b.header.height, p as u64);
        assert(m1.contains_key(k));
        assert(m2[k].height == k.b);
    }
}

pub open spec fn headers_of(bs: Seq<Block>) -> Seq<BlockHeader> {
    bs.map_values(|b: Block| b.header)
}

/// `hs` starts at a height no greater than `s`'s length and, put on top of
/// the part of `s` below it, forms a chain.
pub open spec fn links(s: Seq<BlockHeader>, hs: Seq<BlockHeader>) -> bool {
    &&& hs[0].height <= s.len()
    &&& chain_ok(s.subrange(0, hs[0].height as int) + hs)
}

/// The chain after a branch `hs` replaced what `s` held from `hs`'s first height up.
pub open spec fn with_branch(s: Seq<BlockHeader>, hs: Seq<BlockHeader>) -> Seq<BlockHeader> {
    if hs.len() == 0 {
        s
    } else {
        s.subrange(0, hs[0].height as int) + hs
    }
}

proof fn lemma_prefix_extends(t: Seq<BlockHeader>, i: int)
    requires
        chain_ok(t),
        0 <= i < t.len(),
    ensures
        chain_ok(t.subrange(0, i)),
        extends(t.subrange(0, i), t[i]),
{
    let u = t.subrange(0, i);
    assert forall|a: int, b: int| 0 <= a < b < u.len() implies (#[trigger] u[a]).hash
        != (#[trigger] u[b]).hash by {
        assert(t[a].hash != t[b].hash);
    }
    if chain_has(u, t[i].hash) {
        let j = choose|j: int| 0 <= j < u.len() && (#[trigger] u[j]).hash == t[i].hash;
        assert(t[j].hash != t[i].hash);
    }
}

proof fn lemma_link_step(s: Seq<BlockHeader>, hs: Seq<BlockHeader>, fork: int, j: int)
    requires
        chain_ok(s),
        0 <= fork <= s.len(),
        0 <= j < hs.len(),
        chain_ok((s.subrange(0, fork) + hs).subrange(0, fork + j)),
        hs[j].height == fork + j,
        j == 0 && fork > 0 ==> s[fork - 1].hash == hs[j].prev_hash,
        j > 0 ==> hs[j - 1].hash == hs[j].prev_hash,
        forall|i: int| 0 <= i < fork ==> (#[trigger] s[i]).hash != hs[j].hash,
        forall|a: int| 0 <= a < j ==> (#[trigger] hs[a]).hash != hs[j].hash,
    ensures
        chain_ok((s.subrange(0, fork) + hs).subrange(0, fork + j + 1)),
{
    let t = s.subrange(0, fork) + hs;
    let u0 = t.subrange(0, fork + j);
    let u1 = t.subrange(0, fork + j + 1);
    assert(u1 =~= u0.push(hs[j]));
    if j == 0 && fork > 0 {
        assert(u0[fork - 1] == s[fork - 1]);
    }
    if j > 0 {
        assert(u0[fork + j - 1] == hs[j - 1]);
    }
    assert forall|a: int| 0 <= a < u0.len() implies (#[trigger] u0[a]).hash != hs[j].hash by {
        if a < fork {
            assert(u0[a] == s[a]);
        } else {
            assert(u0[a] == hs[a - fork]);
        }
    }
    lemma_push_chain(u0, hs[j]);
}

proof fn lemma_push_chain(u: Seq<BlockHeader>, h: BlockHeader)
    requires
        chain_ok(u),
        h.height == u.len(),
        u.len() > 0 ==> h.prev_hash == u.last().hash,
        forall|a: int| 0 <= a < u.len() ==> (#[trigger] u[a]).hash != h.hash,
    ensures
        chain_ok(u.push(h)),
{
    let v = u.push(h);
    assert forall|a: int| 0 <= a < u.len() implies #[trigger] v[a] == u[a] by {}
    assert forall|a: int, b: int| 0 <= a < b < v.len() implies (#[trigger] v[a]).hash
        != (#[trigger] v[b]).hash by {
        if b < u.len() {
            assert(u[a].hash != u[b].hash);
        }
    }
}

/// `m` holds the chain `c`: every entry names a block of `c`, the tip record
/// names its tip, each header of `c` is recorded, and each history entry is
/// tagged with the height its key names.
pub open spec fn store_holds_chain(m: Map<Key, Val>, c: Seq<BlockHeader>) -> bool {
    &&& chain_ok(c)
    &&& c.len() <= u64::MAX
    &&& consistent(m, c)
    &&& headers_recorded(m, c)
    &&& history_tagged(m)
}

/// A store holds at most one chain.
proof fn lemma_held_chain_unique(m: Map<Key, Val>, c1: Seq<BlockHeader>, c2: Seq<BlockHeader>)
    requires
        store_holds_chain(m, c1),
        store_holds_chain(m, c2),
    ensures
        c1 == c2,
{
    if c1.len() > 0 && c2.len() > 0 {
        assert(c1.last().height == c1.len() - 1);
        assert(c2.last().height == c2.len() - 1);
    }
    assert(c1.len() == c2.len());
    assert forall|i: int| 0 <= i < c1.len() implies c1[i] == c2[i] by {
        assert(header_recorded(m, c1, i));
        assert(header_recorded(m, c2, i));
    }
    assert(c1 =~= c2);
}

proof fn lemma_recorded_push(m: Map<Key, Val>, c: Seq<BlockHeader>, hd: BlockHeader)
    requires
        headers_recorded(m, c),
        hd.height == c.len(),
        m.contains_key(header_by_height_key(hd.height)),
        m[header_by_height_key(hd.height)].data == hd.hash,
        m[header_by_height_key(hd.height)].height == hd.height,
        m.contains_key(header_by_hash_key(hd.hash)),
        m[header_by_hash_key(hd.hash)].data == hd.prev_hash,
        m[header_by_hash_key(hd.hash)].height == hd.height,
    ensures
        headers_recorded(m, c.push(hd)),
{
    let c2 = c.push(hd);
    assert forall|i: int| 0 <= i < c2.len() implies #[trigger] header_recorded(m, c2, i) by {
        if i < c.len() {
            assert(c2[i] == c[i]);
            assert(header_recorded(m, c, i));
        } else {
            assert(c2[i] == hd);
            assert(i as u64 == hd.height);
        }
    }
}

proof fn lemma_keep_block(m1: Map<Key, Val>, m2: Map<Key, Val>, b: Block)
    requires
        m1.dom().subset_of(m2.dom()),
        block_indexed(m1, b),
    ensures
        block_indexed(m2, b),
{
    lemma_keep_txs(m1, m2, b, b.txs@.len() as int);
}

/// One step of the walk back from the node's best block towards the
/// common ancestor.
#[derive(PartialEq, Eq, Structural, Clone, Copy, Debug)]
pub enum WalkStep {
    /// Not held: fetch the header with this hash (the parent) next.
    Continue(u64),
    /// Held: the common ancestor is at this height.
    Found(u64),
    /// The walk went deeper than `MAX_REORG_DEPTH` without meeting the chain.
    TooDeep,
}

#[derive(PartialEq, Eq, Structural, Clone, Copy, Debug)]
pub enum SyncError {
    /// The blocks offered do not form a chain on top of a block we hold.
    Disconnected,
    /// The common ancestor lies deeper than `MAX_REORG_DEPTH` below the tip.
    DeepReorg,
}

/// How many blocks a reorganisation may roll back.
pub const MAX_REORG_DEPTH: u64 = 1000;

/// The index writer: the header chain and the store it keeps in step.
pub struct SyncEngine {
    chain: HeaderChain,
    store: IndexStore,
}

impl SyncEngine {
    pub closed spec fn chain_view(&self) -> Seq<BlockHeader> {
        self.chain@
    }

    pub closed spec fn store_view(&self) -> Map<Key, Val> {
        self.store@
    }

    pub closed spec fn parts_ok(&self) -> bool {
        self.chain.wf() && self.store.wf()
    }

    pub open spec fn wf(&self) -> bool {
        &&& self.parts_ok()
        &&& chain_ok(self.chain_view())
        &&& consistent(self.store_view(), self.chain_view())
        &&& headers_recorded(self.store_view(), self.chain_view())
        &&& history_tagged(self.store_view())
    }

    pub fn new() -> (r: SyncEngine)
        ensures
            r.wf(),
            r.chain_view() == Seq::<BlockHeader>::empty(),
            r.store_view() == Map::<Key, Val>::empty(),
    {
        SyncEngine { chain: HeaderChain::new(), store: IndexStore::new() }
    }

    /// Opens the index over a persisted store, as at a restart: the header
    /// chain is read back from the header entries up to the recorded tip.
    /// Returns `None` when the store's headers do not form a chain up to
    /// that tip, or an entry names a block outside that chain.
    pub fn open(store: IndexStore) -> (r: Option<SyncEngine>)
        requires
            store.wf(),
        ensures
            r is Some ==> r.unwrap().wf(),
            r is Some ==> r.unwrap().store_view() == store@,
            r is Some ==> headers_recorded(store@, r.unwrap().chain_view()),
            r is Some ==> r.unwrap().chain_view().len() == (if store@.contains_key(tip_key()) {
                store@[tip_key()].height + 1
            } else {
                0
            }),
            forall|c: Seq<BlockHeader>|
                store_holds_chain(store@, c) ==> r is Some && r.unwrap().chain_view() == c,
    {
        let ghost good = exists|c: Seq<BlockHeader>| store_holds_chain(store@, c);
        let ghost c = if good {
            choose|c: Seq<BlockHeader>| store_holds_chain(store@, c)
        } else {
            Seq::<BlockHeader>::empty()
        };
        let mut chain = HeaderChain::new();
        match store.get(&key(TABLE_META, META_TIP, 0, 0)) {
            None => {
                proof {
                    if good {
                        assert(c.len() == 0);
                        assert(chain@ =~= c);
                    }
                }
            },
            Some(t) => {
                proof {
                    if good {
                        assert(c.len() > 0);
                        assert(c.last().height == c.len() - 1);
                    }
                }
                if t.height == u64::MAX {
                    return None;
                }
                let n = t.height + 1;
                let mut h: u64 = 0;
                while h < n
                    invariant
                        store.wf(),
                        chain.wf(),
                        h <= n,
                        chain@.len() == h,
                        headers_recorded(store@, chain@),
                        good ==> store_holds_chain(store@, c) && n == c.len() && chain@ == c.subrange(0, h as int),
                        good == exists|c2: Seq<BlockHeader>| store_holds_chain(store@, c2),
                    decreases n - h,
                {
                    proof {
                        if good {
                            assert(header_recorded(store@, c, h as int));
                            assert((h as int) as u64 == h);
                            assert(store@.contains_key(header_by_height_key(h)));
                            assert(store@[header_by_height_key(h)].data == c[h as int].hash);
                            assert(store@.contains_key(header_by_hash_key(c[h as int].hash)));
                            lemma_prefix_extends(c, h as int);
                        }
                    }
                    let by_height = match store.get(&key(TABLE_HEADER_BY_HEIGHT, h, 0, 0)) {
                        Some(v) => v,
                        None => {
                            return None;
                        },
                    };
                    let hash = by_height.data;
                    let by_hash = match store.get(&key(TABLE_HEADER_BY_HASH, hash, 0, 0)) {
                        Some(v) => v,
                        None => {
                            return None;
                        },
                    };
                    let prev = by_hash.data;
                    if by_height.height != h || by_hash.height != h {
                        return None;
                    }
                    let hd = BlockHeader { hash, prev_hash: prev, height: h };
                    if !chain.can_extend(&hd) {
                        return None;
                    }
                    let ghost c0 = chain@;
                    chain.push(hd);
                    proof {
                        lemma_recorded_push(store@, c0, hd);
                        if good {
                            assert(hd == c[h as int]);
                            assert(chain@ =~= c.subrange(0, h + 1));
                        }
                    }
                    h = h + 1;
                }
                proof {
                    if good {
                        assert(chain@ =~= c);
                    }
                }
                let last = chain.tip().unwrap();
                if t.height != last.height || t.block != last.hash || t.data != last.hash {
                    return None;
                }
            },
        }
        let es = store.entries();
        let mut i: usize = 0;
        while i < es.len()
            invariant
                chain.wf(),
                i <= es@.len(),
                forall|q: int|
                    0 <= q < es@.len() ==> store@.contains_key((#[trigger] es@[q]).key) && store@[es@[q].key]
                        == es@[q].val,
                forall|k: Key| store@.contains_key(k) ==> seq_has(es@, k),
                good ==> store_holds_chain(store@, c) && chain@ == c,
                good == exists|c2: Seq<BlockHeader>| store_holds_chain(store@, c2),
                forall|p: int|
                    0 <= p < i && (#[trigger] es@[p]).key.table == TABLE_HISTORY ==> es@[p].val.height
                        == es@[p].key.b,
                forall|p: int|
                    0 <= p < i && (#[trigger] es@[p]).key.table != TABLE_META ==> es@[p].val.height
                        < chain@.len() && chain@[es@[p].val.height as int].hash == es@[p].val.block,
            decreases es@.len() - i,
        {
            let e = es[i];
            proof {
                assert(store@[es@[i as int].key] == es@[i as int].val);
                if good && e.key.table != TABLE_META {
                    assert(store@.contains_key(e.key));
                    assert(store@[e.key].height < c.len());
                    assert(c[store@[e.key].height as int].hash == store@[e.key].block);
                }
            }
            if e.key.table == TABLE_HISTORY && e.val.height != e.key.b {
                return None;
            }
            if e.key.table != TABLE_META {
                match chain.header_at(e.val.height) {
                    Some(hd) => {
                        if hd.hash != e.val.block {
                            return None;
                        }
                    },
                    None => {
                        return None;
                    },
                }
            }
            i = i + 1;
        }
        proof {
            assert forall|k: Key|
                #![trigger store@[k]]
                store@.contains_key(k) && k.table != TABLE_META implies store@[k].height < chain@.len()
                    && chain@[store@[k].height as int].hash == store@[k].block by {
                assert(seq_has(es@, k));
                let p = choose|p: int| 0 <= p < es@.len() && (#[trigger] es@[p]).key == k;
                assert(store@[es@[p].key] == es@[p].val);
            }
        }
        proof {
            assert forall|k: Key|
                #![trigger store@[k]]
                store@.contains_key(k) && k.table == TABLE_HISTORY implies store@[k].height == k.b by {
                assert(seq_has(es@, k));
                let p = choose|p: int| 0 <= p < es@.len() && (#[trigger] es@[p]).key == k;
                assert(store@[es@[p].key] == es@[p].val);
            }
            assert forall|c2: Seq<BlockHeader>| store_holds_chain(store@, c2) implies chain@ == c2 by {
                lemma_held_chain_unique(store@, c, c2);
            }
        }
        Some(SyncEngine { chain, store })
    }

    /// Decides the walk's next step on header `hd` of the node's chain,
    /// reached after `depth` headers that the chain does not hold.
    pub fn walk_step(&self, hd: &BlockHeader, depth: u64) -> (r: WalkStep)
        requires
            self.wf(),
        ensures
            chain_has(self.chain_view(), hd.hash) ==> (r matches WalkStep::Found(h) && h
                < self.chain_view().len() && self.chain_view()[h as int].hash == hd.hash),
            !chain_has(self.chain_view(), hd.hash) && depth >= MAX_REORG_DEPTH ==> r
                == WalkStep::TooDeep,
            !chain_has(self.chain_view(), hd.hash) && depth < MAX_REORG_DEPTH ==> r
                == WalkStep::Continue(hd.prev_hash),
    {
        match self.chain.height_of(hd.hash) {
            Some(h) => WalkStep::Found(h),
            None => {
                if depth >= MAX_REORG_DEPTH {
                    WalkStep::TooDeep
                } else {
                    WalkStep::Continue(hd.prev_hash)
                }
            },
        }
    }

    pub fn chain(&self) -> (r: &HeaderChain)
        requires
            self.wf(),
        ensures
            r.wf(),
            r@ == self.chain_view(),
    {
        &self.chain
    }

    pub fn store(&self) -> (r: &IndexStore)
        requires
            self.wf(),
        ensures
            r.wf(),
            r@ == self.store_view(),
    {
        &self.store
    }

    /// The hash of the local tip, if any block is indexed.
    pub fn tip_hash(&self) -> (r: Option<u64>)
        requires
            self.wf(),
        ensures
            r == (if self.chain_view().len() == 0 {
                None
            } else {
                Some(self.chain_view().last().hash)
            }),
    {
        match self.chain.tip() {
            Some(h) => Some(h.hash),
            None => None,
        }
    }

    /// Indexes block `b` on top of the tip in one batch: its header, every
    /// transaction, every output by outpoint and by script, one history
    /// entry per script that an output pays or an input spends from (an
    /// output of this block or of one indexed before), one spend-edge per
    /// input, and the new tip.
    fn index_block(&mut self, b: &Block)
        requires
            old(self).wf(),
            extends(old(self).chain_view(), b.header),
        ensures
            final(self).wf(),
            final(self).chain_view() == old(self).chain_view().push(b.header),
            block_indexed(final(self).store_view(), *b),
            final(self).store_view().contains_key(done_key()) == old(self).store_view().contains_key(
                done_key(),
            ),
            old(self).store_view().dom().subset_of(final(self).store_view().dom()),
            spends_ok(old(self).store_view(), final(self).store_view(), *b),
            block_history(final(self).store_view(), *b),
            forall|k: Key|
                #![trigger final(self).store_view()[k]]
                final(self).store_view().contains_key(k) && k.table != TABLE_META ==> (old(self).store_view().contains_key(k)
                    && final(self).store_view()[k] == old(self).store_view()[k]) || final(self).store_view()[k].height
                    == old(self).chain_view().len(),
    {
        let h = b.header.height;
        let hash = b.header.hash;
        let ghost base = self.store@;
        let ghost s0 = self.chain@;
        let ghost s2 = self.chain@.push(b.header);
        let mut batch = WriteBatch::new();
        proof {
            assert(s2[h as int] == b.header);
            assert forall|k: Key| #![trigger base[k]]
                base.contains_key(k) && k.table != TABLE_META implies base[k].height < s2.len()
                    && s2[base[k].height as int].hash == base[k].block by {
                assert(s2[base[k].height as int] == self.chain@[base[k].height as int]);
            }
        }
        proof {
            assert forall|k: Key|
                #![trigger base[k]]
                base.contains_key(k) && k.table == TABLE_HISTORY implies k.b != b.header.height by {
                assert(base[k].height < s0.len());
            }
            assert(apply_ops(base, batch.ops@) == base);
            assert(history_tagged(base));
            assert forall|k: Key|
                #![trigger base[k]]
                base.contains_key(k) && k.table == TABLE_HISTORY && k.b == b.header.height implies base[k].data
                    == b.txs@[k.c as int].txid by {
                assert(base[k].height < s0.len());
            }
            assert(staged_history(base, *b));
        }
        let ghost mut m = apply_ops(base, batch.ops@);
        self.stage(&mut batch, key(TABLE_HEADER_BY_HASH, hash, 0, 0), h, hash, b.header.prev_hash, Ghost(base), Ghost(s2), Ghost(*b));
        self.stage(&mut batch, key(TABLE_HEADER_BY_HEIGHT, h, 0, 0), h, hash, hash, Ghost(base), Ghost(s2), Ghost(*b));
        let mut p: usize = 0;
        while p < b.txs.len()
            invariant
                self.wf(),
                self.store@ == base,
                s2 == self.chain@.push(b.header),
                s2[h as int] == b.header,
                h == b.header.height,
                hash == b.header.hash,
                h < s2.len(),
                h + 1 == s2.len(),
                p <= b.txs@.len(),
                staged_ok(base, apply_ops(base, batch.ops@), s2),
                staged_history(apply_ops(base, batch.ops@), *b),
                apply_ops(base, batch.ops@)[mk_key(TABLE_HEADER_BY_HASH, hash, 0, 0)] == tagged(h, hash, b.header.prev_hash),
                apply_ops(base, batch.ops@)[mk_key(TABLE_HEADER_BY_HEIGHT, h, 0, 0)] == tagged(h, hash, hash),
                spends_ok(base, apply_ops(base, batch.ops@), *b),
                apply_ops(base, batch.ops@).contains_key(mk_key(TABLE_HEADER_BY_HASH, hash, 0, 0)),
                apply_ops(base, batch.ops@).contains_key(mk_key(TABLE_HEADER_BY_HEIGHT, h, 0, 0)),
                txs_indexed(apply_ops(base, batch.ops@), *b, p as int),
            decreases b.txs@.len() - p,
        {
            let tx = &b.txs[p];
            let pos = p as u64;
            let ghost m0 = apply_ops(base, batch.ops@);
            self.stage(&mut batch, key(TABLE_TX, tx.txid, 0, 0), h, hash, pos, Ghost(base), Ghost(s2), Ghost(*b));
            proof {
                lemma_keep_txs(m0, apply_ops(base, batch.ops@), *b, p as int);
            }
            let mut o: usize = 0;
            while o < tx.outputs.len()
                invariant
                    self.wf(),
                    self.store@ == base,
                    s2 == self.chain@.push(b.header),
                    s2[h as int] == b.header,
                    h == b.header.height,
                    hash == b.header.hash,
                    h < s2.len(),
                    h + 1 == s2.len(),
                h + 1 == s2.len(),
                    p < b.txs@.len(),
                    *tx == b.txs@[p as int],
                    pos == p as u64,
                    o <= tx.outputs@.len(),
                    staged_ok(base, apply_ops(base, batch.ops@), s2),
                staged_history(apply_ops(base, batch.ops@), *b),
                apply_ops(base, batch.ops@)[mk_key(TABLE_HEADER_BY_HASH, hash, 0, 0)] == tagged(h, hash, b.header.prev_hash),
                apply_ops(base, batch.ops@)[mk_key(TABLE_HEADER_BY_HEIGHT, h, 0, 0)] == tagged(h, hash, hash),
                spends_ok(base, apply_ops(base, batch.ops@), *b),
                    apply_ops(base, batch.ops@).contains_key(mk_key(TABLE_HEADER_BY_HASH, hash, 0, 0)),
                    apply_ops(base, batch.ops@).contains_key(mk_key(TABLE_HEADER_BY_HEIGHT, h, 0, 0)),
                    txs_indexed(apply_ops(base, batch.ops@), *b, p as int),
                    apply_ops(base, batch.ops@).contains_key(tx_key(tx.txid)),
                    outs_indexed(apply_ops(base, batch.ops@), *tx, h, pos, o as int),
                decreases tx.outputs@.len() - o,
            {
                let out = tx.outputs[o];
                let vout = o as u64;
                let ghost m0 = apply_ops(base, batch.ops@);
                self.stage(&mut batch, key(TABLE_FUNDING, tx.txid, vout, 0), h, hash, out.script, Ghost(base), Ghost(s2), Ghost(*b));
                self.stage(&mut batch, key(TABLE_SCRIPT_OUT, out.script, tx.txid, vout), h, hash, out.value, Ghost(base), Ghost(s2), Ghost(*b));
                self.stage(&mut batch, key(TABLE_HISTORY, out.script, h, pos), h, hash, tx.txid, Ghost(base), Ghost(s2), Ghost(*b));
                proof {
                    let m1 = apply_ops(base, batch.ops@);
                    lemma_keep_txs(m0, m1, *b, p as int);
                    lemma_keep_outs(m0, m1, *tx, h, pos, o as int);
                    assert(out_indexed(m1, *tx, h, pos, o as int));
                    assert(outs_indexed(m1, *tx, h, pos, o + 1));
                }
                o = o + 1;
            }
            let mut q: usize = 0;
            while q < tx.inputs.len()
                invariant
                    self.wf(),
                    self.store@ == base,
                    s2 == self.chain@.push(b.header),
                    s2[h as int] == b.header,
                    h == b.header.height,
                    hash == b.header.hash,
                    h < s2.len(),
                    h + 1 == s2.len(),
                h + 1 == s2.len(),
                    p < b.txs@.len(),
                    *tx == b.txs@[p as int],
                    pos == p as u64,
                    q <= tx.inputs@.len(),
                    staged_ok(base, apply_ops(base, batch.ops@), s2),
                staged_history(apply_ops(base, batch.ops@), *b),
                apply_ops(base, batch.ops@)[mk_key(TABLE_HEADER_BY_HASH, hash, 0, 0)] == tagged(h, hash, b.header.prev_hash),
                apply_ops(base, batch.ops@)[mk_key(TABLE_HEADER_BY_HEIGHT, h, 0, 0)] == tagged(h, hash, hash),
                spends_ok(base, apply_ops(base, batch.ops@), *b),
                    apply_ops(base, batch.ops@).contains_key(mk_key(TABLE_HEADER_BY_HASH, hash, 0, 0)),
                    apply_ops(base, batch.ops@).contains_key(mk_key(TABLE_HEADER_BY_HEIGHT, h, 0, 0)),
                    txs_indexed(apply_ops(base, batch.ops@), *b, p as int),
                    apply_ops(base, batch.ops@).contains_key(tx_key(tx.txid)),
                    outs_indexed(apply_ops(base, batch.ops@), *tx, h, pos, tx.outputs@.len() as int),
                    ins_indexed(apply_ops(base, batch.ops@), *tx, q as int),
                decreases tx.inputs@.len() - q,
            {
                let inp = tx.inputs[q];
                let ghost m0 = apply_ops(base, batch.ops@);
                self.stage(&mut batch, key(TABLE_SPEND, inp.txid, inp.vout, 0), h, hash, tx.txid, Ghost(base), Ghost(s2), Ghost(*b));
                proof {
                    assert(b.txs@[p as int].inputs@[q as int] == inp);
                    assert(spend_from(*b, spend_key(inp.txid, inp.vout)));
                }
                let funding = key(TABLE_FUNDING, inp.txid, inp.vout, 0);
                let funded = match batch.staged_data(&funding) {
                    Some(script) => Some(script),
                    None => match self.store.get(&funding) {
                        Some(v) => Some(v.data),
                        None => None,
                    },
                };
                match funded {
                    Some(script) => {
                        self.stage(&mut batch, key(TABLE_HISTORY, script, h, pos), h, hash, tx.txid, Ghost(base), Ghost(s2), Ghost(*b));
                    },
                    None => {},
                }
                proof {
                    let m1 = apply_ops(base, batch.ops@);
                    lemma_keep_txs(m0, m1, *b, p as int);
                    lemma_keep_outs(m0, m1, *tx, h, pos, tx.outputs@.len() as int);
                    lemma_keep_ins(m0, m1, *tx, q as int);
                    assert(m1.contains_key(spend_key(tx.inputs@[q as int].txid, tx.inputs@[q as int].vout)));
                    assert(ins_indexed(m1, *tx, q + 1));
                }
                q = q + 1;
            }
            proof {
                let m1 = apply_ops(base, batch.ops@);
                assert(tx_indexed(m1, b.txs@[p as int], h, p as u64));
                assert forall|pp: int| 0 <= pp < p + 1 implies tx_indexed(
                    m1,
                    #[trigger] b.txs@[pp],
                    b.header.height,
                    pp as u64,
                ) by {}
            }
            p = p + 1;
        }
        let tip = Val { height: h, block: hash, data: hash };
        let ghost ops0 = batch.ops@;
        batch.put(key(TABLE_META, META_TIP, 0, 0), tip);
        proof {
            lemma_apply_push(base, ops0, Op::Put(tip_key(), tip));
            let m0 = apply_ops(base, ops0);
            let m1 = apply_ops(base, batch.ops@);
            lemma_keep_txs(m0, m1, *b, b.txs@.len() as int);
        }
        self.store.write(&batch);
        self.chain.push(b.header);
        proof {
            let m1 = self.store@;
            assert(s2 == self.chain@);
            assert(done_key() != tip_key());
            assert(m1.contains_key(done_key()) == apply_ops(base, ops0).contains_key(done_key()));
            let m0 = apply_ops(base, ops0);
            assert forall|p: int, o: int|
                0 <= p < b.txs@.len() && 0 <= o < b.txs@[p].outputs@.len() implies {
                    &&& m1.contains_key(
                        history_key((#[trigger] b.txs@[p].outputs@[o]).script, b.header.height, p as u64),
                    )
                    &&& m1[history_key(b.txs@[p].outputs@[o].script, b.header.height, p as u64)].data
                        == b.txs@[p].txid
                } by {
                assert(tx_indexed(m0, b.txs@[p], h, p as u64));
                assert(out_indexed(m0, b.txs@[p], h, p as u64, o));
                let k = history_key(b.txs@[p].outputs@[o].script, b.header.height, p as u64);
                assert(k != tip_key());
                assert(m0.contains_key(k));
            }
            assert forall|i: int| 0 <= i < s2.len() implies #[trigger] header_recorded(m1, s2, i) by {
                if i < h {
                    assert(header_recorded(base, s0, i));
                    assert(s2[i] == s0[i]);
                    assert(s0[i].hash != hash);
                    assert(header_by_height_key(i as u64) != header_by_height_key(h));
                    assert(m0.contains_key(header_by_height_key(i as u64)));
                    assert(m0.contains_key(header_by_hash_key(s0[i].hash)));
                } else {
                    assert(s2[i] == b.header);
                }
            }
            assert forall|k: Key|
                #![trigger m1[k]]
                m1.contains_key(k) && k.table != TABLE_META implies m1[k].height < s2.len()
                    && s2[m1[k].height as int].hash == m1[k].block by {
                assert(k != tip_key());
            }
        }
    }

    /// Removes the tip block in one batch: every entry derived from it, and
    /// the tip pointer moves to its parent.
    fn rollback_tip(&mut self)
        requires
            old(self).wf(),
            old(self).chain_view().len() > 0,
        ensures
            final(self).wf(),
            final(self).chain_view() == old(self).chain_view().drop_last(),
            final(self).store_view().contains_key(done_key()) == old(self).store_view().contains_key(
                done_key(),
            ),
            forall|k: Key|
                #![trigger final(self).store_view().contains_key(k)]
                k.table != TABLE_META ==> (final(self).store_view().contains_key(k) <==> (old(self).store_view().contains_key(k) && old(self).store_view()[k].height + 1 < old(self).chain_view().len())),
            forall|k: Key|
                #![trigger final(self).store_view()[k]]
                final(self).store_view().contains_key(k) && k.table != TABLE_META ==> final(self).store_view()[k]
                    == old(self).store_view()[k],
    {
        let n = self.chain.len();
        let h = (n - 1) as u64;
        let ghost base = self.store@;
        let ghost s0 = self.chain@;
        let keys = self.store.keys_at_height(h, TABLE_META);
        let mut batch = WriteBatch::new();
        let mut i: usize = 0;
        while i < keys.len()
            invariant
                self.store@ == base,
                self.chain@ == s0,
                self.wf(),
                i <= keys@.len(),
                forall|k: Key|
                    keys@.contains(k) <==> (base.contains_key(k) && k.table != TABLE_META
                        && base[k].height == h),
                forall|k: Key|
                    #![trigger apply_ops(base, batch.ops@).contains_key(k)]
                    apply_ops(base, batch.ops@).contains_key(k) <==> (base.contains_key(k)
                        && !keys@.subrange(0, i as int).contains(k)),
                forall|k: Key|
                    #![trigger apply_ops(base, batch.ops@)[k]]
                    apply_ops(base, batch.ops@).contains_key(k) ==> apply_ops(base, batch.ops@)[k]
                        == base[k],
            decreases keys@.len() - i,
        {
            let ghost ops0 = batch.ops@;
            batch.delete(keys[i]);
            proof {
                lemma_apply_push(base, ops0, Op::Delete(keys@[i as int]));
                let sub0 = keys@.subrange(0, i as int);
                let sub1 = keys@.subrange(0, i + 1);
                assert(sub1 =~= sub0.push(keys@[i as int]));
                assert forall|k: Key| sub1.contains(k) <==> (sub0.contains(k) || k == keys@[i as int]) by {
                    if sub1.contains(k) {
                        let j = choose|j: int| 0 <= j < sub1.len() && sub1[j] == k;
                        if j < i {
                            assert(sub0[j] == k);
                        }
                    }
                    if sub0.contains(k) {
                        let j = choose|j: int| 0 <= j < sub0.len() && sub0[j] == k;
                        assert(sub1[j] == k);
                    }
                    if k == keys@[i as int] {
                        assert(sub1[i as int] == k);
                    }
                }
            }
            i = i + 1;
        }
        let ghost ops1 = batch.ops@;
        if n > 1 {
            let prev = self.chain.header_at(h - 1).unwrap();
            batch.put(key(TABLE_META, META_TIP, 0, 0), Val { height: prev.height, block: prev.hash, data: prev.hash });
            proof {
                lemma_apply_push(base, ops1, Op::Put(tip_key(), tagged(prev.height, prev.hash, prev.hash)));
            }
        } else {
            batch.delete(key(TABLE_META, META_TIP, 0, 0));
            proof {
                lemma_apply_push(base, ops1, Op::Delete(tip_key()));
            }
        }
        self.store.write(&batch);
        self.chain.truncate(n - 1);
        proof {
            assert(keys@.subrange(0, keys@.len() as int) =~= keys@);
            let m = self.store@;
            let s1 = self.chain@;
            assert(s1 =~= s0.drop_last());
            assert forall|k: Key|
                #![trigger m[k]]
                m.contains_key(k) && k.table != TABLE_META implies m[k].height < s1.len()
                    && s1[m[k].height as int].hash == m[k].block by {
                assert(k != tip_key());
                assert(!keys@.contains(k));
            }
            assert(done_key() != tip_key());
            assert(!keys@.contains(done_key()));
            assert forall|i: int| 0 <= i < s1.len() implies #[trigger] header_recorded(m, s1, i) by {
                assert(s1[i] == s0[i]);
                assert(header_recorded(base, s0, i));
                assert(!keys@.contains(header_by_height_key(i as u64)));
                assert(!keys@.contains(header_by_hash_key(s0[i].hash)));
            }
            assert(m.contains_key(done_key()) == apply_ops(base, ops1).contains_key(done_key()));
            assert forall|k: Key|
                #![trigger m.contains_key(k)]
                k.table != TABLE_META implies (m.contains_key(k) <==> (base.contains_key(k)
                    && base[k].height + 1 < s0.len())) by {
                assert(k != tip_key());
                if base.contains_key(k) && !keys@.contains(k) {
                    assert(base[k].height != h);
                }
            }
        }
    }

    /// Whether `branch` links onto the chain held (see `links`). An empty
    /// branch links nowhere.
    pub fn branch_links(&self, branch: &Vec<Block>) -> (r: bool)
        requires
            self.wf(),
        ensures
            r == (branch@.len() > 0 && links(self.chain_view(), headers_of(branch@))),
    {
        if branch.len() == 0 {
            return false;
        }
        let ghost hs = headers_of(branch@);
        let ghost s = self.chain@;
        let fork = branch[0].header.height;
        if fork > self.chain.len() as u64 {
            return false;
        }
        let ghost pre = s.subrange(0, fork as int);
        let ghost t = pre + hs;
        let mut j: usize = 0;
        while j < branch.len()
            invariant
                self.wf(),
                s == self.chain@,
                hs == headers_of(branch@),
                fork == hs[0].height,
                fork <= s.len(),
                pre == s.subrange(0, fork as int),
                t == pre + hs,
                j <= branch@.len(),
                chain_ok(t.subrange(0, fork + j)),
            decreases branch@.len() - j,
        {
            let hd = branch[j].header;
            proof {
                assert(hd == t[fork + j]);
            }
            if hd.height < fork || hd.height - fork != j as u64 {
                return false;
            }
            if j == 0 {
                if fork > 0 && self.chain.header_at(fork - 1).unwrap().hash != hd.prev_hash {
                    proof {
                        assert(t[fork - 1] == s[fork - 1]);
                    }
                    return false;
                }
            } else if branch[j - 1].header.hash != hd.prev_hash {
                proof {
                    assert(t[fork + j - 1] == branch@[j - 1].header);
                }
                return false;
            }
            match self.chain.height_of(hd.hash) {
                Some(i) => {
                    if i < fork {
                        proof {
                            assert(t[i as int] == s[i as int]);
                            assert(t[i as int].hash == t[fork + j].hash);
                        }
                        return false;
                    }
                },
                None => {},
            }
            let mut jj: usize = 0;
            while jj < j
                invariant
                    j < branch@.len(),
                    jj <= j,
                    hs == headers_of(branch@),
                    hd == hs[j as int],
                    t == pre + hs,
                    pre.len() == fork,
                    fork == hs[0].height,
                    s == self.chain@,
                    pre == s.subrange(0, fork as int),
                    forall|a: int| 0 <= a < jj ==> (#[trigger] hs[a]).hash != hd.hash,
                decreases j - jj,
            {
                if branch[jj].header.hash == hd.hash {
                    proof {
                        assert(t[fork + jj] == hs[jj as int]);
                        assert(t[fork + j] == hs[j as int]);
                    }
                    return false;
                }
                jj = jj + 1;
            }
            proof {
                assert forall|i: int| 0 <= i < fork implies (#[trigger] s[i]).hash != hd.hash by {
                    if s[i].hash == hd.hash {
                        assert(chain_has(s, hd.hash));
                    }
                }
                lemma_link_step(s, hs, fork as int, j as int);
            }
            j = j + 1;
        }
        proof {
            assert(t.subrange(0, fork + j) =~= t);
        }
        true
    }

    /// Moves the index onto `branch`, the blocks of the node's best chain
    /// from the child of the common ancestor up to its tip: every block above
    /// the ancestor is rolled back, tip first, one batch each, then each block
    /// of `branch` is indexed in ascending height, one batch each. An empty
    /// `branch` (the node's tip is ours) writes nothing.
    #[verifier::rlimit(60)]
    pub fn reconcile(&mut self, branch: &Vec<Block>) -> (r: Result<(), SyncError>)
        requires
            old(self).wf(),
        ensures
            final(self).wf(),
            branch@.len() == 0 ==> r is Ok && final(self).chain_view() == old(self).chain_view()
                && final(self).store_view() == old(self).store_view(),
            branch@.len() > 0 ==> (r == Err::<(), SyncError>(SyncError::Disconnected) <==> !links(
                old(self).chain_view(),
                headers_of(branch@),
            )),
            branch@.len() > 0 ==> (r == Err::<(), SyncError>(SyncError::DeepReorg) <==> (links(
                old(self).chain_view(),
                headers_of(branch@),
            ) && old(self).chain_view().len() - headers_of(branch@)[0].height > MAX_REORG_DEPTH)),
            r is Err ==> final(self).chain_view() == old(self).chain_view()
                && final(self).store_view() == old(self).store_view(),
            r is Ok ==> final(self).chain_view() == with_branch(old(self).chain_view(), headers_of(branch@)),
            final(self).store_view().contains_key(done_key()) == old(self).store_view().contains_key(
                done_key(),
            ),
            r is Ok ==> forall|j: int|
                0 <= j < branch@.len() ==> block_indexed(final(self).store_view(), #[trigger] branch@[j]),
            r is Ok ==> forall|j: int|
                0 <= j < branch@.len() ==> block_history(final(self).store_view(), #[trigger] branch@[j]),
            r is Ok && branch@.len() > 0 ==> forall|k: Key|
                #![trigger final(self).store_view().contains_key(k)]
                k.table != TABLE_META && old(self).store_view().contains_key(k) && old(self).store_view()[k].height < headers_of(branch@)[0].height ==> final(self).store_view().contains_key(k),
            r is Ok && branch@.len() > 0 ==> forall|k: Key|
                #![trigger final(self).store_view()[k]]
                k.table != TABLE_META && final(self).store_view().contains_key(k) && old(self).store_view().contains_key(k)
                    && old(self).store_view()[k].height < headers_of(branch@)[0].height ==> final(self).store_view()[k]
                    == old(self).store_view()[k] || final(self).store_view()[k].height >= headers_of(branch@)[0].height,
            r is Ok ==> forall|k: Key|
                #![trigger final(self).store_view().contains_key(k)]
                final(self).store_view().contains_key(k) && k.table == TABLE_SPEND ==> old(self).store_view().contains_key(k) || exists|j: int|
                    0 <= j < branch@.len() && spend_from(#[trigger] branch@[j], k),
    {
        if branch.len() == 0 {
            return Ok(());
        }
        if !self.branch_links(branch) {
            return Err(SyncError::Disconnected);
        }
        let fork = branch[0].header.height;
        if self.chain.len() as u64 - fork > MAX_REORG_DEPTH {
            return Err(SyncError::DeepReorg);
        }
        let ghost s = self.chain@;
        let ghost hs = headers_of(branch@);
        let ghost t = s.subrange(0, fork as int) + hs;
        assert(hs.len() == branch@.len());
        while self.chain.len() as u64 > fork
            invariant
                self.wf(),
                fork <= s.len(),
                self.chain@.len() >= fork,
                self.chain@.len() <= s.len(),
                self.chain@ == s.subrange(0, self.chain@.len() as int),
                self.store@.contains_key(done_key()) == old(self).store_view().contains_key(done_key()),
                forall|k: Key|
                    #![trigger self.store@.contains_key(k)]
                    k.table != TABLE_META && old(self).store_view().contains_key(k) && old(self).store_view()[k].height < fork ==> self.store@.contains_key(k),
                forall|k: Key|
                    #![trigger self.store@.contains_key(k)]
                    self.store@.contains_key(k) && k.table != TABLE_META ==> old(self).store_view().contains_key(k)
                        && self.store@[k] == old(self).store_view()[k],
            decreases self.chain@.len(),
        {
            self.rollback_tip();
            proof {
                assert(self.chain@ =~= s.subrange(0, self.chain@.len() as int));
            }
        }
        proof {
            assert(self.chain@ =~= t.subrange(0, fork as int));
        }
        let mut j: usize = 0;
        while j < branch.len()
            invariant
                self.wf(),
                hs == headers_of(branch@),
                fork == hs[0].height,
                t == s.subrange(0, fork as int) + hs,
                hs.len() == branch@.len(),
                t.len() == fork + branch@.len(),
                chain_ok(t),
                j <= branch@.len(),
                self.chain@ == t.subrange(0, fork + j),
                forall|jj: int| 0 <= jj < j ==> block_indexed(self.store@, #[trigger] branch@[jj]),
                forall|jj: int| 0 <= jj < j ==> block_history(self.store@, #[trigger] branch@[jj]),
                self.store@.contains_key(done_key()) == old(self).store_view().contains_key(done_key()),
                forall|k: Key|
                    #![trigger self.store@.contains_key(k)]
                    k.table != TABLE_META && old(self).store_view().contains_key(k) && old(self).store_view()[k].height < fork ==> self.store@.contains_key(k),
                forall|k: Key|
                    #![trigger self.store@.contains_key(k)]
                    self.store@.contains_key(k) && k.table == TABLE_SPEND ==> old(self).store_view().contains_key(k) || exists|jj: int|
                        0 <= jj < j && spend_from(#[trigger] branch@[jj], k),
                forall|k: Key|
                    #![trigger self.store@[k]]
                    self.store@.contains_key(k) && k.table != TABLE_META ==> (old(self).store_view().contains_key(k)
                        && self.store@[k] == old(self).store_view()[k]) || self.store@[k].height >= fork,
            decreases branch@.len() - j,
        {
            proof {
                lemma_prefix_extends(t, fork + j);
                assert(t[fork + j] == branch@[j as int].header);
            }
            let ghost m0 = self.store@;
            self.index_block(&branch[j]);
            proof {
                assert forall|k: Key|
                    #![trigger self.store@.contains_key(k)]
                    self.store@.contains_key(k) && k.table == TABLE_SPEND implies old(self).store_view().contains_key(k) || exists|jj: int|
                        0 <= jj < j + 1 && spend_from(#[trigger] branch@[jj], k) by {
                    if !m0.contains_key(k) {
                        assert(spend_from(branch@[j as int], k));
                    }
                }
                assert forall|jj: int| 0 <= jj < j + 1 implies block_indexed(self.store@, #[trigger] branch@[jj]) by {
                    if jj < j {
                        lemma_keep_block(m0, self.store@, branch@[jj]);
                    }
                }
                assert forall|jj: int| 0 <= jj < j + 1 implies block_history(self.store@, #[trigger] branch@[jj]) by {
                    if jj < j {
                        assert(branch@[jj].header == t[fork + jj]);
                        lemma_keep_history(m0, self.store@, branch@[jj], (fork + j) as u64);
                    }
                }
                assert(self.chain@ =~= t.subrange(0, fork + j + 1));
            }
            j = j + 1;
        }
        proof {
            assert(t.subrange(0, fork + j) =~= t);
        }
        Ok(())
    }

    /// Whether the initial bulk sync has been recorded as done.
    pub fn done_initial_sync(&self) -> (r: bool)
        requires
            self.wf(),
        ensures
            r == self.store_view().contains_key(done_key()),
    {
        self.store.get(&key(TABLE_META, META_DONE, 0, 0)).is_some()
    }

    /// Records in one batch that the initial bulk sync is done.
    fn mark_done(&mut self)
        requires
            old(self).wf(),
        ensures
            final(self).wf(),
            final(self).chain_view() == old(self).chain_view(),
            final(self).store_view() == old(self).store_view().insert(done_key(), tagged(0, 0, 1)),
    {
        let mut batch = WriteBatch::new();
        batch.put(key(TABLE_META, META_DONE, 0, 0), Val { height: 0, block: 0, data: 1 });
        proof {
            lemma_apply_push(self.store@, Seq::empty(), Op::Put(done_key(), tagged(0, 0, 1)));
            assert(batch.ops@ == Seq::<Op>::empty().push(Op::Put(done_key(), tagged(0, 0, 1))));
        }
        let ghost m0 = self.store@;
        self.store.write(&batch);
        proof {
            assert forall|i: int| 0 <= i < self.chain@.len() implies #[trigger] header_recorded(
                self.store@,
                self.chain@,
                i,
            ) by {
                assert(header_recorded(m0, self.chain@, i));
            }
        }
    }

    /// Bulk ingestion: indexes `blocks`, read in height order from the raw
    /// block files, on top of the tip, one batch per block. Once the tip is
    /// at `best_height`, the node's best height, and no file is left to
    /// read, the initial sync is recorded as done.
    pub fn ingest_bulk(&mut self, blocks: &Vec<Block>, best_height: u64, files_left: bool) -> (r:
        Result<(), SyncError>)
        requires
            old(self).wf(),
        ensures
            final(self).wf(),
            r is Err <==> (blocks@.len() > 0 && !(headers_of(blocks@)[0].height == old(self).chain_view().len() && links(old(self).chain_view(), headers_of(blocks@)))),
            r is Err ==> r == Err::<(), SyncError>(SyncError::Disconnected) && final(self).chain_view()
                == old(self).chain_view() && final(self).store_view() == old(self).store_view(),
            r is Ok ==> final(self).chain_view() == old(self).chain_view() + headers_of(blocks@),
            r is Ok ==> forall|j: int|
                0 <= j < blocks@.len() ==> block_indexed(final(self).store_view(), #[trigger] blocks@[j]),
            r is Ok ==> forall|k: Key|
                #![trigger final(self).store_view().contains_key(k)]
                k.table != TABLE_META && old(self).store_view().contains_key(k) ==> final(self).store_view().contains_key(k),
            r is Ok ==> (final(self).store_view().contains_key(done_key()) <==> (old(self).store_view().contains_key(done_key()) || (!files_left && final(self).chain_view().len()
                == best_height as int + 1))),
    {
        if blocks.len() > 0 && blocks[0].header.height != self.chain.len() as u64 {
            return Err(SyncError::Disconnected);
        }
        let ghost s = self.chain@;
        let ghost m0 = self.store@;
        let res = self.reconcile(blocks);
        match res {
            Err(e) => {
                return Err(e);
            },
            Ok(()) => {},
        }
        proof {
            let hs = headers_of(blocks@);
            if blocks@.len() > 0 {
                assert(s.subrange(0, hs[0].height as int) =~= s);
            } else {
                assert(s + hs =~= s);
            }
        }
        let n = self.chain.len();
        if !files_left && n > 0 && (n - 1) as u64 == best_height {
            let ghost m1 = self.store@;
            self.mark_done();
            proof {
                assert(m1.dom().subset_of(self.store@.dom()));
                assert forall|j: int| 0 <= j < blocks@.len() implies block_indexed(self.store@, #[trigger] blocks@[j]) by {
                    lemma_keep_block(m1, self.store@, blocks@[j]);
                }
            }
        }
        Ok(())
    }

    /// Adds to `batch` a put of `k`, tagged with the block being indexed.
    fn stage(
        &self,
        batch: &mut WriteBatch,
        k: Key,
        h: u64,
        hash: u64,
        data: u64,
        Ghost(base): Ghost<Map<Key, Val>>,
        Ghost(s2): Ghost<Seq<BlockHeader>>,
        Ghost(blk): Ghost<Block>,
    )
        requires
            k.table != TABLE_META,
            h < s2.len(),
            h + 1 == s2.len(),
            s2[h as int].hash == hash,
            k.table == TABLE_HEADER_BY_HASH || k.table == TABLE_HEADER_BY_HEIGHT ==> k
                == header_by_height_key(s2.last().height) || k == header_by_hash_key(s2.last().hash),
            staged_ok(base, apply_ops(base, old(batch).ops@), s2),
            staged_history(apply_ops(base, old(batch).ops@), blk),
            blk.header.height == h,
            k.table == TABLE_HISTORY ==> k.b == h && k.c < blk.txs@.len() && data
                == blk.txs@[k.c as int].txid,
        ensures
            final(batch).ops@ == old(batch).ops@.push(Op::Put(k, tagged(h, hash, data))),
            apply_ops(base, final(batch).ops@) == apply_ops(base, old(batch).ops@).insert(
                k,
                tagged(h, hash, data),
            ),
            apply_ops(base, old(batch).ops@).dom().subset_of(apply_ops(base, final(batch).ops@).dom()),
            staged_ok(base, apply_ops(base, final(batch).ops@), s2),
            staged_history(apply_ops(base, final(batch).ops@), blk),
    {
        let ghost ops0 = batch.ops@;
        batch.put(k, Val { height: h, block: hash, data });
        proof {
            lemma_apply_push(base, ops0, Op::Put(k, tagged(h, hash, data)));
            let m0 = apply_ops(base, ops0);
            let m1 = apply_ops(base, batch.ops@);
            assert forall|kk: Key|
                #![trigger m1[kk]]
                m1.contains_key(kk) && kk.table == TABLE_HISTORY implies m1[kk].height == kk.b by {
                if kk != k {
                    assert(m0.contains_key(kk));
                    assert(m1[kk] == m0[kk]);
                }
            }
            assert forall|kk: Key|
                #![trigger m1[kk]]
                m1.contains_key(kk) && kk.table == TABLE_HISTORY && kk.b == blk.header.height implies m1[kk].data
                    == blk.txs@[kk.c as int].txid by {
                if kk != k {
                    assert(m0.contains_key(kk));
                    assert(m1[kk] == m0[kk]);
                } else {
                    assert(m1[kk].data == data);
                }
            }
        }
    }
}

/// Reorganisation onto the node's chain: when the chain held and the node's
/// chain agree up to height `k` and the node's chain goes higher, the node's
/// blocks above `k` link onto the chain held, and putting them in place of
/// what the chain held above `k` yields exactly the node's chain.
pub proof fn lemma_reorg_onto_node_chain(held: Seq<BlockHeader>, node: Seq<BlockHeader>, k: int)
    requires
        chain_ok(held),
        chain_ok(node),
        0 <= k < held.len(),
        k + 1 < node.len(),
        held.subrange(0, k + 1) == node.subrange(0, k + 1),
    ensures
        links(held, node.subrange(k + 1, node.len() as int)),
        with_branch(held, node.subrange(k + 1, node.len() as int)) == node,
{
    let hs = node.subrange(k + 1, node.len() as int);
    assert(hs[0] == node[k + 1]);
    assert(held.subrange(0, k + 1) + hs =~= node);
}

/// Once the index is consistent with the node's chain `node`, no entry
/// derived from an abandoned block (block `j` of the chain held before,
/// which `node` does not have at that height) remains.
pub proof fn lemma_abandoned_entries_gone(
    m: Map<Key, Val>,
    node: Seq<BlockHeader>,
    held: Seq<BlockHeader>,
    j: int,
)
    requires
        consistent(m, node),
        0 <= j < held.len(),
        !(j < node.len() && node[j].hash == held[j].hash),
    ensures
        forall|k: Key|
            #![trigger m[k]]
            m.contains_key(k) && k.table != TABLE_META ==> !(m[k].height == j && m[k].block
                == held[j].hash),
{
}

/// What a well-formed index writes is what a restart reads back: its store
/// holds its chain, so `SyncEngine::open` over that store rebuilds it.
pub proof fn lemma_written_store_reopens(e: SyncEngine)
    requires
        e.wf(),
        e.chain_view().len() <= u64::MAX,
    ensures
        store_holds_chain(e.store_view(), e.chain_view()),
{
}

} // verus!
