use vstd::prelude::*;
use crate::schema::{
    key, history_key, script_out_key, spend_key, tx_key, TABLE_HISTORY, TABLE_SCRIPT_OUT,
    TABLE_SPEND, TABLE_TX,
};
use crate::store::{IndexStore, Key, Val, Entry, Op, apply_op, key_lt, seq_has, under_prefix};

verus! {

/// One touch of a script: the transaction `txid` at position `pos` of the
/// block at `height`.
#[derive(PartialEq, Eq, Structural, Clone, Copy, Debug)]
pub struct HistoryItem {
    pub height: u64,
    pub pos: u64,
    pub txid: u64,
}

/// An unspent output: its outpoint and amount.
#[derive(PartialEq, Eq, Structural, Clone, Copy, Debug)]
pub struct Utxo {
    pub txid: u64,
    pub vout: u64,
    pub value: u64,
}

/// Ascending by height, then by position within the block.
pub open spec fn history_before(x: HistoryItem, y: HistoryItem) -> bool {
    x.height < y.height || (x.height == y.height && x.pos < y.pos)
}

/// An output paying `script` with no recorded spend-edge.
pub open spec fn is_utxo(m: Map<Key, Val>, script: u64, txid: u64, vout: u64) -> bool {
    m.contains_key(script_out_key(script, txid, vout)) && !m.contains_key(spend_key(txid, vout))
}

/// The confirmed history of `script`, ascending by height, then by position
/// within the block: exactly the history entries held for it.
pub fn history(store: &IndexStore, script: u64) -> (r: Vec<HistoryItem>)
    requires
        store.wf(),
    ensures
        forall|i: int, j: int|
            0 <= i < j < r@.len() ==> history_before(#[trigger] r@[i], #[trigger] r@[j]),
        forall|i: int|
            0 <= i < r@.len() ==> store@.contains_key(
                history_key(script, (#[trigger] r@[i]).height, r@[i].pos),
            ) && store@[history_key(script, r@[i].height, r@[i].pos)].data == r@[i].txid,
        forall|height: u64, pos: u64|
            #![trigger history_key(script, height, pos)]
            store@.contains_key(history_key(script, height, pos)) ==> exists|i: int|
                0 <= i < r@.len() && r@[i].height == height && r@[i].pos == pos,
{
    let es = store.scan_prefix(TABLE_HISTORY, script);
    let mut r: Vec<HistoryItem> = Vec::new();
    let mut i: usize = 0;
    while i < es.len()
        invariant
            i <= es@.len(),
            r@.len() == i,
            forall|p: int|
                0 <= p < i ==> #[trigger] r@[p] == (HistoryItem {
                    height: es@[p].key.b,
                    pos: es@[p].key.c,
                    txid: es@[p].val.data,
                }),
        decreases es@.len() - i,
    {
        let e = es[i];
        r.push(HistoryItem { height: e.key.b, pos: e.key.c, txid: e.val.data });
        i = i + 1;
    }
    proof {
        assert forall|p: int| 0 <= p < r@.len() implies es@[p].key == history_key(
            script,
            (#[trigger] r@[p]).height,
            r@[p].pos,
        ) && store@.contains_key(es@[p].key) && store@[es@[p].key].data == r@[p].txid by {
            assert(seq_has(es@, es@[p].key));
        }
        assert forall|p: int, q: int| 0 <= p < q < r@.len() implies history_before(
            #[trigger] r@[p],
            #[trigger] r@[q],
        ) by {
            assert(key_lt(es@[p].key, es@[q].key));
            assert(es@[p].key == history_key(script, r@[p].height, r@[p].pos));
            assert(es@[q].key == history_key(script, r@[q].height, r@[q].pos));
        }
        assert forall|height: u64, pos: u64|
            #![trigger history_key(script, height, pos)]
            store@.contains_key(history_key(script, height, pos)) implies exists|p: int|
                0 <= p < r@.len() && r@[p].height == height && r@[p].pos == pos by {
            let k = history_key(script, height, pos);
            assert(under_prefix(k, TABLE_HISTORY, script));
            assert(seq_has(es@, k));
            let p = choose|p: int| 0 <= p < es@.len() && (#[trigger] es@[p]).key == k;
            assert(r@[p].height == height && r@[p].pos == pos);
        }
    }
    r
}

/// The unspent outputs paying `script`: exactly the outputs held for it
/// that no spend-edge names, ascending by outpoint.
#[verifier::rlimit(60)]
pub fn utxos(store: &IndexStore, script: u64) -> (r: Vec<Utxo>)
    requires
        store.wf(),
    ensures
        forall|i: int, j: int|
            0 <= i < j < r@.len() ==> (#[trigger] r@[i]).txid < (#[trigger] r@[j]).txid || (
            r@[i].txid == r@[j].txid && r@[i].vout < r@[j].vout),
        forall|i: int|
            0 <= i < r@.len() ==> is_utxo(store@, script, (#[trigger] r@[i]).txid, r@[i].vout)
                && store@[script_out_key(script, r@[i].txid, r@[i].vout)].data == r@[i].value,
        forall|txid: u64, vout: u64|
            #![trigger script_out_key(script, txid, vout)]
            is_utxo(store@, script, txid, vout) ==> exists|i: int|
                0 <= i < r@.len() && r@[i].txid == txid && r@[i].vout == vout,
{
    let es = store.scan_prefix(TABLE_SCRIPT_OUT, script);
    assert forall|p: int| 0 <= p < es@.len() implies store@.contains_key(#[trigger] es@[p].key) by {
        assert(seq_has(es@, es@[p].key));
    }
    let mut r: Vec<Utxo> = Vec::new();
    let mut i: usize = 0;
    while i < es.len()
        invariant
            store.wf(),
            i <= es@.len(),
            forall|p: int, q: int|
                0 <= p < q < es@.len() ==> key_lt(#[trigger] es@[p].key, #[trigger] es@[q].key),
            forall|p: int| 0 <= p < es@.len() ==> under_prefix(#[trigger] es@[p].key, TABLE_SCRIPT_OUT, script),
            forall|p: int| 0 <= p < es@.len() ==> store@[#[trigger] es@[p].key] == es@[p].val,
            forall|p: int| 0 <= p < es@.len() ==> store@.contains_key(#[trigger] es@[p].key),
            forall|p: int|
                0 <= p < r@.len() ==> exists|q: int|
                    0 <= q < i && (#[trigger] r@[p]).txid == es@[q].key.b && r@[p].vout
                        == es@[q].key.c,
            forall|p: int|
                0 <= p < r@.len() ==> is_utxo(store@, script, (#[trigger] r@[p]).txid, r@[p].vout)
                    && store@[script_out_key(script, r@[p].txid, r@[p].vout)].data == r@[p].value,
            forall|p: int, q: int|
                0 <= p < q < r@.len() ==> (#[trigger] r@[p]).txid < (#[trigger] r@[q]).txid || (
                r@[p].txid == r@[q].txid && r@[p].vout < r@[q].vout),
            forall|q: int|
                0 <= q < i && !store@.contains_key(spend_key(es@[q].key.b, es@[q].key.c))
                    ==> exists|p: int|
                    0 <= p < r@.len() && (#[trigger] r@[p]).txid == es@[q].key.b && r@[p].vout
                        == es@[q].key.c,
        decreases es@.len() - i,
    {
        let e = es[i];
        let spent = store.get(&key(TABLE_SPEND, e.key.b, e.key.c, 0));
        if spent.is_none() {
            let ghost r0 = r@;
            let u = Utxo { txid: e.key.b, vout: e.key.c, value: e.val.data };
            proof {
                assert(e.key == script_out_key(script, u.txid, u.vout));
                assert forall|p: int| 0 <= p < r0.len() implies (#[trigger] r0[p]).txid < u.txid || (
                    r0[p].txid == u.txid && r0[p].vout < u.vout) by {
                    let q = choose|q: int|
                        0 <= q < i && (#[trigger] r0[p]).txid == es@[q].key.b && r0[p].vout
                            == es@[q].key.c;
                    assert(key_lt(es@[q].key, es@[i as int].key));
                }
            }
            r.push(u);
            proof {
                assert forall|p: int| 0 <= p < r@.len() implies exists|q: int|
                    0 <= q < i + 1 && (#[trigger] r@[p]).txid == es@[q].key.b && r@[p].vout
                        == es@[q].key.c by {
                    if p < r0.len() {
                        assert(r@[p] == r0[p]);
                        let q = choose|q: int|
                            0 <= q < i && (#[trigger] r0[p]).txid == es@[q].key.b && r0[p].vout
                                == es@[q].key.c;
                    } else {
                        assert(r@[p] == u);
                    }
                }
                assert forall|q: int|
                    0 <= q < i + 1 && !store@.contains_key(spend_key(es@[q].key.b, es@[q].key.c))
                        implies exists|p: int|
                        0 <= p < r@.len() && (#[trigger] r@[p]).txid == es@[q].key.b && r@[p].vout
                            == es@[q].key.c by {
                    if q < i {
                        let p = choose|p: int|
                            0 <= p < r0.len() && (#[trigger] r0[p]).txid == es@[q].key.b
                                && r0[p].vout == es@[q].key.c;
                        assert(r@[p] == r0[p]);
                    } else {
                        assert(r@[r0.len() as int] == u);
                    }
                }
            }
        }
        i = i + 1;
    }
    proof {
        assert forall|txid: u64, vout: u64|
            #![trigger script_out_key(script, txid, vout)]
            is_utxo(store@, script, txid, vout) implies exists|p: int|
                0 <= p < r@.len() && r@[p].txid == txid && r@[p].vout == vout by {
            let k = script_out_key(script, txid, vout);
            assert(seq_has(es@, k));
            let q = choose|q: int| 0 <= q < es@.len() && (#[trigger] es@[q]).key == k;
            assert(!store@.contains_key(spend_key(es@[q].key.b, es@[q].key.c)));
        }
    }
    r
}

/// Where transaction `txid` was confirmed: the height of its block and its
/// position there.
pub fn tx_location(store: &IndexStore, txid: u64) -> (r: Option<(u64, u64)>)
    requires
        store.wf(),
    ensures
        r == (if store@.contains_key(tx_key(txid)) {
            Some((store@[tx_key(txid)].height, store@[tx_key(txid)].data))
        } else {
            None::<(u64, u64)>
        }),
{
    match store.get(&key(TABLE_TX, txid, 0, 0)) {
        Some(v) => Some((v.height, v.data)),
        None => None,
    }
}

/// An output with no spend-edge is unspent, and once a spend-edge for it is
/// written it no longer is.
pub proof fn lemma_spend_edge_removes_utxo(m: Map<Key, Val>, script: u64, txid: u64, vout: u64, edge: Val)
    requires
        m.contains_key(script_out_key(script, txid, vout)),
        !m.contains_key(spend_key(txid, vout)),
    ensures
        is_utxo(m, script, txid, vout),
        !is_utxo(apply_op(m, Op::Put(spend_key(txid, vout), edge)), script, txid, vout),
{
}

} // verus!
