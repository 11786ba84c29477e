use vstd::prelude::*;
use crate::chain::BlockHeader;
use crate::store::{Key, Val};

verus! {

/// header by hash: `a` = hash; data = parent hash.
pub const TABLE_HEADER_BY_HASH: u8 = 0;

/// header by height: `a` = height; data = hash.
pub const TABLE_HEADER_BY_HEIGHT: u8 = 1;

/// transaction by id: `a` = txid; data = position in its block.
pub const TABLE_TX: u8 = 2;

/// output by outpoint: `a` = txid, `b` = output index; data = script fingerprint.
pub const TABLE_FUNDING: u8 = 3;

/// output by script: `a` = script, `b` = txid, `c` = output index; data = amount.
pub const TABLE_SCRIPT_OUT: u8 = 4;

/// history of a script: `a` = script, `b` = height, `c` = position in block;
/// data = txid.
pub const TABLE_HISTORY: u8 = 5;

/// spend-edge: `a` = txid, `b` = output index; data = spending txid.
pub const TABLE_SPEND: u8 = 6;

/// sync metadata: `a` = `META_TIP` or `META_DONE`.
pub const TABLE_META: u8 = 7;

pub const META_TIP: u64 = 0;

pub const META_DONE: u64 = 1;

/// A reference to an output of an earlier transaction.
#[derive(PartialEq, Eq, Structural, Clone, Copy, Debug)]
pub struct OutPoint {
    pub txid: u64,
    pub vout: u64,
}

/// An output: the fingerprint of its script and its amount.
#[derive(PartialEq, Eq, Structural, Clone, Copy, Debug)]
pub struct TxOut {
    pub script: u64,
    pub value: u64,
}

#[derive(Debug)]
pub struct Transaction {
    pub txid: u64,
    pub inputs: Vec<OutPoint>,
    pub outputs: Vec<TxOut>,
}

#[derive(Debug)]
pub struct Block {
    pub header: BlockHeader,
    pub txs: Vec<Transaction>,
}

pub open spec fn mk_key(table: u8, a: u64, b: u64, c: u64) -> Key {
    Key { table, a, b, c }
}

pub open spec fn tip_key() -> Key {
    mk_key(TABLE_META, META_TIP, 0, 0)
}

pub open spec fn done_key() -> Key {
    mk_key(TABLE_META, META_DONE, 0, 0)
}

pub open spec fn header_by_hash_key(hash: u64) -> Key {
    mk_key(TABLE_HEADER_BY_HASH, hash, 0, 0)
}

pub open spec fn header_by_height_key(height: u64) -> Key {
    mk_key(TABLE_HEADER_BY_HEIGHT, height, 0, 0)
}

/// `m` records header `i` of `s`: its hash by height, its parent by hash.
pub open spec fn header_recorded(m: Map<Key, Val>, s: Seq<BlockHeader>, i: int) -> bool {
    &&& m.contains_key(header_by_height_key(i as u64))
    &&& m[header_by_height_key(i as u64)].data == s[i].hash
    &&& m[header_by_height_key(i as u64)].height == i
    &&& m.contains_key(header_by_hash_key(s[i].hash))
    &&& m[header_by_hash_key(s[i].hash)].data == s[i].prev_hash
    &&& m[header_by_hash_key(s[i].hash)].height == i
}

/// Each history entry is tagged with the height its key names.
pub open spec fn history_tagged(m: Map<Key, Val>) -> bool {
    forall|k: Key|
        #![trigger m[k]]
        m.contains_key(k) && k.table == TABLE_HISTORY ==> m[k].height == k.b
}

/// `m` records each header of `s`.
pub open spec fn headers_recorded(m: Map<Key, Val>, s: Seq<BlockHeader>) -> bool {
    forall|i: int| 0 <= i < s.len() ==> #[trigger] header_recorded(m, s, i)
}

pub open spec fn tx_key(txid: u64) -> Key {
    mk_key(TABLE_TX, txid, 0, 0)
}

pub open spec fn funding_key(txid: u64, vout: u64) -> Key {
    mk_key(TABLE_FUNDING, txid, vout, 0)
}

pub open spec fn script_out_key(script: u64, txid: u64, vout: u64) -> Key {
    mk_key(TABLE_SCRIPT_OUT, script, txid, vout)
}

pub open spec fn history_key(script: u64, height: u64, pos: u64) -> Key {
    mk_key(TABLE_HISTORY, script, height, pos)
}

pub open spec fn spend_key(txid: u64, vout: u64) -> Key {
    mk_key(TABLE_SPEND, txid, vout, 0)
}

pub fn key(table: u8, a: u64, b: u64, c: u64) -> (r: Key)
    ensures
        r == mk_key(table, a, b, c),
{
    Key { table, a, b, c }
}

/// A value derived from the block at `height` with hash `block`.
pub open spec fn tagged(height: u64, block: u64, data: u64) -> Val {
    Val { height, block, data }
}

/// Every entry derived from chain data names a block of `s` at its height.
/// The sync metadata names the tip, and nothing while `s` is empty.
pub open spec fn consistent(m: Map<Key, Val>, s: Seq<BlockHeader>) -> bool {
    &&& forall|k: Key|
        #![trigger m[k]]
        m.contains_key(k) && k.table != TABLE_META ==> m[k].height < s.len()
            && s[m[k].height as int].hash == m[k].block
    &&& s.len() > 0 ==> m.contains_key(tip_key()) && m[tip_key()] == tagged(
        s.last().height,
        s.last().hash,
        s.last().hash,
    )
    &&& s.len() == 0 ==> !m.contains_key(tip_key())
}

} // verus!
