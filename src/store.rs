use vstd::prelude::*;

verus! {

/// A key of the index: the table it belongs to and up to three components.
/// Keys are ordered by table, then component by component.
#[derive(PartialEq, Eq, Structural, Clone, Copy, Debug)]
pub struct Key {
    pub table: u8,
    pub a: u64,
    pub b: u64,
    pub c: u64,
}

/// A stored value: the height and hash of the block it was derived from,
/// and one payload word.
#[derive(PartialEq, Eq, Structural, Clone, Copy, Debug)]
pub struct Val {
    pub height: u64,
    pub block: u64,
    pub data: u64,
}

#[derive(PartialEq, Eq, Structural, Clone, Copy, Debug)]
pub struct Entry {
    pub key: Key,
    pub val: Val,
}

/// One operation of a write batch.
#[derive(PartialEq, Eq, Structural, Clone, Copy, Debug)]
pub enum Op {
    Put(Key, Val),
    Delete(Key),
}

pub open spec fn key_lt(x: Key, y: Key) -> bool {
    x.table < y.table || (x.table == y.table && (x.a < y.a || (x.a == y.a && (x.b < y.b || (
    x.b == y.b && x.c < y.c)))))
}

/// Whether `k` lies under the prefix `(table, a)`.
pub open spec fn under_prefix(k: Key, table: u8, a: u64) -> bool {
    k.table == table && k.a == a
}

pub fn key_less(x: &Key, y: &Key) -> (r: bool)
    ensures
        r == key_lt(*x, *y),
{
    if x.table != y.table {
        x.table < y.table
    } else if x.a != y.a {
        x.a < y.a
    } else if x.b != y.b {
        x.b < y.b
    } else {
        x.c < y.c
    }
}

pub open spec fn apply_op(m: Map<Key, Val>, op: Op) -> Map<Key, Val> {
    match op {
        Op::Put(k, v) => m.insert(k, v),
        Op::Delete(k) => m.remove(k),
    }
}

/// The contents after applying `ops` in order to `m`.
pub open spec fn apply_ops(m: Map<Key, Val>, ops: Seq<Op>) -> Map<Key, Val>
    decreases ops.len(),
{
    if ops.len() == 0 {
        m
    } else {
        apply_op(apply_ops(m, ops.drop_last()), ops.last())
    }
}

pub open spec fn sorted_entries(s: Seq<Entry>) -> bool {
    forall|i: int, j: int| 0 <= i < j < s.len() ==> key_lt(#[trigger] s[i].key, #[trigger] s[j].key)
}

pub open spec fn seq_has(s: Seq<Entry>, k: Key) -> bool {
    exists|i: int| 0 <= i < s.len() && (#[trigger] s[i]).key == k
}

pub open spec fn seq_map(s: Seq<Entry>) -> Map<Key, Val> {
    Map::new(
        |k: Key| seq_has(s, k),
        |k: Key| s[choose|i: int| 0 <= i < s.len() && (#[trigger] s[i]).key == k].val,
    )
}

proof fn lemma_seq_map_at(s: Seq<Entry>, i: int)
    requires
        sorted_entries(s),
        0 <= i < s.len(),
    ensures
        seq_map(s).contains_key(s[i].key),
        seq_map(s)[s[i].key] == s[i].val,
{
    let k = s[i].key;
    assert(seq_has(s, k));
    let j = choose|j: int| 0 <= j < s.len() && (#[trigger] s[j]).key == k;
    if j < i {
        assert(key_lt(s[j].key, s[i].key));
    } else if i < j {
        assert(key_lt(s[i].key, s[j].key));
    }
}

proof fn lemma_seq_map_is(s: Seq<Entry>, m: Map<Key, Val>)
    requires
        sorted_entries(s),
        forall|i: int|
            0 <= i < s.len() ==> m.contains_key(#[trigger] s[i].key) && m[s[i].key] == s[i].val,
        forall|k: Key| m.contains_key(k) ==> seq_has(s, k),
    ensures
        seq_map(s) == m,
{
    assert forall|k: Key| seq_map(s).contains_key(k) implies m.contains_key(k) && seq_map(s)[k]
        == m[k] by {
        let i = choose|i: int| 0 <= i < s.len() && (#[trigger] s[i]).key == k;
        lemma_seq_map_at(s, i);
    }
    assert(seq_map(s) =~= m);
}

fn copy_entries(v: &Vec<Entry>) -> (r: Vec<Entry>)
    ensures
        r@ == v@,
{
    let mut r: Vec<Entry> = Vec::new();
    let mut i: usize = 0;
    while i < v.len()
        invariant
            i <= v@.len(),
            r@ == v@.subrange(0, i as int),
        decreases v@.len() - i,
    {
        r.push(v[i]);
        i = i + 1;
        assert(r@ =~= v@.subrange(0, i as int));
    }
    assert(r@ =~= v@);
    r
}

/// Position of the first entry whose key is not below `k`.
fn lower_bound(v: &Vec<Entry>, k: &Key) -> (i: usize)
    requires
        sorted_entries(v@),
    ensures
        i <= v@.len(),
        forall|j: int| 0 <= j < i ==> key_lt(#[trigger] v@[j].key, *k),
        i < v@.len() ==> !key_lt(v@[i as int].key, *k),
{
    let mut i: usize = 0;
    while i < v.len() && key_less(&v[i].key, k)
        invariant
            i <= v@.len(),
            forall|j: int| 0 <= j < i ==> key_lt(#[trigger] v@[j].key, *k),
        decreases v@.len() - i,
    {
        i = i + 1;
    }
    i
}

fn put_entry(v: &mut Vec<Entry>, k: Key, x: Val)
    requires
        sorted_entries(old(v)@),
    ensures
        sorted_entries(final(v)@),
        seq_map(final(v)@) == seq_map(old(v)@).insert(k, x),
{
    let ghost s0 = v@;
    let ghost m = seq_map(s0).insert(k, x);
    let i = lower_bound(v, &k);
    let e = Entry { key: k, val: x };
    if i < v.len() && v[i].key == k {
        v.set(i, e);
        proof {
            assert forall|p: int, q: int| 0 <= p < q < v@.len() implies key_lt(
                #[trigger] v@[p].key,
                #[trigger] v@[q].key,
            ) by {
                assert(key_lt(s0[p].key, s0[q].key));
            }
            assert forall|j: int| 0 <= j < v@.len() implies m.contains_key(#[trigger] v@[j].key)
                && m[v@[j].key] == v@[j].val by {
                if j != i {
                    lemma_seq_map_at(s0, j);
                    assert(key_lt(s0[j].key, k) || key_lt(k, s0[j].key));
                }
            }
            assert forall|kk: Key| m.contains_key(kk) implies seq_has(v@, kk) by {
                if kk == k {
                    assert(v@[i as int].key == k);
                } else {
                    let j = choose|j: int| 0 <= j < s0.len() && (#[trigger] s0[j]).key == kk;
                    assert(v@[j].key == kk);
                }
            }
            lemma_seq_map_is(v@, m);
        }
    } else {
        v.insert(i, e);
        proof {
            assert(v@ == s0.insert(i as int, e));
            assert forall|p: int, q: int| 0 <= p < q < v@.len() implies key_lt(
                #[trigger] v@[p].key,
                #[trigger] v@[q].key,
            ) by {
                if q < i {
                    assert(key_lt(s0[p].key, s0[q].key));
                } else if q == i {
                    assert(key_lt(s0[p].key, k));
                } else if p == i {
                    assert(key_lt(k, s0[i as int].key));
                    if q - 1 > i {
                        assert(key_lt(s0[i as int].key, s0[q - 1].key));
                    }
                } else if p < i {
                    assert(key_lt(s0[p].key, k));
                    assert(key_lt(k, s0[i as int].key));
                    if q - 1 > i {
                        assert(key_lt(s0[i as int].key, s0[q - 1].key));
                    }
                } else {
                    assert(key_lt(s0[p - 1].key, s0[q - 1].key));
                }
            }
            assert forall|j: int| 0 <= j < v@.len() implies m.contains_key(#[trigger] v@[j].key)
                && m[v@[j].key] == v@[j].val by {
                if j < i {
                    lemma_seq_map_at(s0, j);
                    assert(key_lt(s0[j].key, k));
                } else if j > i {
                    lemma_seq_map_at(s0, j - 1);
                    assert(key_lt(k, s0[i as int].key));
                    if j - 1 > i {
                        assert(key_lt(s0[i as int].key, s0[j - 1].key));
                    }
                }
            }
            assert forall|kk: Key| m.contains_key(kk) implies seq_has(v@, kk) by {
                if kk == k {
                    assert(v@[i as int].key == k);
                } else {
                    let j = choose|j: int| 0 <= j < s0.len() && (#[trigger] s0[j]).key == kk;
                    if j < i {
                        assert(v@[j].key == kk);
                    } else {
                        assert(v@[j + 1].key == kk);
                    }
                }
            }
            lemma_seq_map_is(v@, m);
        }
    }
}

fn delete_entry(v: &mut Vec<Entry>, k: Key)
    requires
        sorted_entries(old(v)@),
    ensures
        sorted_entries(final(v)@),
        seq_map(final(v)@) == seq_map(old(v)@).remove(k),
{
    let ghost s0 = v@;
    let ghost m = seq_map(s0).remove(k);
    let i = lower_bound(v, &k);
    if i < v.len() && v[i].key == k {
        v.remove(i);
        proof {
            assert(v@ == s0.remove(i as int));
            assert forall|p: int, q: int| 0 <= p < q < v@.len() implies key_lt(
                #[trigger] v@[p].key,
                #[trigger] v@[q].key,
            ) by {
                if q < i {
                    assert(key_lt(s0[p].key, s0[q].key));
                } else if p < i {
                    assert(key_lt(s0[p].key, s0[q + 1].key));
                } else {
                    assert(key_lt(s0[p + 1].key, s0[q + 1].key));
                }
            }
            assert forall|j: int| 0 <= j < v@.len() implies m.contains_key(#[trigger] v@[j].key)
                && m[v@[j].key] == v@[j].val by {
                if j < i {
                    lemma_seq_map_at(s0, j);
                    assert(key_lt(s0[j].key, k));
                } else {
                    lemma_seq_map_at(s0, j + 1);
                    assert(key_lt(s0[i as int].key, s0[j + 1].key));
                }
            }
            assert forall|kk: Key| m.contains_key(kk) implies seq_has(v@, kk) by {
                let j = choose|j: int| 0 <= j < s0.len() && (#[trigger] s0[j]).key == kk;
                if j < i {
                    assert(v@[j].key == kk);
                } else {
                    assert(j != i);
                    assert(v@[j - 1].key == kk);
                }
            }
            lemma_seq_map_is(v@, m);
        }
    } else {
        proof {
            assert forall|kk: Key| seq_map(s0).contains_key(kk) implies kk != k by {
                let j = choose|j: int| 0 <= j < s0.len() && (#[trigger] s0[j]).key == kk;
                if j < i {
                    assert(key_lt(s0[j].key, k));
                } else if j > i {
                    assert(key_lt(s0[i as int].key, s0[j].key));
                }
            }
            assert(m =~= seq_map(s0));
        }
    }
}

/// Applies the first `n` operations of `ops` to a copy of `v`.
fn apply_to_copy(v: &Vec<Entry>, ops: &Vec<Op>, n: usize) -> (r: Vec<Entry>)
    requires
        sorted_entries(v@),
        n <= ops@.len(),
    ensures
        sorted_entries(r@),
        seq_map(r@) == apply_ops(seq_map(v@), ops@.subrange(0, n as int)),
{
    let mut shadow = copy_entries(v);
    let mut i: usize = 0;
    assert(ops@.subrange(0, 0) =~= Seq::<Op>::empty());
    while i < n
        invariant
            n <= ops@.len(),
            i <= n,
            sorted_entries(shadow@),
            seq_map(shadow@) == apply_ops(seq_map(v@), ops@.subrange(0, i as int)),
        decreases n - i,
    {
        match ops[i] {
            Op::Put(k, x) => put_entry(&mut shadow, k, x),
            Op::Delete(k) => delete_entry(&mut shadow, k),
        }
        proof {
            assert(ops@.subrange(0, i + 1).drop_last() =~= ops@.subrange(0, i as int));
        }
        i = i + 1;
    }
    shadow
}

pub proof fn lemma_apply_push(m: Map<Key, Val>, ops: Seq<Op>, op: Op)
    ensures
        apply_ops(m, ops.push(op)) == apply_op(apply_ops(m, ops), op),
{
    assert(ops.push(op).drop_last() =~= ops);
}

/// A write batch: operations staged in order, none of them visible until the
/// batch is written as a whole.
pub struct WriteBatch {
    pub ops: Vec<Op>,
}

impl WriteBatch {
    pub fn new() -> (r: WriteBatch)
        ensures
            r.ops@ == Seq::<Op>::empty(),
    {
        WriteBatch { ops: Vec::new() }
    }

    pub fn put(&mut self, k: Key, v: Val)
        ensures
            final(self).ops@ == old(self).ops@.push(Op::Put(k, v)),
    {
        self.ops.push(Op::Put(k, v));
    }

    pub fn delete(&mut self, k: Key)
        ensures
            final(self).ops@ == old(self).ops@.push(Op::Delete(k)),
    {
        self.ops.push(Op::Delete(k));
    }

    /// The payload of the last put of `k` staged in this batch, if any.
    pub fn staged_data(&self, k: &Key) -> (r: Option<u64>)
        ensures
            r is None ==> forall|i: int|
                0 <= i < self.ops@.len() ==> !(#[trigger] self.ops@[i] matches Op::Put(kk, _) && kk
                    == *k),
            r is Some ==> exists|i: int|
                0 <= i < self.ops@.len() && (#[trigger] self.ops@[i] matches Op::Put(kk, v) && kk
                    == *k && v.data == r.unwrap()) && forall|j: int|
                    i < j < self.ops@.len() ==> !(#[trigger] self.ops@[j] matches Op::Put(kk, _)
                        && kk == *k),
    {
        let mut i: usize = self.ops.len();
        while i > 0
            invariant
                i <= self.ops@.len(),
                forall|j: int|
                    i <= j < self.ops@.len() ==> !(#[trigger] self.ops@[j] matches Op::Put(kk, _)
                        && kk == *k),
            decreases i,
        {
            i = i - 1;
            match self.ops[i] {
                Op::Put(kk, v) => {
                    if kk == *k {
                        proof {
                            assert(self.ops@[i as int] == Op::Put(*k, v));
                        }
                        return Some(v.data);
                    }
                },
                Op::Delete(_) => {},
            }
        }
        None
    }

    pub fn len(&self) -> (r: usize)
        ensures
            r == self.ops@.len(),
    {
        self.ops.len()
    }
}

/// An ordered key-value index whose contents change only by whole batches.
pub struct IndexStore {
    entries: Vec<Entry>,
}

impl View for IndexStore {
    type V = Map<Key, Val>;

    closed spec fn view(&self) -> Map<Key, Val> {
        seq_map(self.entries@)
    }
}

impl IndexStore {
    pub closed spec fn wf(&self) -> bool {
        sorted_entries(self.entries@)
    }

    pub fn new() -> (r: IndexStore)
        ensures
            r.wf(),
            r@ == Map::<Key, Val>::empty(),
    {
        let r = IndexStore { entries: Vec::new() };
        assert(r@ =~= Map::<Key, Val>::empty());
        r
    }

    pub fn len(&self) -> (r: usize)
        requires
            self.wf(),
        ensures
            r == self@.dom().len(),
    {
        proof {
            self.lemma_dom_len();
        }
        self.entries.len()
    }

    proof fn lemma_dom_len(&self)
        requires
            self.wf(),
        ensures
            self@.dom().len() == self.entries@.len(),
    {
        let s = self.entries@;
        let keys = s.map_values(|e: Entry| e.key);
        assert forall|i: int, j: int| 0 <= i < j < keys.len() implies keys[i] != keys[j] by {
            assert(key_lt(s[i].key, s[j].key));
        }
        assert(keys.no_duplicates());
        assert(self@.dom() =~= keys.to_set()) by {
            assert forall|k: Key| self@.dom().contains(k) implies keys.to_set().contains(k) by {
                let i = choose|i: int| 0 <= i < s.len() && (#[trigger] s[i]).key == k;
                assert(keys[i] == k);
            }
            assert forall|k: Key| keys.to_set().contains(k) implies self@.dom().contains(k) by {
                let i = choose|i: int| 0 <= i < keys.len() && keys[i] == k;
                assert(s[i].key == k);
            }
        }
        keys.unique_seq_to_set();
    }

    /// Writes a batch: afterwards every one of its operations is visible, in
    /// order. The operations are applied to a shadow copy that replaces the
    /// contents in one step, so no reader ever sees part of a batch.
    pub fn write(&mut self, batch: &WriteBatch)
        requires
            old(self).wf(),
        ensures
            final(self).wf(),
            final(self)@ == apply_ops(old(self)@, batch.ops@),
    {
        let shadow = apply_to_copy(&self.entries, &batch.ops, batch.ops.len());
        assert(batch.ops@.subrange(0, batch.ops@.len() as int) =~= batch.ops@);
        self.entries = shadow;
    }

    /// Writes a batch that is cut short by a crash after its first `applied`
    /// operations reached the shadow copy: the shadow is lost, and what a
    /// restart sees is the contents from before the batch.
    pub fn write_interrupted(&mut self, batch: &WriteBatch, applied: usize)
        requires
            old(self).wf(),
            applied <= batch.ops@.len(),
        ensures
            final(self).wf(),
            final(self)@ == old(self)@,
    {
        let _lost = apply_to_copy(&self.entries, &batch.ops, applied);
    }

    /// What a process that restarts over this store reads back: the contents
    /// of every batch written in full.
    pub fn reopen(&self) -> (r: IndexStore)
        requires
            self.wf(),
        ensures
            r.wf(),
            r@ == self@,
    {
        IndexStore { entries: copy_entries(&self.entries) }
    }

    /// Keys of every entry derived from the block at `height`, leaving out
    /// the table `skip`.
    pub fn keys_at_height(&self, height: u64, skip: u8) -> (r: Vec<Key>)
        requires
            self.wf(),
        ensures
            forall|k: Key|
                r@.contains(k) <==> (self@.contains_key(k) && k.table != skip && self@[k].height
                    == height),
    {
        let mut r: Vec<Key> = Vec::new();
        let mut i: usize = 0;
        while i < self.entries.len()
            invariant
                self.wf(),
                i <= self.entries@.len(),
                forall|k: Key|
                    r@.contains(k) <==> (exists|j: int|
                        0 <= j < i && (#[trigger] self.entries@[j]).key == k && k.table != skip
                            && self.entries@[j].val.height == height),
            decreases self.entries@.len() - i,
        {
            let e = self.entries[i];
            let ghost r0 = r@;
            if e.key.table != skip && e.val.height == height {
                r.push(e.key);
            }
            proof {
                assert forall|k: Key|
                    r@.contains(k) <==> (exists|j: int|
                        0 <= j < i + 1 && (#[trigger] self.entries@[j]).key == k && k.table != skip
                            && self.entries@[j].val.height == height) by {
                    if r@.contains(k) {
                        if r0.contains(k) {
                        } else {
                            assert(self.entries@[i as int].key == k);
                        }
                    }
                    if exists|j: int|
                        0 <= j < i + 1 && (#[trigger] self.entries@[j]).key == k && k.table != skip
                            && self.entries@[j].val.height == height {
                        let j = choose|j: int|
                            0 <= j < i + 1 && (#[trigger] self.entries@[j]).key == k && k.table
                                != skip && self.entries@[j].val.height == height;
                        if j < i {
                            assert(r0.contains(k));
                            let q = choose|q: int| 0 <= q < r0.len() && r0[q] == k;
                            assert(r@[q] == k);
                        } else {
                            assert(r@[r@.len() - 1] == k);
                        }
                    }
                }
            }
            i = i + 1;
        }
        proof {
            assert forall|k: Key|
                r@.contains(k) <==> (self@.contains_key(k) && k.table != skip && self@[k].height
                    == height) by {
                if r@.contains(k) {
                    let j = choose|j: int|
                        0 <= j < i && (#[trigger] self.entries@[j]).key == k && k.table != skip
                            && self.entries@[j].val.height == height;
                    lemma_seq_map_at(self.entries@, j);
                }
                if self@.contains_key(k) && k.table != skip && self@[k].height == height {
                    let j = choose|j: int|
                        0 <= j < self.entries@.len() && (#[trigger] self.entries@[j]).key == k;
                    lemma_seq_map_at(self.entries@, j);
                }
            }
        }
        r
    }

    /// Every entry held, in ascending key order.
    pub fn entries(&self) -> (r: Vec<Entry>)
        requires
            self.wf(),
        ensures
            forall|i: int|
                0 <= i < r@.len() ==> self@.contains_key((#[trigger] r@[i]).key) && self@[r@[i].key]
                    == r@[i].val,
            forall|k: Key| self@.contains_key(k) ==> seq_has(r@, k),
    {
        let r = copy_entries(&self.entries);
        proof {
            assert forall|i: int| 0 <= i < r@.len() implies self@.contains_key(
                (#[trigger] r@[i]).key,
            ) && self@[r@[i].key] == r@[i].val by {
                lemma_seq_map_at(self.entries@, i);
            }
        }
        r
    }

    /// Point lookup.
    pub fn get(&self, k: &Key) -> (r: Option<Val>)
        requires
            self.wf(),
        ensures
            r == (if self@.contains_key(*k) {
                Some(self@[*k])
            } else {
                None::<Val>
            }),
    {
        let mut i: usize = 0;
        while i < self.entries.len()
            invariant
                self.wf(),
                i <= self.entries@.len(),
                forall|j: int| 0 <= j < i ==> (#[trigger] self.entries@[j]).key != *k,
            decreases self.entries@.len() - i,
        {
            if self.entries[i].key == *k {
                proof {
                    lemma_seq_map_at(self.entries@, i as int);
                }
                return Some(self.entries[i].val);
            }
            i = i + 1;
        }
        None
    }

    /// Every entry under the prefix `(table, a)`, in ascending key order.
    pub fn scan_prefix(&self, table: u8, a: u64) -> (r: Vec<Entry>)
        requires
            self.wf(),
        ensures
            sorted_entries(r@),
            forall|k: Key|
                seq_has(r@, k) <==> (self@.contains_key(k) && under_prefix(k, table, a)),
            forall|i: int| 0 <= i < r@.len() ==> self@[#[trigger] r@[i].key] == r@[i].val,
    {
        let mut r: Vec<Entry> = Vec::new();
        let ghost mut src: Seq<int> = Seq::empty();
        let mut i: usize = 0;
        while i < self.entries.len()
            invariant
                self.wf(),
                i <= self.entries@.len(),
                sorted_entries(r@),
                src.len() == r@.len(),
                forall|p: int| 0 <= p < r@.len() ==> under_prefix(#[trigger] r@[p].key, table, a),
                forall|p: int|
                    0 <= p < r@.len() ==> 0 <= #[trigger] src[p] < i && r@[p]
                        == self.entries@[src[p]],
                forall|j: int|
                    0 <= j < i && under_prefix(#[trigger] self.entries@[j].key, table, a) ==> seq_has(
                        r@,
                        self.entries@[j].key,
                    ),
            decreases self.entries@.len() - i,
        {
            let e = self.entries[i];
            if e.table_is(table, a) {
                proof {
                    assert forall|p: int| 0 <= p < r@.len() implies key_lt(
                        #[trigger] r@[p].key,
                        e.key,
                    ) by {
                        assert(src[p] < i);
                        assert(key_lt(self.entries@[src[p]].key, self.entries@[i as int].key));
                    }
                }
                let ghost r0 = r@;
                r.push(e);
                proof {
                    src = src.push(i as int);
                    assert forall|j: int|
                        0 <= j <= i && under_prefix(
                            #[trigger] self.entries@[j].key,
                            table,
                            a,
                        ) implies seq_has(r@, self.entries@[j].key) by {
                        if j == i {
                            assert(r@[r@.len() - 1] == e);
                        } else {
                            assert(seq_has(r0, self.entries@[j].key));
                            let q = choose|q: int|
                                0 <= q < r0.len() && (#[trigger] r0[q]).key
                                    == self.entries@[j].key;
                            assert(r@[q] == r0[q]);
                        }
                    }
                    assert forall|p: int| 0 <= p < r@.len() implies 0 <= #[trigger] src[p] < i
                        + 1 && r@[p] == self.entries@[src[p]] by {
                        if p < r0.len() {
                            assert(r@[p] == r0[p]);
                        }
                    }
                }
            }
            i = i + 1;
        }
        proof {
            assert forall|k: Key|
                seq_has(r@, k) <==> (self@.contains_key(k) && under_prefix(k, table, a)) by {
                if seq_has(r@, k) {
                    let p = choose|p: int| 0 <= p < r@.len() && (#[trigger] r@[p]).key == k;
                    assert(self.entries@[src[p]].key == k);
                    assert(under_prefix(r@[p].key, table, a));
                }
                if self@.contains_key(k) && under_prefix(k, table, a) {
                    let j = choose|j: int|
                        0 <= j < self.entries@.len() && (#[trigger] self.entries@[j]).key == k;
                }
            }
            assert forall|p: int| 0 <= p < r@.len() implies self@[#[trigger] r@[p].key]
                == r@[p].val by {
                assert(0 <= src[p] < i);
                lemma_seq_map_at(self.entries@, src[p]);
            }
        }
        r
    }
}

impl Entry {
    pub fn table_is(&self, table: u8, a: u64) -> (r: bool)
        ensures
            r == under_prefix(self.key, table, a),
    {
        self.key.table == table && self.key.a == a
    }
}

} // verus!
