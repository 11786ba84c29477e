use vstd::prelude::*;

verus! {

/// An unconfirmed transaction: its id, its fee, the fingerprints of the
/// scripts it touches and the unconfirmed transactions it spends from.
#[derive(Debug)]
pub struct MempoolEntry {
    pub txid: u64,
    pub fee: u64,
    pub scripts: Vec<u64>,
    pub depends: Vec<u64>,
}

pub open spec fn ids_of(s: Seq<MempoolEntry>) -> Set<u64> {
    Set::new(|t: u64| exists|i: int| 0 <= i < s.len() && (#[trigger] s[i]).txid == t)
}

pub open spec fn unique_ids(s: Seq<MempoolEntry>) -> bool {
    forall|i: int, j: int| 0 <= i < j < s.len() ==> (#[trigger] s[i]).txid != (#[trigger] s[j]).txid
}

proof fn lemma_ids_push(s: Seq<MempoolEntry>, e: MempoolEntry)
    ensures
        ids_of(s.push(e)) == ids_of(s).insert(e.txid),
{
    let s2 = s.push(e);
    assert forall|t: u64| ids_of(s2).contains(t) implies ids_of(s).insert(e.txid).contains(t) by {
        let i = choose|i: int| 0 <= i < s2.len() && (#[trigger] s2[i]).txid == t;
        if i < s.len() {
            assert(s[i] == s2[i]);
        }
    }
    assert forall|t: u64| ids_of(s).insert(e.txid).contains(t) implies ids_of(s2).contains(t) by {
        if t == e.txid {
            assert(s2[s.len() as int].txid == t);
        } else {
            let i = choose|i: int| 0 <= i < s.len() && (#[trigger] s[i]).txid == t;
            assert(s2[i] == s[i]);
        }
    }
    assert(ids_of(s2) =~= ids_of(s).insert(e.txid));
}

proof fn lemma_ids_tail(s: Seq<MempoolEntry>, n: int)
    requires
        0 < n <= s.len(),
    ensures
        ids_of(s.subrange(n - 1, s.len() as int)) == ids_of(s.subrange(n, s.len() as int)).insert(
            s[n - 1].txid,
        ),
{
    let a = s.subrange(n - 1, s.len() as int);
    let b = s.subrange(n, s.len() as int);
    assert forall|t: u64| ids_of(a).contains(t) implies ids_of(b).insert(s[n - 1].txid).contains(t) by {
        let i = choose|i: int| 0 <= i < a.len() && (#[trigger] a[i]).txid == t;
        if i > 0 {
            assert(b[i - 1] == a[i]);
        }
    }
    assert forall|t: u64| ids_of(b).insert(s[n - 1].txid).contains(t) implies ids_of(a).contains(t) by {
        if t == s[n - 1].txid {
            assert(a[0].txid == t);
        } else {
            let i = choose|i: int| 0 <= i < b.len() && (#[trigger] b[i]).txid == t;
            assert(a[i + 1] == b[i]);
        }
    }
    assert(ids_of(a) =~= ids_of(b).insert(s[n - 1].txid));
}

fn list_has(v: &Vec<u64>, t: u64) -> (r: bool)
    ensures
        r == v@.contains(t),
{
    let mut i: usize = 0;
    while i < v.len()
        invariant
            i <= v@.len(),
            forall|j: int| 0 <= j < i ==> v@[j] != t,
        decreases v@.len() - i,
    {
        if v[i] == t {
            return true;
        }
        i = i + 1;
    }
    false
}

fn entries_have(v: &Vec<MempoolEntry>, t: u64) -> (r: bool)
    ensures
        r == ids_of(v@).contains(t),
{
    let mut i: usize = 0;
    while i < v.len()
        invariant
            i <= v@.len(),
            forall|j: int| 0 <= j < i ==> (#[trigger] v@[j]).txid != t,
        decreases v@.len() - i,
    {
        if v[i].txid == t {
            return true;
        }
        i = i + 1;
    }
    false
}

/// `e` is an entry of `kept`, or one of `added` whose id `kept` lacks.
pub open spec fn came_from(e: MempoolEntry, kept: Seq<MempoolEntry>, added: Seq<MempoolEntry>) -> bool {
    (exists|j: int| 0 <= j < kept.len() && kept[j] == e) || ((exists|j: int|
        0 <= j < added.len() && added[j] == e) && !ids_of(kept).contains(e.txid))
}

/// Moves each entry of `from` whose id is in `snapshot` and not yet in
/// `into` over to `into`.
fn absorb(into: &mut Vec<MempoolEntry>, from: Vec<MempoolEntry>, snapshot: &Vec<u64>)
    requires
        unique_ids(old(into)@),
    ensures
        unique_ids(final(into)@),
        ids_of(final(into)@) == ids_of(old(into)@).union(ids_of(from@).intersect(snapshot@.to_set())),
        forall|i: int|
            #![trigger final(into)@[i]]
            0 <= i < final(into)@.len() ==> came_from(final(into)@[i], old(into)@, from@),
{
    let ghost orig = from@;
    let ghost start = ids_of(into@);
    let ghost first = into@;
    let mut from = from;
    proof {
        assert(ids_of(orig.subrange(orig.len() as int, orig.len() as int)) =~= Set::<u64>::empty());
        assert(start =~= start.union(Set::<u64>::empty().intersect(snapshot@.to_set())));
    }
    while from.len() > 0
        invariant
            from@ == orig.subrange(0, from@.len() as int),
            from@.len() <= orig.len(),
            unique_ids(into@),
            ids_of(into@) == start.union(
                ids_of(orig.subrange(from@.len() as int, orig.len() as int)).intersect(snapshot@.to_set()),
            ),
            start == ids_of(first),
            forall|i: int| #![trigger into@[i]] 0 <= i < into@.len() ==> came_from(into@[i], first, orig),
        decreases from@.len(),
    {
        let ghost n = from@.len() as int;
        let e = from.pop().unwrap();
        proof {
            assert(e == orig[n - 1]);
            assert(from@ =~= orig.subrange(0, n - 1));
            lemma_ids_tail(orig, n);
        }
        let t = e.txid;
        if list_has(snapshot, t) && !entries_have(into, t) {
            let ghost before = into@;
            into.push(e);
            proof {
                lemma_ids_push(before, orig[n - 1]);
                assert forall|i: int, j: int| 0 <= i < j < into@.len() implies (#[trigger] into@[i]).txid
                    != (#[trigger] into@[j]).txid by {
                    if j == before.len() {
                        assert(into@[i] == before[i]);
                        if before[i].txid == t {
                            assert(ids_of(before).contains(t));
                        }
                    } else {
                        assert(into@[i] == before[i] && into@[j] == before[j]);
                    }
                }
                assert(snapshot@.to_set().contains(t));
                assert forall|i: int| #![trigger into@[i]] 0 <= i < into@.len() implies came_from(
                    into@[i],
                    first,
                    orig,
                ) by {
                    if i < before.len() {
                        assert(into@[i] == before[i]);
                    } else {
                        assert(into@[i] == orig[n - 1]);
                        assert(!start.contains(t));
                    }
                }
                assert(ids_of(into@) =~= start.union(
                    ids_of(orig.subrange(n - 1, orig.len() as int)).intersect(snapshot@.to_set()),
                ));
            }
        } else {
            proof {
                if snapshot@.contains(t) {
                    assert(snapshot@.to_set().contains(t));
                } else {
                    assert(!snapshot@.to_set().contains(t));
                }
                assert(ids_of(into@) =~= start.union(
                    ids_of(orig.subrange(n - 1, orig.len() as int)).intersect(snapshot@.to_set()),
                ));
            }
        }
    }
    proof {
        assert(orig.subrange(0, orig.len() as int) =~= orig);
    }
}

/// The tracked unconfirmed transactions, at most one per id.
pub struct Mempool {
    entries: Vec<MempoolEntry>,
}

impl Mempool {
    /// The ids tracked.
    pub closed spec fn ids(&self) -> Set<u64> {
        ids_of(self.entries@)
    }

    pub closed spec fn wf(&self) -> bool {
        unique_ids(self.entries@)
    }

    /// The tracked entries.
    pub closed spec fn entries_view(&self) -> Seq<MempoolEntry> {
        self.entries@
    }

    pub fn new() -> (r: Mempool)
        ensures
            r.wf(),
            r.ids() == Set::<u64>::empty(),
    {
        let r = Mempool { entries: Vec::new() };
        assert(r.ids() =~= Set::<u64>::empty());
        r
    }

    pub fn contains(&self, txid: u64) -> (r: bool)
        ensures
            r == self.ids().contains(txid),
    {
        entries_have(&self.entries, txid)
    }

    /// The ids of `snapshot` not tracked yet: the bodies to fetch.
    pub fn missing(&self, snapshot: &Vec<u64>) -> (r: Vec<u64>)
        ensures
            forall|t: u64| r@.contains(t) <==> (snapshot@.contains(t) && !self.ids().contains(t)),
    {
        let mut r: Vec<u64> = Vec::new();
        let mut i: usize = 0;
        while i < snapshot.len()
            invariant
                i <= snapshot@.len(),
                forall|t: u64|
                    r@.contains(t) <==> (snapshot@.subrange(0, i as int).contains(t) && !self.ids().contains(t)),
            decreases snapshot@.len() - i,
        {
            let t = snapshot[i];
            let ghost r0 = r@;
            if !self.contains(t) {
                r.push(t);
            }
            proof {
                let a = snapshot@.subrange(0, i as int);
                let b = snapshot@.subrange(0, i + 1);
                assert(b =~= a.push(t));
                assert forall|x: u64| r@.contains(x) <==> (b.contains(x) && !self.ids().contains(x)) by {
                    if b.contains(x) && x != t {
                        let j = choose|j: int| 0 <= j < b.len() && b[j] == x;
                        assert(a[j] == x);
                    }
                    if a.contains(x) {
                        let j = choose|j: int| 0 <= j < a.len() && a[j] == x;
                        assert(b[j] == x);
                    }
                    if x == t {
                        assert(b[i as int] == x);
                    }
                    if r@.contains(x) && !r0.contains(x) {
                        let j = choose|j: int| 0 <= j < r@.len() && r@[j] == x;
                        if j < r0.len() {
                            assert(r0[j] == x);
                        }
                    }
                    if r0.contains(x) {
                        let j = choose|j: int| 0 <= j < r0.len() && r0[j] == x;
                        assert(r@[j] == x);
                    }
                    if x == t && !self.ids().contains(t) {
                        assert(r@[r@.len() - 1] == t);
                    }
                }
            }
            i = i + 1;
        }
        proof {
            assert(snapshot@.subrange(0, i as int) =~= snapshot@);
        }
        r
    }

    /// Brings the tracked set in line with the node's `snapshot` of ids:
    /// entries whose id left the snapshot are dropped, and each of `fetched`
    /// whose id is in the snapshot and not tracked yet is added.
    pub fn refresh(&mut self, snapshot: &Vec<u64>, fetched: Vec<MempoolEntry>)
        requires
            old(self).wf(),
        ensures
            final(self).wf(),
            final(self).ids() == old(self).ids().union(ids_of(fetched@)).intersect(
                snapshot@.to_set(),
            ),
            forall|i: int|
                #![trigger final(self).entries_view()[i]]
                0 <= i < final(self).entries_view().len() ==> came_from(
                    final(self).entries_view()[i],
                    old(self).entries_view(),
                    fetched@,
                ),
    {
        let mut kept: Vec<MempoolEntry> = Vec::new();
        let mut previous: Vec<MempoolEntry> = Vec::new();
        std::mem::swap(&mut previous, &mut self.entries);
        let ghost p = previous@;
        let ghost f = fetched@;
        proof {
            assert(ids_of(kept@) =~= Set::<u64>::empty());
        }
        absorb(&mut kept, previous, snapshot);
        let ghost mid = kept@;
        absorb(&mut kept, fetched, snapshot);
        self.entries = kept;
        proof {
            assert forall|i: int|
                #![trigger self.entries@[i]]
                0 <= i < self.entries@.len() implies came_from(self.entries@[i], p, f) by {
                let e = self.entries@[i];
                if exists|j: int| 0 <= j < mid.len() && mid[j] == e {
                    let j = choose|j: int| 0 <= j < mid.len() && mid[j] == e;
                    assert(came_from(mid[j], Seq::<MempoolEntry>::empty(), p));
                } else {
                    assert(ids_of(mid) == ids_of(p).intersect(snapshot@.to_set())) by {
                        assert(ids_of(Seq::<MempoolEntry>::empty()) =~= Set::<u64>::empty());
                        assert(ids_of(Seq::<MempoolEntry>::empty()).union(ids_of(p).intersect(snapshot@.to_set())) =~= ids_of(p).intersect(snapshot@.to_set()));
                    }
                    assert(ids_of(self.entries@).contains(e.txid));
                    assert(snapshot@.to_set().contains(e.txid));
                }
            }
            assert(self.ids() =~= ids_of(p).union(ids_of(f)).intersect(snapshot@.to_set()));
        }
    }

    /// The ids of tracked transactions that touch `script`.
    pub closed spec fn touching(&self, script: u64) -> Set<u64> {
        Set::new(
            |t: u64|
                exists|j: int|
                    0 <= j < self.entries@.len() && (#[trigger] self.entries@[j]).txid == t
                        && self.entries@[j].scripts@.contains(script),
        )
    }

    /// The ids of tracked transactions that touch `script`.
    pub fn pending_for_script(&self, script: u64) -> (r: Vec<u64>)
        ensures
            forall|t: u64| r@.contains(t) <==> self.touching(script).contains(t),
            self.touching(script).subset_of(self.ids()),
    {
        let mut r: Vec<u64> = Vec::new();
        let ghost mut src: Seq<int> = Seq::empty();
        let mut j: usize = 0;
        while j < self.entries.len()
            invariant
                j <= self.entries@.len(),
                src.len() == r@.len(),
                forall|i: int| 0 <= i < src.len() ==> 0 <= #[trigger] src[i] < self.entries@.len(),
                forall|i: int| 0 <= i < src.len() ==> self.entries@[#[trigger] src[i]].txid == r@[i],
                forall|i: int|
                    0 <= i < src.len() ==> self.entries@[#[trigger] src[i]].scripts@.contains(script),
                forall|jj: int|
                    0 <= jj < j && (#[trigger] self.entries@[jj]).scripts@.contains(script)
                        ==> r@.contains(self.entries@[jj].txid),
            decreases self.entries@.len() - j,
        {
            let ghost r0 = r@;
            let ghost src0 = src;
            if list_has(&self.entries[j].scripts, script) {
                r.push(self.entries[j].txid);
                proof {
                    src = src.push(j as int);
                    assert forall|i: int| 0 <= i < src.len() implies self.entries@[#[trigger] src[i]].txid == r@[i] by {
                        if i < r0.len() {
                            assert(r@[i] == r0[i]);
                            assert(src[i] == src0[i]);
                        }
                    }
                    assert forall|jj: int|
                        0 <= jj < j + 1 && (#[trigger] self.entries@[jj]).scripts@.contains(script)
                            implies r@.contains(self.entries@[jj].txid) by {
                        if jj < j {
                            let q = choose|q: int| 0 <= q < r0.len() && r0[q] == self.entries@[jj].txid;
                            assert(r@[q] == r0[q]);
                        } else {
                            assert(r@[r@.len() - 1] == self.entries@[jj].txid);
                        }
                    }
                }
            }
            j = j + 1;
        }
        proof {
            assert forall|t: u64| r@.contains(t) <==> self.touching(script).contains(t) by {
                if r@.contains(t) {
                    let i = choose|i: int| 0 <= i < r@.len() && r@[i] == t;
                    assert(self.entries@[src[i]].txid == r@[i]);
                    assert(self.entries@[src[i]].scripts@.contains(script));
                }
            }
        }
        r
    }
}

/// When every id new to the snapshot was fetched, a refresh leaves held
/// exactly the snapshot's ids: those that left are deleted, the new ones
/// inserted.
pub proof fn lemma_refresh_tracks_snapshot(held: Set<u64>, snapshot: Set<u64>, fetched: Set<u64>)
    requires
        snapshot.difference(held).subset_of(fetched),
    ensures
        held.union(fetched).intersect(snapshot) == snapshot,
{
    assert(held.union(fetched).intersect(snapshot) =~= snapshot);
}

} // verus!
