use vstd::prelude::*;

verus! {

/// A block header as the index keeps it: its hash, its parent's hash and
/// its height.
#[derive(PartialEq, Eq, Structural, Clone, Copy, Debug)]
pub struct BlockHeader {
    pub hash: u64,
    pub prev_hash: u64,
    pub height: u64,
}

/// A contiguous chain from genesis: heights count up from zero, each header
/// links to the one below it, and no hash occurs twice.
pub open spec fn chain_ok(s: Seq<BlockHeader>) -> bool {
    &&& forall|i: int| 0 <= i < s.len() ==> (#[trigger] s[i]).height == i
    &&& forall|i: int| 0 < i < s.len() ==> (#[trigger] s[i]).prev_hash == s[i - 1].hash
    &&& forall|i: int, j: int|
        0 <= i < j < s.len() ==> (#[trigger] s[i]).hash != (#[trigger] s[j]).hash
}

pub open spec fn chain_has(s: Seq<BlockHeader>, hash: u64) -> bool {
    exists|i: int| 0 <= i < s.len() && (#[trigger] s[i]).hash == hash
}

/// Whether `h` may be appended to `s` as its next block.
pub open spec fn extends(s: Seq<BlockHeader>, h: BlockHeader) -> bool {
    &&& h.height == s.len()
    &&& s.len() > 0 ==> h.prev_hash == s.last().hash
    &&& !chain_has(s, h.hash)
}

/// The in-memory header chain, genesis to tip.
pub struct HeaderChain {
    headers: Vec<BlockHeader>,
}

impl View for HeaderChain {
    type V = Seq<BlockHeader>;

    closed spec fn view(&self) -> Seq<BlockHeader> {
        self.headers@
    }
}

impl HeaderChain {
    pub open spec fn wf(&self) -> bool {
        chain_ok(self@)
    }

    pub fn new() -> (r: HeaderChain)
        ensures
            r.wf(),
            r@ == Seq::<BlockHeader>::empty(),
    {
        HeaderChain { headers: Vec::new() }
    }

    /// Number of headers, which is the tip's height plus one.
    pub fn len(&self) -> (r: usize)
        ensures
            r == self@.len(),
    {
        self.headers.len()
    }

    pub fn tip(&self) -> (r: Option<BlockHeader>)
        ensures
            r == (if self@.len() == 0 {
                None
            } else {
                Some(self@.last())
            }),
    {
        if self.headers.len() == 0 {
            None
        } else {
            Some(self.headers[self.headers.len() - 1])
        }
    }

    pub fn header_at(&self, height: u64) -> (r: Option<BlockHeader>)
        ensures
            r == (if height < self@.len() {
                Some(self@[height as int])
            } else {
                None
            }),
    {
        if height < self.headers.len() as u64 {
            Some(self.headers[height as usize])
        } else {
            None
        }
    }

    /// The height of the header with hash `hash`, if the chain holds it.
    pub fn height_of(&self, hash: u64) -> (r: Option<u64>)
        requires
            self.wf(),
        ensures
            r.is_some() == chain_has(self@, hash),
            r.is_some() ==> r.unwrap() < self@.len() && self@[r.unwrap() as int].hash == hash,
    {
        let mut i: usize = 0;
        while i < self.headers.len()
            invariant
                i <= self@.len(),
                forall|j: int| 0 <= j < i ==> (#[trigger] self@[j]).hash != hash,
            decreases self@.len() - i,
        {
            if self.headers[i].hash == hash {
                return Some(i as u64);
            }
            i = i + 1;
        }
        None
    }

    pub fn can_extend(&self, h: &BlockHeader) -> (r: bool)
        requires
            self.wf(),
        ensures
            r == extends(self@, *h),
    {
        if h.height != self.headers.len() as u64 {
            return false;
        }
        if self.headers.len() > 0 && h.prev_hash != self.headers[self.headers.len() - 1].hash {
            return false;
        }
        self.height_of(h.hash).is_none()
    }

    pub fn push(&mut self, h: BlockHeader)
        requires
            old(self).wf(),
            extends(old(self)@, h),
        ensures
            final(self).wf(),
            final(self)@ == old(self)@.push(h),
    {
        self.headers.push(h);
        proof {
            let s = self@;
            assert forall|i: int, j: int| 0 <= i < j < s.len() implies (#[trigger] s[i]).hash
                != (#[trigger] s[j]).hash by {
                if j == s.len() - 1 {
                    assert(s[i] == old(self)@[i]);
                }
            }
        }
    }

    /// Keeps the first `len` headers and drops the rest.
    pub fn truncate(&mut self, len: usize)
        requires
            old(self).wf(),
            len <= old(self)@.len(),
        ensures
            final(self).wf(),
            final(self)@ == old(self)@.subrange(0, len as int),
    {
        self.headers.truncate(len);
    }
}

} // verus!
