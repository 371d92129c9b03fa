use vstd::prelude::*;

verus! {

/// Number of occurrences of the byte `b` in `s`.
pub open spec fn occ(s: Seq<u8>, b: u8) -> nat
    decreases s.len(),
{
    if s.len() == 0 {
        0
    } else {
        occ(s.drop_last(), b) + if s.last() == b {
            1nat
        } else {
            0nat
        }
    }
}

pub proof fn lemma_occ_le_len(s: Seq<u8>, b: u8)
    ensures
        occ(s, b) <= s.len(),
    decreases s.len(),
{
    if s.len() > 0 {
        lemma_occ_le_len(s.drop_last(), b);
    }
}

pub proof fn lemma_occ_contains(s: Seq<u8>, b: u8)
    ensures
        occ(s, b) > 0 <==> s.contains(b),
    decreases s.len(),
{
    if s.len() > 0 {
        lemma_occ_contains(s.drop_last(), b);
        if s.contains(b) && s.last() != b {
            let i = choose|i: int| 0 <= i < s.len() && s[i] == b;
            assert(s.drop_last()[i] == b);
        }
    }
}

/// Per-byte occurrence counts over an arbitrary buffer: one slot per byte value.
pub struct AdaptiveDictionary {
    frequencies: Vec<u32>,
}

impl AdaptiveDictionary {
    /// The frequency table as a sequence of 256 counts, indexed by byte value.
    pub closed spec fn counts(self) -> Seq<u32> {
        self.frequencies@
    }

    pub open spec fn wf(self) -> bool {
        self.counts().len() == 256
    }

    /// A fresh table with every count zero.
    pub fn new() -> (d: Self)
        ensures
            d.wf(),
            forall|b: int| 0 <= b < 256 ==> #[trigger] d.counts()[b] == 0,
    {
        let frequencies: Vec<u32> = vec![0u32; 256];
        AdaptiveDictionary { frequencies }
    }

    /// Adds one occurrence per byte of `data` to the table.
    pub fn update(&mut self, data: &[u8])
        requires
            old(self).wf(),
            forall|b: int|
                0 <= b < 256 ==> #[trigger] old(self).counts()[b] + data@.len() <= u32::MAX,
        ensures
            final(self).wf(),
            forall|b: u8|
                #[trigger] final(self).counts()[b as int] == old(self).counts()[b as int] + occ(
                    data@,
                    b,
                ),
    {
        let ghost orig = self.counts();
        let mut i: usize = 0;
        while i < data.len()
            invariant
                self.wf(),
                i <= data@.len(),
                forall|b: int| 0 <= b < 256 ==> #[trigger] orig[b] + data@.len() <= u32::MAX,
                forall|b: u8|
                    #[trigger] self.counts()[b as int] == orig[b as int] + occ(
                        data@.take(i as int),
                        b,
                    ),
            decreases data@.len() - i,
        {
            let b = data[i];
            proof {
                lemma_occ_le_len(data@.take(i as int), b);
                assert(self.counts()[b as int] == orig[b as int] + occ(data@.take(i as int), b));
                assert(orig[b as int] + data@.len() <= u32::MAX);
                assert(data@.take(i + 1).drop_last() =~= data@.take(i as int));
                assert(data@.take(i + 1).last() == data@[i as int]);
            }
            let ghost pre = self.counts();
            let c = self.frequencies[b as usize];
            self.frequencies[b as usize] = c + 1;
            proof {
                assert(self.counts() == pre.update(b as int, (c + 1) as u32));
                assert forall|v: u8| #[trigger] self.counts()[v as int] == orig[v as int] + occ(
                    data@.take(i + 1),
                    v,
                ) by {
                    assert(pre[v as int] == orig[v as int] + occ(data@.take(i as int), v));
                    assert(occ(data@.take(i + 1), v) == occ(data@.take(i as int), v) + if data@[i
                        as int] == v {
                        1nat
                    } else {
                        0nat
                    });
                }
            }
            i += 1;
        }
        proof {
            assert(data@.take(data@.len() as int) =~= data@);
        }
    }

    /// The raw count slots, indexed by byte value.
    pub fn get_frequencies(&self) -> (r: &Vec<u32>)
        requires
            self.wf(),
        ensures
            r@ == self.counts(),
    {
        &self.frequencies
    }

    /// Overwrites the count recorded for one byte value.
    pub fn set_count(&mut self, byte: u8, count: u32)
        requires
            old(self).wf(),
        ensures
            final(self).wf(),
            final(self).counts() == old(self).counts().update(byte as int, count),
    {
        self.frequencies[byte as usize] = count;
    }

    /// Reads the count recorded for one byte value.
    pub fn count_of(&self, byte: u8) -> (r: u32)
        requires
            self.wf(),
        ensures
            r == self.counts()[byte as int],
    {
        self.frequencies[byte as usize]
    }
}

} // verus!
