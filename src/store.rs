//! A keyed store from fixed-size byte keys to cell ids, where an absent key
//! reads as 0.
use vstd::prelude::*;

verus! {

/// The value of key `k` in a list of entries: that of the last entry with
/// key `k`, or 0 if there is none.
pub open spec fn lookup<const N: usize>(entries: Seq<([u8; N], u64)>, k: Seq<u8>) -> u64
    decreases entries.len(),
{
    if entries.len() == 0 {
        0
    } else if entries.last().0@ == k {
        entries.last().1
    } else {
        lookup(entries.drop_last(), k)
    }
}

/// Whether two byte arrays hold the same bytes.
pub fn same_bytes<const N: usize>(a: &[u8; N], b: &[u8; N]) -> (r: bool)
    ensures
        r == (a@ == b@),
{
    let mut i: usize = 0;
    while i < N
        invariant
            i <= N,
            a@.len() == N,
            b@.len() == N,
            forall|j: int| 0 <= j < i ==> a@[j] == b@[j],
        decreases N - i,
    {
        if a[i] != b[i] {
            return false;
        }
        i = i + 1;
    }
    assert(a@ =~= b@);
    true
}

/// A map from `N`-byte keys to cell ids.
#[derive(Debug)]
pub struct KeyedStore<const N: usize> {
    pub entries: Vec<([u8; N], u64)>,
}

impl<const N: usize> KeyedStore<N> {
    /// The cell id held under key `k`, 0 where none is.
    pub open spec fn get_spec(&self, k: Seq<u8>) -> u64 {
        lookup(self.entries@, k)
    }

    /// An empty store: every key reads as 0.
    pub fn new() -> (r: Self)
        ensures
            forall|k: Seq<u8>| r.get_spec(k) == 0,
    {
        KeyedStore { entries: Vec::new() }
    }

    /// The cell id held under `k`, or 0.
    pub fn get(&self, k: &[u8; N]) -> (r: u64)
        ensures
            r == self.get_spec(k@),
    {
        let mut i: usize = self.entries.len();
        assert(self.entries@.take(i as int) =~= self.entries@);
        while i > 0
            invariant
                i <= self.entries@.len(),
                lookup(self.entries@, k@) == lookup(self.entries@.take(i as int), k@),
            decreases i,
        {
            let ghost pre = self.entries@.take(i as int);
            assert(pre.drop_last() =~= self.entries@.take(i - 1));
            if same_bytes(&self.entries[i - 1].0, k) {
                return self.entries[i - 1].1;
            }
            i = i - 1;
        }
        assert(self.entries@.take(0) =~= Seq::<([u8; N], u64)>::empty());
        0
    }

    /// Holds `v` under `k`, leaving every other key as it was.
    pub fn set(&mut self, k: [u8; N], v: u64)
        ensures
            final(self).get_spec(k@) == v,
            forall|k2: Seq<u8>| k2 != k@ ==> final(self).get_spec(k2) == old(self).get_spec(k2),
    {
        let mut i: usize = self.entries.len();
        while i > 0
            invariant
                i <= self.entries@.len(),
                self.entries@ == old(self).entries@,
                forall|j: int| i <= j < self.entries@.len() ==> self.entries@[j].0@ != k@,
            decreases i,
        {
            if same_bytes(&self.entries[i - 1].0, &k) {
                let ghost before = self.entries@;
                self.entries.set(i - 1, (k, v));
                proof {
                    assert forall|k2: Seq<u8>|
                        #![trigger lookup(self.entries@, k2)]
                        true implies lookup(self.entries@, k2) == (if k2 == k@ {
                            v
                        } else {
                            lookup(before, k2)
                        }) by {
                        lemma_lookup_update_last(before, (i - 1) as int, k, v, k2);
                    }
                }
                return;
            }
            i = i - 1;
        }
        let ghost before = self.entries@;
        self.entries.push((k, v));
        assert(self.entries@.drop_last() =~= before);
        assert forall|k2: Seq<u8>| k2 != k@ implies #[trigger] lookup(self.entries@, k2) == lookup(
            before,
            k2,
        ) by {
            assert(self.entries@.last().0@ == k@);
        }
    }
}

/// Overwriting the last entry of a key changes the value of that key alone.
pub proof fn lemma_lookup_update_last<const N: usize>(
    s: Seq<([u8; N], u64)>,
    i: int,
    k: [u8; N],
    v: u64,
    k2: Seq<u8>,
)
    requires
        0 <= i < s.len(),
        s[i].0@ == k@,
        forall|j: int| i < j < s.len() ==> s[j].0@ != k@,
    ensures
        lookup(s.update(i, (k, v)), k2) == (if k2 == k@ {
            v
        } else {
            lookup(s, k2)
        }),
    decreases s.len(),
{
    let t = s.update(i, (k, v));
    if i == s.len() - 1 {
        assert(t.drop_last() =~= s.drop_last());
    } else {
        lemma_lookup_update_last(s.drop_last(), i, k, v, k2);
        assert(t.drop_last() =~= s.drop_last().update(i, (k, v)));
        assert(t.last() == s.last());
    }
}

} // verus!
