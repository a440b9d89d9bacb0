//! An ordered sequence of values with a name index: entries keep their
//! insertion order and can be fetched by key, and the sequence can be walked
//! forward or backward starting at a named entry.

use vstd::prelude::*;

verus! {

/// The index of the entry that a key refers to: the last position whose key
/// equals `k`, or `-1` when no position does. The last position wins because
/// a later `add` with the same key takes the key over.
pub open spec fn last_key_idx(keys: Seq<Seq<char>>, k: Seq<char>) -> int
    decreases keys.len(),
{
    if keys.len() == 0 {
        -1
    } else if keys.last() == k {
        keys.len() - 1
    } else {
        last_key_idx(keys.drop_last(), k)
    }
}

/// Whether some entry carries the key `k`.
pub open spec fn has_key(keys: Seq<Seq<char>>, k: Seq<char>) -> bool {
    last_key_idx(keys, k) >= 0
}

pub proof fn lemma_last_key_idx(keys: Seq<Seq<char>>, k: Seq<char>)
    ensures
        has_key(keys, k) ==> {
            let i = last_key_idx(keys, k);
            &&& 0 <= i < keys.len()
            &&& keys[i] == k
            &&& forall|j: int| i < j < keys.len() ==> keys[j] != k
        },
        !has_key(keys, k) ==> forall|j: int| 0 <= j < keys.len() ==> keys[j] != k,
    decreases keys.len(),
{
    if keys.len() > 0 && keys.last() != k {
        lemma_last_key_idx(keys.drop_last(), k);
        assert(forall|j: int| 0 <= j < keys.len() - 1 ==> keys[j] == keys.drop_last()[j]);
    }
}

/// Keyed, ordered storage: a flat ordered array of values beside the keys
/// under which they were added.
pub struct SeqData<T> {
    keys: Vec<String>,
    values: Vec<T>,
}

impl<T> SeqData<T> {
    /// The keys, in insertion order, as character sequences.
    pub closed spec fn spec_keys(self) -> Seq<Seq<char>> {
        self.keys@.map_values(|k: String| k@)
    }

    /// The values, in insertion order.
    pub closed spec fn spec_values(self) -> Seq<T> {
        self.values@
    }

    /// Well-formed storage carries one key per value.
    pub open spec fn wf(self) -> bool {
        self.spec_keys().len() == self.spec_values().len()
    }

    pub fn new() -> (r: Self)
        ensures
            r.wf(),
            r.spec_keys() == Seq::<Seq<char>>::empty(),
            r.spec_values() == Seq::<T>::empty(),
    {
        let r = Self { keys: Vec::new(), values: Vec::new() };
        proof {
            assert(r.spec_keys() =~= Seq::<Seq<char>>::empty());
        }
        r
    }

    /// Appends a value under a key. A key used twice refers to the later
    /// entry from then on; the earlier entry keeps its place in the order.
    pub fn add(&mut self, key: &str, data: T)
        requires
            old(self).wf(),
        ensures
            final(self).wf(),
            final(self).spec_keys() == old(self).spec_keys().push(key@),
            final(self).spec_values() == old(self).spec_values().push(data),
    {
        let ghost orig = *self;
        self.values.push(data);
        self.keys.push(key.to_owned());
        proof {
            assert(self.spec_keys() =~= orig.spec_keys().push(key@));
        }
    }

    /// The number of entries.
    pub fn len(&self) -> (r: usize)
        ensures
            r == self.spec_values().len(),
    {
        self.values.len()
    }

    /// Fetches the value that a key refers to, or nothing when the key was
    /// never added.
    pub fn get(&self, key: &str) -> (r: Option<&T>)
        requires
            self.wf(),
        ensures
            r is Some <==> has_key(self.spec_keys(), key@),
            r matches Some(v) ==> *v == self.spec_values()[last_key_idx(self.spec_keys(), key@)],
    {
        match self.position(key) {
            Some(i) => Some(&self.values[i]),
            None => None,
        }
    }

    /// The position that a key refers to, or nothing when the key is absent.
    fn position(&self, key: &str) -> (r: Option<usize>)
        requires
            self.wf(),
        ensures
            r is Some <==> has_key(self.spec_keys(), key@),
            r matches Some(i) ==> i == last_key_idx(self.spec_keys(), key@)
                && i < self.spec_keys().len(),
    {
        proof {
            assert(self.spec_keys().subrange(0, self.spec_keys().len() as int) =~= self
                .spec_keys());
        }
        let k = key.to_owned();
        let mut i: usize = self.keys.len();
        while i > 0
        invariant
                i <= self.keys@.len(),
                self.keys@.len() == self.spec_keys().len(),
                k@ == key@,
                last_key_idx(self.spec_keys(), key@) == last_key_idx(
                    self.spec_keys().subrange(0, i as int),
                    key@,
                ),
            decreases i,
        {
            i = i - 1;
            if self.keys[i] == k {
                proof {
                    assert(self.spec_keys().subrange(0, i + 1).last() == key@);
                }
                return Some(i);
            }
            proof {
                assert(self.spec_keys().subrange(0, i + 1).last() == self.spec_keys()[i as int]);
                assert(self.spec_keys().subrange(0, i + 1).drop_last() =~= self.spec_keys()
                    .subrange(0, i as int));
            }
        }
        proof {
            assert(self.spec_keys().subrange(0, 0) =~= Seq::<Seq<char>>::empty());
        }
        None
    }

    /// A walk over the entries from the one that `key` refers to toward the
    /// end of the order, the named entry first; nothing when the key is
    /// absent, which is distinct from a walk with no entries left.
    pub fn iter_forward<'a>(&'a self, key: &str) -> (r: Option<SeqDataFwdIter<'a, T>>)
        requires
            self.wf(),
        ensures
            r is Some <==> has_key(self.spec_keys(), key@),
            r matches Some(it) ==> it.remaining() == self.spec_values().subrange(
                last_key_idx(self.spec_keys(), key@),
                self.spec_values().len() as int,
            ) && it.full_values() == self.spec_values(),
    {
        match self.position(key) {
            Some(i) => Some(SeqDataFwdIter { data: self, pos: i }),
            None => None,
        }
    }

    /// A walk over the entries from the one that `key` refers to back toward
    /// the start of the order, the named entry first; nothing when the key
    /// is absent.
    pub fn iter_backward<'a>(&'a self, key: &str) -> (r: Option<SeqDataBwdIter<'a, T>>)
        requires
            self.wf(),
        ensures
            r is Some <==> has_key(self.spec_keys(), key@),
            r matches Some(it) ==> it.remaining() == self.spec_values().subrange(
                0,
                last_key_idx(self.spec_keys(), key@) + 1,
            ).reverse() && it.full_values() == self.spec_values(),
    {
        let n = self.values.len();
        match self.position(key) {
            Some(i) => Some(SeqDataBwdIter { data: self, pos: i + 1 }),
            None => None,
        }
    }
}

/// A forward walk: yields each value from its start position to the end of
/// the order, once each.
pub struct SeqDataFwdIter<'a, T> {
    data: &'a SeqData<T>,
    pos: usize,
}

impl<'a, T> SeqDataFwdIter<'a, T> {
    #[verifier::type_invariant]
    spec fn type_inv(self) -> bool {
        self.pos <= self.data.spec_values().len()
    }

    /// The values not yet yielded, in the order they will come.
    pub closed spec fn remaining(self) -> Seq<T> {
        self.data.spec_values().subrange(self.pos as int, self.data.spec_values().len() as int)
    }

    /// The whole order that the walk belongs to.
    pub closed spec fn full_values(self) -> Seq<T> {
        self.data.spec_values()
    }

    pub fn next(&mut self) -> (r: Option<&'a T>)
        ensures
            final(self).full_values() == old(self).full_values(),
            old(self).remaining().len() == 0 ==> r is None && final(self).remaining() == old(
                self,
            ).remaining(),
            old(self).remaining().len() > 0 ==> (r matches Some(v) && *v == old(
                self,
            ).remaining()[0] && final(self).remaining() == old(self).remaining().drop_first()),
    {
        proof {
            use_type_invariant(&*self);
        }
        let ghost orig = *self;
        if self.pos < self.data.values.len() {
            let v = &self.data.values[self.pos];
            self.pos = self.pos + 1;
            proof {
                assert(self.remaining() =~= orig.remaining().drop_first());
            }
            Some(v)
        } else {
            proof {
                assert(self.remaining() =~= orig.remaining());
            }
            None
        }
    }
}

/// A backward walk: yields each value from its start position back to the
/// start of the order, once each.
pub struct SeqDataBwdIter<'a, T> {
    data: &'a SeqData<T>,
    pos: usize,
}

impl<'a, T> SeqDataBwdIter<'a, T> {
    #[verifier::type_invariant]
    spec fn type_inv(self) -> bool {
        self.pos <= self.data.spec_values().len()
    }

    /// The values not yet yielded, in the order they will come.
    pub closed spec fn remaining(self) -> Seq<T> {
        self.data.spec_values().subrange(0, self.pos as int).reverse()
    }

    /// The whole order that the walk belongs to.
    pub closed spec fn full_values(self) -> Seq<T> {
        self.data.spec_values()
    }

    pub fn next(&mut self) -> (r: Option<&'a T>)
        ensures
            final(self).full_values() == old(self).full_values(),
            old(self).remaining().len() == 0 ==> r is None && final(self).remaining() == old(
                self,
            ).remaining(),
            old(self).remaining().len() > 0 ==> (r matches Some(v) && *v == old(
                self,
            ).remaining()[0] && final(self).remaining() == old(self).remaining().drop_first()),
    {
        proof {
            use_type_invariant(&*self);
        }
        let ghost orig = *self;
        if self.pos > 0 {
            let v = &self.data.values[self.pos - 1];
            self.pos = self.pos - 1;
            proof {
                assert(self.remaining() =~= orig.remaining().drop_first());
            }
            Some(v)
        } else {
            proof {
                assert(self.remaining() =~= orig.remaining());
            }
            None
        }
    }
}

} // verus!
