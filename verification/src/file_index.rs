//! The record of the contents present in the target folder: a map from a
//! content key (hex digest) to the path of a file holding that content.
//!
//! vstd's specification of `std::collections::HashMap::insert` (and of its
//! other methods) holds only under `obeys_key_model::<Key>()`, which vstd
//! grants to integer keys alone; with `Vec<u8>` keys, even "one insert into
//! an empty map gives a map of one key" does not verify.  So the record is
//! two parallel vectors whose keys never repeat.

use vstd::prelude::*;

verus! {

/// Byte-string equality.
pub fn bytes_equal(a: &[u8], b: &[u8]) -> (eq: bool)
    ensures
        eq == (a@ == b@),
{
    if a.len() != b.len() {
        return false;
    }
    let mut i: usize = 0;
    while i < a.len()
        invariant
            a@.len() == b@.len(),
            i <= a@.len(),
            forall|j: int| 0 <= j < i ==> a@[j] == b@[j],
        decreases a@.len() - i,
    {
        if a[i] != b[i] {
            return false;
        }
        i = i + 1;
    }
    assert(a@ =~= b@);
    true
}

/// A copy of the bytes of `s`.
pub fn copy_bytes(s: &[u8]) -> (out: Vec<u8>)
    ensures
        out@ == s@,
{
    let mut out: Vec<u8> = Vec::new();
    crate::paths::push_all(&mut out, s);
    assert(out@ =~= s@);
    out
}

/// Map from content key to path; keys are distinct.
pub struct FileIndex {
    keys: Vec<Vec<u8>>,
    paths: Vec<Vec<u8>>,
}

pub open spec fn views_of(v: Seq<Vec<u8>>) -> Seq<Seq<u8>> {
    v.map_values(|b: Vec<u8>| b@)
}

proof fn lemma_index_of_unique(s: Seq<Seq<u8>>, k: Seq<u8>, i: int)
    requires
        s.no_duplicates(),
        0 <= i < s.len(),
        s[i] == k,
    ensures
        s.index_of(k) == i,
{
    assert(s.contains(k));
    let j = s.index_of(k);
    assert(0 <= j < s.len() && s[j] == k);
}

impl FileIndex {
    pub closed spec fn key_seq(&self) -> Seq<Seq<u8>> {
        views_of(self.keys@)
    }

    pub closed spec fn path_seq(&self) -> Seq<Seq<u8>> {
        views_of(self.paths@)
    }

    /// Both vectors have one entry per record and no key repeats.
    pub closed spec fn wf(&self) -> bool {
        &&& self.keys@.len() == self.paths@.len()
        &&& self.key_seq().no_duplicates()
    }

    /// The recorded map.
    pub closed spec fn map(&self) -> Map<Seq<u8>, Seq<u8>> {
        Map::new(
            |k: Seq<u8>| self.key_seq().contains(k),
            |k: Seq<u8>| self.path_seq()[self.key_seq().index_of(k)],
        )
    }

    /// An empty record.
    pub fn new() -> (index: Self)
        ensures
            index.wf(),
            index.map() == Map::<Seq<u8>, Seq<u8>>::empty(),
    {
        let index = FileIndex { keys: Vec::new(), paths: Vec::new() };
        assert(index.key_seq() =~= Seq::<Seq<u8>>::empty());
        assert(index.map() =~= Map::<Seq<u8>, Seq<u8>>::empty());
        index
    }

    /// Position of `key` among the records.
    fn find(&self, key: &[u8]) -> (r: Option<usize>)
        requires
            self.wf(),
        ensures
            match r {
                Some(i) => i < self.keys@.len() && self.key_seq()[i as int] == key@,
                None => !self.key_seq().contains(key@),
            },
    {
        let mut i: usize = 0;
        while i < self.keys.len()
            invariant
                self.wf(),
                i <= self.keys@.len(),
                forall|j: int| 0 <= j < i ==> self.key_seq()[j] != key@,
            decreases self.keys@.len() - i,
        {
            if bytes_equal(self.keys[i].as_slice(), key) {
                return Some(i);
            }
            i = i + 1;
        }
        None
    }

    /// Whether `key` is recorded.
    pub fn contains_key(&self, key: &[u8]) -> (found: bool)
        requires
            self.wf(),
        ensures
            found == self.map().contains_key(key@),
    {
        match self.find(key) {
            Some(_) => true,
            None => false,
        }
    }

    /// Records `path` under `key`, replacing what `key` held before.
    pub fn insert(&mut self, key: Vec<u8>, path: Vec<u8>)
        requires
            old(self).wf(),
        ensures
            final(self).wf(),
            final(self).map() == old(self).map().insert(key@, path@),
    {
        let ghost old_map = self.map();
        match self.find(key.as_slice()) {
            Some(i) => {
                let ghost k = key@;
                let ghost v = path@;
                self.paths.set(i, path);
                proof {
                    assert(self.key_seq() == old(self).key_seq());
                    assert(self.path_seq() =~= old(self).path_seq().update(i as int, v));
                    assert forall|q: Seq<u8>| #[trigger] self.map().contains_key(q) implies self.map()[q]
                        == old_map.insert(k, v)[q] by {
                        let j = self.key_seq().index_of(q);
                        assert(0 <= j < self.key_seq().len() && self.key_seq()[j] == q);
                        if q == k {
                            lemma_index_of_unique(self.key_seq(), q, i as int);
                        } else {
                            assert(j != i);
                        }
                    }
                    assert(self.map().dom() =~= old_map.insert(k, v).dom());
                    assert(self.map() =~= old_map.insert(k, v));
                }
            },
            None => {
                let ghost k = key@;
                let ghost v = path@;
                let ghost old_keys = self.key_seq();
                let ghost old_paths = self.path_seq();
                self.keys.push(key);
                self.paths.push(path);
                proof {
                    let n = old_keys.len() as int;
                    assert(self.key_seq() =~= old_keys.push(k));
                    assert(self.path_seq() =~= old_paths.push(v));
                    assert(self.key_seq()[n] == k);
                    assert forall|a: int, b: int|
                        0 <= a < self.key_seq().len() && 0 <= b < self.key_seq().len() && a != b
                            implies self.key_seq()[a] != self.key_seq()[b] by {
                        if a == n {
                            assert(old_keys[b] == self.key_seq()[b]);
                        } else if b == n {
                            assert(old_keys[a] == self.key_seq()[a]);
                        }
                    }
                    assert forall|q: Seq<u8>| #[trigger] self.map().contains_key(q) implies self.map()[q]
                        == old_map.insert(k, v)[q] by {
                        let j = self.key_seq().index_of(q);
                        assert(0 <= j < self.key_seq().len() && self.key_seq()[j] == q);
                        if q == k {
                            lemma_index_of_unique(self.key_seq(), q, n);
                        } else {
                            assert(j != n);
                            assert(old_keys[j] == q);
                            lemma_index_of_unique(old_keys, q, j);
                        }
                    }
                    assert forall|q: Seq<u8>| old_map.insert(k, v).contains_key(q) implies #[trigger] self.map().contains_key(q) by {
                        if q == k {
                            assert(self.key_seq()[n] == q);
                        } else {
                            let j = old_keys.index_of(q);
                            assert(self.key_seq()[j] == q);
                        }
                    }
                    assert forall|q: Seq<u8>| #[trigger] self.map().contains_key(q) implies old_map.insert(k, v).contains_key(q) by {
                        let j = self.key_seq().index_of(q);
                        if j != n {
                            assert(old_keys[j] == q);
                        }
                    }
                    assert(self.map().dom() =~= old_map.insert(k, v).dom());
                    assert(self.map() =~= old_map.insert(k, v));
                }
            },
        }
    }
}

} // verus!
