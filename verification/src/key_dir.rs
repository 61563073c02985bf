//! The in-memory key directory: a mapping from key bytes to the locator
//! of the key's latest record, held as a flat vector of pairs with one
//! entry per key. No operation of the store needs ordered traversal, so
//! the observable behaviour is exactly that of a map, and a balanced
//! tree would buy nothing that the contracts could state.

use vstd::prelude::*;
use crate::format::KeyEntry;

verus! {

/// The map described by an association vector, later pairs winning.
spec fn assoc_map(s: Seq<(Vec<u8>, KeyEntry)>) -> Map<Seq<u8>, KeyEntry>
    decreases s.len(),
{
    if s.len() == 0 {
        Map::empty()
    } else {
        assoc_map(s.drop_last()).insert(s.last().0@, s.last().1)
    }
}

/// No two pairs carry the same key.
spec fn unique_keys(s: Seq<(Vec<u8>, KeyEntry)>) -> bool {
    forall|i: int, j: int| 0 <= i < j < s.len() ==> s[i].0@ != s[j].0@
}

proof fn lemma_assoc_contains(s: Seq<(Vec<u8>, KeyEntry)>, k: Seq<u8>)
    ensures
        assoc_map(s).contains_key(k) <==> exists|i: int| 0 <= i < s.len() && s[i].0@ == k,
    decreases s.len(),
{
    if s.len() > 0 {
        lemma_assoc_contains(s.drop_last(), k);
        if s.last().0@ == k {
            assert(s[s.len() - 1].0@ == k);
        } else if assoc_map(s).contains_key(k) {
            let i = choose|i: int| 0 <= i < s.len() - 1 && s.drop_last()[i].0@ == k;
            assert(s[i].0@ == k);
        } else {
            assert forall|i: int| 0 <= i < s.len() implies s[i].0@ != k by {
                if i < s.len() - 1 {
                    assert(s.drop_last()[i].0@ == s[i].0@);
                }
            }
        }
    }
}

proof fn lemma_assoc_get(s: Seq<(Vec<u8>, KeyEntry)>, i: int)
    requires
        unique_keys(s),
        0 <= i < s.len(),
    ensures
        assoc_map(s).contains_key(s[i].0@),
        assoc_map(s)[s[i].0@] == s[i].1,
    decreases s.len(),
{
    if i == s.len() - 1 {
    } else {
        lemma_assoc_get(s.drop_last(), i);
        assert(s.drop_last()[i] == s[i]);
        assert(s[i].0@ != s.last().0@);
    }
}

proof fn lemma_assoc_remove(s: Seq<(Vec<u8>, KeyEntry)>, i: int)
    requires
        unique_keys(s),
        0 <= i < s.len(),
    ensures
        assoc_map(s.remove(i)) == assoc_map(s).remove(s[i].0@),
    decreases s.len(),
{
    let k = s[i].0@;
    if i == s.len() - 1 {
        assert(s.remove(i) =~= s.drop_last());
        lemma_assoc_contains(s.drop_last(), k);
        assert forall|j: int| 0 <= j < s.len() - 1 implies s.drop_last()[j].0@ != k by {
            assert(s[j].0@ == s.drop_last()[j].0@);
        }
        assert(!assoc_map(s.drop_last()).contains_key(k));
        assert(assoc_map(s.drop_last()) =~= assoc_map(s.drop_last()).insert(k, s[i].1).remove(k));
    } else {
        let t = s.remove(i);
        assert(t.drop_last() =~= s.drop_last().remove(i));
        assert(t.last() == s.last());
        lemma_assoc_remove(s.drop_last(), i);
        assert(s.drop_last()[i] == s[i]);
        assert(assoc_map(t) == assoc_map(s.drop_last()).remove(k).insert(s.last().0@, s.last().1));
        assert(s[i].0@ != s.last().0@);
        assert(assoc_map(s.drop_last()).remove(k).insert(s.last().0@, s.last().1) =~= assoc_map(
            s.drop_last(),
        ).insert(s.last().0@, s.last().1).remove(k));
    }
}

/// Compares two byte slices for equality of their contents.
pub fn bytes_eq(a: &[u8], b: &[u8]) -> (r: bool)
    ensures
        r == (a@ == b@),
{
    if a.len() != b.len() {
        return false;
    }
    let mut i: usize = 0;
    while i < a.len()
        invariant
            0 <= i <= a@.len(),
            a@.len() == b@.len(),
            forall|j: int| 0 <= j < i ==> a@[j] == b@[j],
        decreases a@.len() - i,
    {
        if a[i] != b[i] {
            return false;
        }
        i += 1;
    }
    assert(a@ =~= b@);
    true
}

/// The key directory. Its mathematical content is a map from key bytes
/// to the locator of the key's latest record.
pub struct KeyDir {
    entries: Vec<(Vec<u8>, KeyEntry)>,
}

impl View for KeyDir {
    type V = Map<Seq<u8>, KeyEntry>;

    closed spec fn view(&self) -> Map<Seq<u8>, KeyEntry> {
        assoc_map(self.entries@)
    }
}

impl KeyDir {
    /// One pair per key.
    pub closed spec fn wf(&self) -> bool {
        unique_keys(self.entries@)
    }

    /// An empty directory.
    pub fn new() -> (r: KeyDir)
        ensures
            r.wf(),
            r@ == Map::<Seq<u8>, KeyEntry>::empty(),
    {
        KeyDir { entries: Vec::new() }
    }

    /// Point lookup.
    pub fn find(&self, key: &[u8]) -> (r: Option<&KeyEntry>)
        requires
            self.wf(),
        ensures
            match r {
                Some(e) => self@.contains_key(key@) && *e == self@[key@],
                None => !self@.contains_key(key@),
            },
    {
        let n = self.entries.len();
        let mut i: usize = 0;
        while i < n
            invariant
                self.wf(),
                n == self.entries@.len(),
                0 <= i <= n,
                forall|j: int| 0 <= j < i ==> self.entries@[j].0@ != key@,
            decreases n - i,
        {
            let pair = &self.entries[i];
            if bytes_eq(pair.0.as_slice(), key) {
                proof {
                    lemma_assoc_get(self.entries@, i as int);
                }
                return Some(&pair.1);
            }
            i += 1;
        }
        proof {
            lemma_assoc_contains(self.entries@, key@);
        }
        None
    }

    /// Inserts an entry, replacing any existing entry under the same key.
    #[verifier::loop_isolation(false)]
    pub fn insert(&mut self, key: Vec<u8>, entry: KeyEntry)
        requires
            old(self).wf(),
        ensures
            final(self).wf(),
            final(self)@ == old(self)@.insert(key@, entry),
    {
        let ghost s0 = self.entries@;
        let n = self.entries.len();
        let mut i: usize = 0;
        while i < n
            invariant
                self.entries@ == s0,
                unique_keys(s0),
                n == s0.len(),
                0 <= i <= n,
                forall|j: int| 0 <= j < i ==> s0[j].0@ != key@,
            decreases n - i,
        {
            if bytes_eq(self.entries[i].0.as_slice(), key.as_slice()) {
                proof {
                    lemma_assoc_remove(s0, i as int);
                }
                self.entries.remove(i);
                self.entries.push((key, entry));
                proof {
                    let s1 = s0.remove(i as int);
                    assert(self.entries@.drop_last() =~= s1);
                    assert forall|p: int, q: int|
                        0 <= p < q < self.entries@.len() implies self.entries@[p].0@
                        != self.entries@[q].0@ by {
                        if q < self.entries@.len() - 1 {
                            lemma_remove_unique(s0, i as int);
                        } else {
                            lemma_remove_no_key(s0, i as int, key@);
                        }
                    }
                    assert(s0[i as int].0@ == key@);
                    assert(assoc_map(s1) == assoc_map(s0).remove(key@));
                    assert(self.entries@.last().0@ == key@ && self.entries@.last().1 == entry);
                    assert(self@ == assoc_map(s1).insert(key@, entry));
                    assert(self@ =~= old(self)@.insert(key@, entry));
                }
                return ;
            }
            i += 1;
        }
        proof {
            lemma_assoc_contains(s0, key@);
            assert(!assoc_map(s0).contains_key(key@));
        }
        self.entries.push((key, entry));
        proof {
            assert(self.entries@.drop_last() =~= s0);
            assert forall|p: int, q: int|
                0 <= p < q < self.entries@.len() implies self.entries@[p].0@
                != self.entries@[q].0@ by {}
        }
    }

    /// Removes a key's entry, returning it when there was one.
    #[verifier::loop_isolation(false)]
    pub fn delete(&mut self, key: &[u8]) -> (r: Option<KeyEntry>)
        requires
            old(self).wf(),
        ensures
            final(self).wf(),
            final(self)@ == old(self)@.remove(key@),
            match r {
                Some(e) => old(self)@.contains_key(key@) && e == old(self)@[key@],
                None => !old(self)@.contains_key(key@),
            },
    {
        let ghost s0 = self.entries@;
        let n = self.entries.len();
        let mut i: usize = 0;
        while i < n
            invariant
                self.entries@ == s0,
                unique_keys(s0),
                n == s0.len(),
                0 <= i <= n,
                forall|j: int| 0 <= j < i ==> s0[j].0@ != key@,
            decreases n - i,
        {
            if bytes_eq(self.entries[i].0.as_slice(), key) {
                proof {
                    lemma_assoc_get(s0, i as int);
                    lemma_assoc_remove(s0, i as int);
                    lemma_remove_unique(s0, i as int);
                    assert(s0[i as int].0@ == key@);
                }
                let pair = self.entries.remove(i);
                proof {
                    assert(self.entries@ == s0.remove(i as int));
                    assert(self@ == assoc_map(s0).remove(key@));
                    assert(pair.1 == s0[i as int].1);
                }
                return Some(pair.1);
            }
            i += 1;
        }
        proof {
            lemma_assoc_contains(s0, key@);
            assert(final(self)@ =~= old(self)@.remove(key@));
        }
        None
    }
}

proof fn lemma_remove_unique(s: Seq<(Vec<u8>, KeyEntry)>, i: int)
    requires
        unique_keys(s),
        0 <= i < s.len(),
    ensures
        unique_keys(s.remove(i)),
{
    let t = s.remove(i);
    assert forall|p: int, q: int| 0 <= p < q < t.len() implies t[p].0@ != t[q].0@ by {
        let p0 = if p < i { p } else { p + 1 };
        let q0 = if q < i { q } else { q + 1 };
        assert(t[p] == s[p0]);
        assert(t[q] == s[q0]);
    }
}

proof fn lemma_remove_no_key(s: Seq<(Vec<u8>, KeyEntry)>, i: int, k: Seq<u8>)
    requires
        unique_keys(s),
        0 <= i < s.len(),
        s[i].0@ == k,
    ensures
        forall|j: int| 0 <= j < s.len() - 1 ==> #[trigger] s.remove(i)[j].0@ != k,
{
    let t = s.remove(i);
    assert forall|j: int| 0 <= j < s.len() - 1 implies #[trigger] t[j].0@ != k by {
        let j0 = if j < i { j } else { j + 1 };
        assert(t[j] == s[j0]);
        assert(j0 != i);
    }
}

} // verus!
