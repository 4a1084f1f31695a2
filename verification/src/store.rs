//! The shared in-memory key-value store.
//!
//! A mapping from byte-string key to byte-string value, keys unique, no
//! ordering semantics. `set` replaces any existing value for the key;
//! `get` never mutates. The embedding program shares one store across
//! connections behind a mutual-exclusion lock and holds the lock for one
//! operation at a time, never across a transport wait.

use vstd::prelude::*;

verus! {

/// Compare two byte strings for equality.
pub fn bytes_eq(a: &[u8], b: &[u8]) -> (r: bool)
    ensures
        r == (a@ == b@),
{
    if a.len() != b.len() {
        proof {
            assert(a@ != b@);
        }
        return false;
    }
    let mut i: usize = 0;
    while i < a.len()
        invariant
            i <= a@.len(),
            a@.len() == b@.len(),
            forall|k: int| 0 <= k < i ==> a@[k] == b@[k],
        decreases a@.len() - i,
    {
        if a[i] != b[i] {
            return false;
        }
        i = i + 1;
    }
    proof {
        assert(a@ =~= b@);
    }
    true
}

/// Copy a byte vector.
pub fn copy_bytes(v: &Vec<u8>) -> (r: Vec<u8>)
    ensures
        r@ == v@,
{
    let mut out: Vec<u8> = Vec::new();
    let mut i: usize = 0;
    while i < v.len()
        invariant
            i <= v@.len(),
            out@ == v@.take(i as int),
        decreases v@.len() - i,
    {
        out.push(v[i]);
        assert(v@.take(i as int + 1) =~= v@.take(i as int).push(v@[i as int]));
        i = i + 1;
    }
    proof {
        assert(v@.take(v@.len() as int) =~= v@);
    }
    out
}

/// The map held by a list of key-value entries; a later entry for the same
/// key wins.
pub open spec fn kv_map(s: Seq<(Vec<u8>, Vec<u8>)>) -> Map<Seq<u8>, Seq<u8>>
    decreases s.len(),
{
    if s.len() == 0 {
        Map::empty()
    } else {
        kv_map(s.drop_last()).insert(s.last().0@, s.last().1@)
    }
}

/// No two entries hold the same key.
pub open spec fn keys_unique(s: Seq<(Vec<u8>, Vec<u8>)>) -> bool {
    forall|p: int, q: int| 0 <= p < q < s.len() ==> (#[trigger] s[p]).0@ != (#[trigger] s[q]).0@
}

/// Some entry holds `key`.
pub open spec fn has_key(s: Seq<(Vec<u8>, Vec<u8>)>, key: Seq<u8>) -> bool {
    exists|idx: int| 0 <= idx < s.len() && (#[trigger] s[idx]).0@ == key
}

/// Under unique keys, the entry list and its map agree: the map holds
/// exactly the listed keys, each at its listed value.
pub proof fn lemma_kv_map(s: Seq<(Vec<u8>, Vec<u8>)>)
    requires
        keys_unique(s),
    ensures
        forall|key: Seq<u8>| #![trigger kv_map(s).contains_key(key)] #![trigger has_key(s, key)]
            (kv_map(s).contains_key(key) <==> has_key(s, key)),
        forall|idx: int| 0 <= idx < s.len() ==> kv_map(s).contains_key((#[trigger] s[idx]).0@)
            && kv_map(s)[s[idx].0@] == s[idx].1@,
    decreases s.len(),
{
    if s.len() > 0 {
        let dl = s.drop_last();
        let last = s.last();
        assert(keys_unique(dl)) by {
            assert(forall|p: int, q: int| 0 <= p < q < dl.len()
                ==> (#[trigger] dl[p]).0@ != (#[trigger] dl[q]).0@) by {
                assert(forall|p: int| 0 <= p < dl.len() ==> #[trigger] dl[p] == s[p]);
            }
        }
        lemma_kv_map(dl);
        assert forall|key: Seq<u8>| kv_map(s).contains_key(key) implies has_key(s, key) by {
            if key == last.0@ {
                assert(0 <= s.len() - 1 < s.len() && s[s.len() - 1].0@ == key);
            } else {
                assert(has_key(dl, key));
                let idx = choose|idx: int| 0 <= idx < dl.len() && (#[trigger] dl[idx]).0@ == key;
                assert(dl[idx] == s[idx]);
                assert(s[idx].0@ == key);
            }
        }
        assert forall|key: Seq<u8>| has_key(s, key) implies kv_map(s).contains_key(key) by {
            let idx = choose|idx: int| 0 <= idx < s.len() && (#[trigger] s[idx]).0@ == key;
            if idx < s.len() - 1 {
                assert(dl[idx].0@ == key);
                assert(has_key(dl, key));
            }
        }
        assert forall|idx: int| 0 <= idx < s.len() implies kv_map(s).contains_key((#[trigger] s[idx]).0@)
            && kv_map(s)[s[idx].0@] == s[idx].1@ by {
            if idx < s.len() - 1 {
                assert(dl[idx] == s[idx]);
                assert(s[idx].0@ != last.0@);
            }
        }
    }
}

/// Removing one entry keeps keys unique, drops exactly that key, and keeps
/// every other listed key with its value.
pub proof fn lemma_remove_entry(s: Seq<(Vec<u8>, Vec<u8>)>, i: int)
    requires
        keys_unique(s),
        0 <= i < s.len(),
    ensures
        keys_unique(s.remove(i)),
        !has_key(s.remove(i), s[i].0@),
        forall|key: Seq<u8>| key != s[i].0@ ==> (has_key(s.remove(i), key) <==> has_key(s, key)),
        forall|idx: int| 0 <= idx < s.remove(i).len() ==> exists|orig: int|
            0 <= orig < s.len() && #[trigger] s.remove(i)[idx] == s[orig],
{
    let r = s.remove(i);
    assert(forall|j: int| 0 <= j < i ==> #[trigger] r[j] == s[j]);
    assert(forall|j: int| i <= j < r.len() ==> #[trigger] r[j] == s[j + 1]);
    assert forall|p: int, q: int| 0 <= p < q < r.len() implies (#[trigger] r[p]).0@ != (#[trigger] r[q]).0@ by {
        let p2: int = if p < i { p } else { p + 1 };
        let q2: int = if q < i { q } else { q + 1 };
        assert(r[p] == s[p2] && r[q] == s[q2] && p2 < q2);
    }
    assert(!has_key(r, s[i].0@)) by {
        if has_key(r, s[i].0@) {
            let idx = choose|idx: int| 0 <= idx < r.len() && (#[trigger] r[idx]).0@ == s[i].0@;
            let orig: int = if idx < i { idx } else { idx + 1 };
            assert(r[idx] == s[orig] && orig != i);
        }
    }
    assert forall|key: Seq<u8>| key != s[i].0@ implies (has_key(r, key) <==> has_key(s, key)) by {
        if has_key(r, key) {
            let idx = choose|idx: int| 0 <= idx < r.len() && (#[trigger] r[idx]).0@ == key;
            let orig: int = if idx < i { idx } else { idx + 1 };
            assert(s[orig].0@ == key);
        }
        if has_key(s, key) {
            let orig = choose|orig: int| 0 <= orig < s.len() && (#[trigger] s[orig]).0@ == key;
            let idx: int = if orig < i { orig } else { orig - 1 };
            assert(r[idx] == s[orig]);
        }
    }
    assert forall|idx: int| 0 <= idx < r.len() implies exists|orig: int|
        0 <= orig < s.len() && #[trigger] r[idx] == s[orig] by {
        let orig: int = if idx < i { idx } else { idx + 1 };
        assert(r[idx] == s[orig]);
    }
}

/// Two `SET`s of one key race only through the store's lock, which
/// serializes them in one order or the other: the key then holds exactly
/// the value written by whichever came second — one of the two written
/// values entire, never a mixture.
pub proof fn lemma_concurrent_set_last_wins(
    m: Map<Seq<u8>, Seq<u8>>,
    k: Seq<u8>,
    v1: Seq<u8>,
    v2: Seq<u8>,
)
    ensures
        m.insert(k, v1).insert(k, v2)[k] == v2,
        m.insert(k, v2).insert(k, v1)[k] == v1,
        m.insert(k, v1).insert(k, v2)[k] == v1 || m.insert(k, v1).insert(k, v2)[k] == v2,
{
}

/// Index of the entry holding `key`, if any.
fn find_key(entries: &Vec<(Vec<u8>, Vec<u8>)>, key: &Vec<u8>) -> (r: Option<usize>)
    ensures
        match r {
            Some(i) => i < entries@.len() && entries@[i as int].0@ == key@,
            None => forall|k: int| 0 <= k < entries@.len() ==> (#[trigger] entries@[k]).0@ != key@,
        },
{
    let mut i: usize = 0;
    while i < entries.len()
        invariant
            i <= entries@.len(),
            forall|k: int| 0 <= k < i ==> (#[trigger] entries@[k]).0@ != key@,
        decreases entries@.len() - i,
    {
        if bytes_eq(entries[i].0.as_slice(), key.as_slice()) {
            return Some(i);
        }
        i = i + 1;
    }
    None
}

/// The shared key-value store: byte-string keys to byte-string values.
pub struct Store {
    entries: Vec<(Vec<u8>, Vec<u8>)>,
}

impl Store {
    /// The mapping this store holds.
    pub closed spec fn view(&self) -> Map<Seq<u8>, Seq<u8>> {
        kv_map(self.entries@)
    }

    /// Internal well-formedness: entry keys are unique.
    pub closed spec fn wf(&self) -> bool {
        keys_unique(self.entries@)
    }

    /// An empty store.
    pub fn new() -> (r: Store)
        ensures
            r.wf(),
            r@ == Map::<Seq<u8>, Seq<u8>>::empty(),
    {
        Store { entries: Vec::new() }
    }

    /// Look the key up; no mutation. Returns the held value exactly when
    /// the key is present.
    pub fn get(&self, key: &Vec<u8>) -> (r: Option<Vec<u8>>)
        requires
            self.wf(),
        ensures
            match r {
                Some(v) => self@.contains_key(key@) && v@ == self@[key@],
                None => !self@.contains_key(key@),
            },
    {
        proof {
            lemma_kv_map(self.entries@);
        }
        match find_key(&self.entries, key) {
            Some(i) => {
                proof {
                    assert(self.entries@[i as int].0@ == key@);
                }
                Some(copy_bytes(&self.entries[i].1))
            },
            None => {
                proof {
                    assert(!has_key(self.entries@, key@));
                }
                None
            },
        }
    }

    /// Bind the key to the value, replacing any existing binding.
    pub fn set(&mut self, key: Vec<u8>, value: Vec<u8>)
        requires
            old(self).wf(),
        ensures
            final(self).wf(),
            final(self)@ == old(self)@.insert(key@, value@),
    {
        let ghost s0 = self.entries@;
        proof {
            lemma_kv_map(s0);
        }
        let idx_opt = find_key(&self.entries, &key);
        let ghost found = idx_opt is Some;
        let ghost fidx: int = if idx_opt is Some { idx_opt->0 as int } else { 0 };
        if let Some(i) = idx_opt {
            let _ = self.entries.remove(i);
        }
        let ghost mid = self.entries@;
        proof {
            if found {
                lemma_remove_entry(s0, fidx);
                assert(mid == s0.remove(fidx));
                assert(s0[fidx].0@ == key@);
                assert(!has_key(mid, key@));
            } else {
                assert(mid == s0);
                assert(!has_key(s0, key@));
            }
        }
        let ghost kv = key@;
        let ghost vv = value@;
        self.entries.push((key, value));
        proof {
            let fin = self.entries@;
            assert(fin == mid.push((fin.last().0, fin.last().1)));
            assert(fin.drop_last() =~= mid);
            assert(kv_map(fin) == kv_map(mid).insert(kv, vv));
            // keys of `mid` are unique and `key` is not among them
            assert(keys_unique(mid) && !has_key(mid, kv));
            assert forall|p: int, q: int| 0 <= p < q < fin.len() implies
                (#[trigger] fin[p]).0@ != (#[trigger] fin[q]).0@ by {
                if q == fin.len() - 1 {
                    assert(fin[p] == mid[p]);
                    assert(!(mid[p].0@ == kv)) by {
                        if mid[p].0@ == kv {
                            assert(has_key(mid, kv));
                        }
                    }
                } else {
                    assert(fin[p] == mid[p] && fin[q] == mid[q]);
                }
            }
            // the maps agree key for key
            lemma_kv_map(mid);
            lemma_kv_map(s0);
            assert forall|k2: Seq<u8>| #[trigger] kv_map(fin).contains_key(k2)
                == kv_map(s0).insert(kv, vv).contains_key(k2) by {
                if k2 != kv {
                    if found {
                        lemma_remove_entry(s0, fidx);
                        assert(s0[fidx].0@ == kv);
                        assert(has_key(mid, k2) <==> has_key(s0, k2));
                    }
                }
            }
            assert forall|k2: Seq<u8>| kv_map(fin).contains_key(k2) && k2 != kv implies
                #[trigger] kv_map(fin)[k2] == kv_map(s0)[k2] by {
                assert(has_key(mid, k2));
                let idx = choose|idx: int| 0 <= idx < mid.len() && (#[trigger] mid[idx]).0@ == k2;
                assert(kv_map(mid)[k2] == mid[idx].1@);
                assert(kv_map(fin)[k2] == kv_map(mid)[k2]);
                if found {
                    lemma_remove_entry(s0, fidx);
                    let orig = choose|orig: int| 0 <= orig < s0.len() && mid[idx] == #[trigger] s0[orig];
                    assert(kv_map(s0)[k2] == s0[orig].1@);
                } else {
                    assert(kv_map(s0)[k2] == s0[idx].1@);
                }
            }
            assert(kv_map(fin) =~= kv_map(s0).insert(kv, vv));
        }
    }
}

} // verus!
