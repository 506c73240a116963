use std::collections::HashMap;
use vstd::prelude::*;

use crate::piece::{bucket_of, PieceRef};

verus! {

broadcast use vstd::std_specs::hash::group_hash_axioms;

/// An entry of a `PieceTable`: something filed under a piece reference.
pub trait Keyed: Sized {
    /// The mathematical value of an entry.
    type Value;

    /// The digest bytes of the reference the entry is filed under.
    spec fn key(&self) -> Seq<u8>;

    /// The mathematical value of the entry.
    spec fn entry_view(&self) -> Self::Value;

    /// The reference the entry is filed under.
    fn key_ref(&self) -> (r: &PieceRef)
        ensures
            r@ == self.key();
}

/// No two entries of `s` are filed under the same reference.
pub open spec fn keys_distinct<E: Keyed>(s: Seq<E>) -> bool {
    forall|i: int, j: int| 0 <= i < s.len() && 0 <= j < s.len() && i != j ==> #[trigger] s[i].key() != #[trigger] s[j].key()
}

/// Whether some entry of `s` is filed under `k`.
pub open spec fn has_key<E: Keyed>(s: Seq<E>, k: Seq<u8>) -> bool {
    exists|i: int| 0 <= i < s.len() && #[trigger] s[i].key() == k
}

/// A position of `s` at which an entry filed under `k` stands, where there is one.
pub open spec fn key_index<E: Keyed>(s: Seq<E>, k: Seq<u8>) -> int {
    choose|i: int| 0 <= i < s.len() && #[trigger] s[i].key() == k
}

/// The map from reference to value that the entries `s` make up.
pub open spec fn keyed_map<E: Keyed>(s: Seq<E>) -> Map<Seq<u8>, E::Value> {
    Map::new(|k: Seq<u8>| has_key(s, k), |k: Seq<u8>| s[key_index(s, k)].entry_view())
}

/// The entry at position `i` of entries with distinct keys gives the value under its key.
pub proof fn lemma_keyed_map_at<E: Keyed>(s: Seq<E>, i: int)
    requires
        keys_distinct(s),
        0 <= i < s.len(),
    ensures
        keyed_map(s).dom().contains(s[i].key()),
        keyed_map(s)[s[i].key()] == s[i].entry_view(),
{
    let k = s[i].key();
    assert(has_key(s, k));
    let j = choose|j: int| 0 <= j < s.len() && #[trigger] s[j].key() == k;
    assert(j == i);
}

/// Appending an entry under a new key adds that key and its value.
pub proof fn lemma_keyed_map_push<E: Keyed>(s: Seq<E>, e: E)
    requires
        keys_distinct(s),
        !has_key(s, e.key()),
    ensures
        keys_distinct(s.push(e)),
        keyed_map(s.push(e)) == keyed_map(s).insert(e.key(), e.entry_view()),
{
    let t = s.push(e);
    assert forall|i: int, j: int| 0 <= i < t.len() && 0 <= j < t.len() && i != j implies #[trigger] t[i].key()
        != #[trigger] t[j].key() by {
        if i < s.len() && j < s.len() {
            assert(t[i] == s[i] && t[j] == s[j]);
        } else if i < s.len() {
            assert(t[i] == s[i]);
        } else {
            assert(t[j] == s[j]);
        }
    }
    let m = keyed_map(s).insert(e.key(), e.entry_view());
    assert forall|k: Seq<u8>| #[trigger] keyed_map(t).dom().contains(k) <==> m.dom().contains(k) by {
        if has_key(t, k) {
            let i = choose|i: int| 0 <= i < t.len() && #[trigger] t[i].key() == k;
            if i < s.len() {
                assert(s[i] == t[i]);
                assert(has_key(s, k));
            }
        }
        if has_key(s, k) {
            let i = choose|i: int| 0 <= i < s.len() && #[trigger] s[i].key() == k;
            assert(t[i] == s[i]);
            assert(has_key(t, k));
        }
        if k == e.key() {
            assert(t[s.len() as int] == e);
            assert(has_key(t, k));
        }
    }
    assert forall|k: Seq<u8>| #[trigger] keyed_map(t).dom().contains(k) implies keyed_map(t)[k] == m[k] by {
        let i = choose|i: int| 0 <= i < t.len() && #[trigger] t[i].key() == k;
        lemma_keyed_map_at(t, i);
        if i < s.len() {
            assert(s[i] == t[i]);
            lemma_keyed_map_at(s, i);
        } else {
            assert(t[i] == e);
        }
    }
    assert(keyed_map(t) =~= m);
}

/// Replacing an entry by one under the same key changes the value under that key.
pub proof fn lemma_keyed_map_update<E: Keyed>(s: Seq<E>, i: int, e: E)
    requires
        keys_distinct(s),
        0 <= i < s.len(),
        s[i].key() == e.key(),
    ensures
        keys_distinct(s.update(i, e)),
        keyed_map(s.update(i, e)) == keyed_map(s).insert(e.key(), e.entry_view()),
{
    let t = s.update(i, e);
    assert forall|a: int, b: int| 0 <= a < t.len() && 0 <= b < t.len() && a != b implies #[trigger] t[a].key()
        != #[trigger] t[b].key() by {
        assert(t[a].key() == s[a].key());
        assert(t[b].key() == s[b].key());
    }
    let m = keyed_map(s).insert(e.key(), e.entry_view());
    assert forall|k: Seq<u8>| #[trigger] keyed_map(t).dom().contains(k) <==> m.dom().contains(k) by {
        if has_key(t, k) {
            let a = choose|a: int| 0 <= a < t.len() && #[trigger] t[a].key() == k;
            assert(s[a].key() == k);
            assert(has_key(s, k));
        }
        if has_key(s, k) {
            let a = choose|a: int| 0 <= a < s.len() && #[trigger] s[a].key() == k;
            assert(t[a].key() == k);
            assert(has_key(t, k));
        }
        if k == e.key() {
            lemma_keyed_map_at(s, i);
        }
    }
    assert forall|k: Seq<u8>| #[trigger] keyed_map(t).dom().contains(k) implies keyed_map(t)[k] == m[k] by {
        let a = choose|a: int| 0 <= a < t.len() && #[trigger] t[a].key() == k;
        lemma_keyed_map_at(t, a);
        if a != i {
            assert(s[a] == t[a]);
            lemma_keyed_map_at(s, a);
        }
    }
    assert(keyed_map(t) =~= m);
}

/// Removing an entry removes its key.
pub proof fn lemma_keyed_map_remove<E: Keyed>(s: Seq<E>, i: int)
    requires
        keys_distinct(s),
        0 <= i < s.len(),
    ensures
        keys_distinct(s.remove(i)),
        keyed_map(s.remove(i)) == keyed_map(s).remove(s[i].key()),
        forall|j: int| 0 <= j < s.remove(i).len() ==> #[trigger] s.remove(i)[j] == s[if j < i { j } else { j + 1 }],
{
    let t = s.remove(i);
    assert forall|a: int| 0 <= a < t.len() implies #[trigger] t[a] == s[if a < i { a } else { a + 1 }] by {}
    assert forall|a: int, b: int| 0 <= a < t.len() && 0 <= b < t.len() && a != b implies #[trigger] t[a].key()
        != #[trigger] t[b].key() by {
        assert(t[a] == s[if a < i { a } else { a + 1 }]);
        assert(t[b] == s[if b < i { b } else { b + 1 }]);
    }
    let m = keyed_map(s).remove(s[i].key());
    assert forall|k: Seq<u8>| #[trigger] keyed_map(t).dom().contains(k) <==> m.dom().contains(k) by {
        if has_key(t, k) {
            let a = choose|a: int| 0 <= a < t.len() && #[trigger] t[a].key() == k;
            let a2 = if a < i { a } else { a + 1 };
            assert(t[a] == s[a2]);
            assert(has_key(s, k));
        }
        if has_key(s, k) && k != s[i].key() {
            let a = choose|a: int| 0 <= a < s.len() && #[trigger] s[a].key() == k;
            let a2 = if a < i { a } else { a - 1 };
            assert(t[a2] == s[a]);
            assert(has_key(t, k));
        }
    }
    assert forall|k: Seq<u8>| #[trigger] keyed_map(t).dom().contains(k) implies keyed_map(t)[k] == m[k] by {
        let a = choose|a: int| 0 <= a < t.len() && #[trigger] t[a].key() == k;
        let a2 = if a < i { a } else { a + 1 };
        assert(t[a] == s[a2]);
        lemma_keyed_map_at(t, a);
        lemma_keyed_map_at(s, a2);
    }
    assert(keyed_map(t) =~= m);
}

/// Every value of `keyed_map(s)` is the value of an entry of `s` filed under its key.
pub proof fn lemma_keyed_map_value<E: Keyed>(s: Seq<E>, k: Seq<u8>)
    requires
        keyed_map(s).dom().contains(k),
    ensures
        exists|i: int| 0 <= i < s.len() && #[trigger] s[i].key() == k && keyed_map(s)[k] == s[i].entry_view(),
{
    assert(has_key(s, k));
    let i = key_index(s, k);
    assert(0 <= i < s.len() && s[i].key() == k);
}

/// The position of the entry of `s` filed under `key`, if there is one.
pub fn position<E: Keyed>(s: &Vec<E>, key: &PieceRef) -> (pos: Option<usize>)
    ensures
        match pos {
            Some(i) => i < s@.len() && s@[i as int].key() == key@,
            None => !has_key(s@, key@),
        },
{
    let mut i: usize = 0;
    while i < s.len()
        invariant
            0 <= i <= s@.len(),
            forall|j: int| 0 <= j < i ==> #[trigger] s@[j].key() != key@,
        decreases s@.len() - i,
    {
        if s[i].key_ref().same_as(key) {
            return Some(i);
        }
        i = i + 1;
    }
    None
}

/// A map from piece references to entries, kept in buckets by the first eight bytes
/// of the reference.
#[derive(Debug)]
pub struct PieceTable<E: Keyed> {
    buckets: HashMap<u64, Vec<E>>,
}

/// The entries `s` of bucket `b`: filed under distinct references, each of which
/// belongs in `b`.
pub open spec fn bucket_ok<E: Keyed>(b: u64, s: Seq<E>) -> bool {
    &&& keys_distinct(s)
    &&& forall|i: int| 0 <= i < s.len() ==> bucket_of(#[trigger] s[i].key()) == b
}

/// The map of a table whose buckets are `buckets`.
pub open spec fn buckets_map<E: Keyed>(buckets: Map<u64, Vec<E>>) -> Map<Seq<u8>, E::Value> {
    Map::new(
        |k: Seq<u8>| buckets.contains_key(bucket_of(k)) && keyed_map(buckets[bucket_of(k)]@).dom().contains(k),
        |k: Seq<u8>| keyed_map(buckets[bucket_of(k)]@)[k],
    )
}

impl<E: Keyed> View for PieceTable<E> {
    type V = Map<Seq<u8>, E::Value>;

    closed spec fn view(&self) -> Map<Seq<u8>, E::Value> {
        buckets_map(self.buckets@)
    }
}

/// Replacing bucket `b` of `buckets` by `v` changes the map only under the references
/// that belong in `b`.
proof fn lemma_replace_bucket<E: Keyed>(buckets: Map<u64, Vec<E>>, b: u64, v: Vec<E>)
    requires
        forall|k: Seq<u8>| #[trigger] keyed_map(v@).dom().contains(k) ==> bucket_of(k) == b,
        buckets.contains_key(b) ==> forall|k: Seq<u8>| #[trigger] keyed_map(buckets[b]@).dom().contains(k) ==> bucket_of(k) == b,
    ensures
        forall|k: Seq<u8>| bucket_of(k) != b ==> (#[trigger] buckets_map(buckets.insert(b, v)).dom().contains(k)
            <==> buckets_map(buckets).dom().contains(k)),
        forall|k: Seq<u8>| bucket_of(k) != b && #[trigger] buckets_map(buckets).dom().contains(k)
            ==> buckets_map(buckets.insert(b, v))[k] == buckets_map(buckets)[k],
        forall|k: Seq<u8>| bucket_of(k) == b ==> (#[trigger] buckets_map(buckets.insert(b, v)).dom().contains(k)
            <==> keyed_map(v@).dom().contains(k)),
        forall|k: Seq<u8>| bucket_of(k) == b && #[trigger] buckets_map(buckets.insert(b, v)).dom().contains(k)
            ==> buckets_map(buckets.insert(b, v))[k] == keyed_map(v@)[k],
{
}

/// The keys of a bucket that is well formed belong in it.
proof fn lemma_bucket_keys<E: Keyed>(b: u64, s: Seq<E>)
    requires
        bucket_ok(b, s),
    ensures
        forall|k: Seq<u8>| #[trigger] keyed_map(s).dom().contains(k) ==> bucket_of(k) == b,
{
    assert forall|k: Seq<u8>| #[trigger] keyed_map(s).dom().contains(k) implies bucket_of(k) == b by {
        let i = choose|i: int| 0 <= i < s.len() && #[trigger] s[i].key() == k;
    }
}

impl<E: Keyed> PieceTable<E> {
    #[verifier::type_invariant]
    spec fn buckets_well_formed(&self) -> bool {
        forall|b: u64| #[trigger] self.buckets@.contains_key(b) ==> bucket_ok(b, self.buckets@[b]@)
    }

    /// An empty table.
    pub fn new() -> (t: Self)
        ensures
            t@ == Map::<Seq<u8>, E::Value>::empty(),
    {
        let t = PieceTable { buckets: HashMap::new() };
        assert(t@ =~= Map::<Seq<u8>, E::Value>::empty());
        t
    }

    /// The entry filed under `key`, if there is one.
    pub fn get(&self, key: &PieceRef) -> (e: Option<&E>)
        ensures
            e is Some <==> self@.dom().contains(key@),
            e matches Some(x) ==> x.key() == key@ && x.entry_view() == self@[key@],
    {
        proof { use_type_invariant(self); }
        let b = key.bucket();
        match self.buckets.get(&b) {
            None => None,
            Some(v) => match position(v, key) {
                Some(i) => {
                    proof { lemma_keyed_map_at(v@, i as int); }
                    Some(&v[i])
                },
                None => None,
            },
        }
    }

    /// Files `e` under its reference, replacing the entry filed there before.
    pub fn insert(&mut self, e: E)
        ensures
            final(self)@ == old(self)@.insert(e.key(), e.entry_view()),
    {
        proof { use_type_invariant(&*self); }
        let mut buckets: HashMap<u64, Vec<E>> = HashMap::new();
        std::mem::swap(&mut buckets, &mut self.buckets);
        let ghost old_buckets = buckets@;
        let b = e.key_ref().bucket();
        let mut v = match buckets.remove(&b) {
            Some(v) => v,
            None => Vec::new(),
        };
        let ghost old_v = v@;
        proof {
            if old_buckets.contains_key(b) {
                lemma_bucket_keys(b, old_v);
            }
        }
        match position(&v, e.key_ref()) {
            Some(i) => {
                proof { lemma_keyed_map_update(old_v, i as int, e); }
                v.set(i, e);
            },
            None => {
                proof { lemma_keyed_map_push(old_v, e); }
                v.push(e);
            },
        }
        proof {
            assert(bucket_ok(b, v@)) by {
                assert forall|j: int| 0 <= j < v@.len() implies bucket_of(#[trigger] v@[j].key()) == b by {
                    if j < old_v.len() && v@[j] == old_v[j] {
                    }
                }
            }
            lemma_bucket_keys(b, v@);
            assert(buckets@ == old_buckets.remove(b));
            assert(old_buckets.remove(b).insert(b, v) =~= old_buckets.insert(b, v));
        }
        buckets.insert(b, v);
        proof {
            lemma_replace_bucket(old_buckets, b, v);
            let m = old(self)@.insert(e.key(), e.entry_view());
            assert forall|k: Seq<u8>| #[trigger] buckets_map(buckets@).dom().contains(k) <==> m.dom().contains(k) by {}
            assert forall|k: Seq<u8>| #[trigger] buckets_map(buckets@).dom().contains(k) implies buckets_map(buckets@)[k] == m[k] by {}
            assert(buckets_map(buckets@) =~= m);
            assert forall|c: u64| #[trigger] buckets@.contains_key(c) implies bucket_ok(c, buckets@[c]@) by {
                if c != b {
                    assert(old_buckets.contains_key(c));
                }
            }
        }
        self.buckets = buckets;
    }

    /// Takes the entry filed under `key` out of the table, if there is one.
    pub fn take(&mut self, key: &PieceRef) -> (e: Option<E>)
        ensures
            match e {
                Some(x) => old(self)@.dom().contains(key@) && x.key() == key@ && x.entry_view() == old(self)@[key@]
                    && final(self)@ == old(self)@.remove(key@),
                None => !old(self)@.dom().contains(key@) && final(self)@ == old(self)@,
            },
    {
        proof { use_type_invariant(&*self); }
        let b = key.bucket();
        let mut buckets: HashMap<u64, Vec<E>> = HashMap::new();
        std::mem::swap(&mut buckets, &mut self.buckets);
        let ghost old_buckets = buckets@;
        let mut v = match buckets.remove(&b) {
            Some(v) => v,
            None => {
                proof {
                    assert(old_buckets.remove(b) =~= old_buckets);
                }
                self.buckets = buckets;
                return None;
            },
        };
        let ghost old_v = v@;
        proof { lemma_bucket_keys(b, old_v); }
        let r = match position(&v, key) {
            Some(i) => {
                proof { lemma_keyed_map_remove(old_v, i as int); lemma_keyed_map_at(old_v, i as int); }
                let x = v.remove(i);
                proof {
                    assert forall|j: int| 0 <= j < v@.len() implies bucket_of(#[trigger] v@[j].key()) == b by {
                        assert(v@[j] == old_v.remove(i as int)[j]);
                    }
                }
                Some(x)
            },
            None => {
                assert(!keyed_map(old_v).dom().contains(key@));
                None
            },
        };
        proof {
            assert(bucket_ok(b, v@));
            lemma_bucket_keys(b, v@);
            assert(old_buckets.remove(b).insert(b, v) =~= old_buckets.insert(b, v));
        }
        buckets.insert(b, v);
        proof {
            lemma_replace_bucket(old_buckets, b, v);
            let m = if r is Some { old(self)@.remove(key@) } else { old(self)@ };
            assert forall|k: Seq<u8>| #[trigger] buckets_map(buckets@).dom().contains(k) <==> m.dom().contains(k) by {}
            assert forall|k: Seq<u8>| #[trigger] buckets_map(buckets@).dom().contains(k) implies buckets_map(buckets@)[k] == m[k] by {}
            assert(buckets_map(buckets@) =~= m);
            assert forall|c: u64| #[trigger] buckets@.contains_key(c) implies bucket_ok(c, buckets@[c]@) by {
                if c != b {
                    assert(old_buckets.contains_key(c));
                }
            }
        }
        self.buckets = buckets;
        r
    }
}

/// Every value of a table is the value of an entry filed under its key.
pub proof fn lemma_table_value<E: Keyed>(t: PieceTable<E>, k: Seq<u8>)
    requires
        t@.dom().contains(k),
    ensures
        exists|e: E| e.key() == k && t@[k] == #[trigger] e.entry_view(),
{
    let s = t.buckets@[bucket_of(k)]@;
    lemma_keyed_map_value(s, k);
    let i = choose|i: int| 0 <= i < s.len() && #[trigger] s[i].key() == k && keyed_map(s)[k] == s[i].entry_view();
    assert(s[i].key() == k && t@[k] == s[i].entry_view());
}

impl<E: Keyed + Clone> PieceTable<E> {
    /// A table with the same entries.
    pub fn duplicate(&self) -> (t: Self)
        ensures
            t@ == self@,
    {
        proof { use_type_invariant(self); }
        PieceTable { buckets: self.buckets.clone() }
    }
}

} // verus!
