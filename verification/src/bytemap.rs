//! A small verified association map from byte strings to byte strings,
//! kept as a vector of pairs with distinct keys.  It backs the object
//! store's three object directories and the flattened blob mappings, so
//! both the entry order and the map abstraction are pinned down.

use vstd::prelude::*;

verus! {

/// Whether a key occurs in an entry sequence.
pub open spec fn has_key(s: Seq<(Seq<u8>, Seq<u8>)>, k: Seq<u8>) -> bool {
    exists|i: int| 0 <= i < s.len() && s[i].0 == k
}

/// Entry keys are pairwise distinct.
pub open spec fn keys_distinct(s: Seq<(Seq<u8>, Seq<u8>)>) -> bool {
    forall|i: int, j: int| 0 <= i < j < s.len() ==> s[i].0 != s[j].0
}

/// The map an entry sequence denotes; on duplicate keys the earliest entry
/// wins, matching a front-to-back search.
pub open spec fn map_of(s: Seq<(Seq<u8>, Seq<u8>)>) -> Map<Seq<u8>, Seq<u8>>
    decreases s.len(),
{
    if s.len() == 0 {
        Map::empty()
    } else {
        map_of(s.skip(1)).insert(s[0].0, s[0].1)
    }
}

/// The entry sequence after setting `k` to `v`: the first entry for `k` is
/// replaced in place, or a new entry is appended.
pub open spec fn set_spec(s: Seq<(Seq<u8>, Seq<u8>)>, k: Seq<u8>, v: Seq<u8>) -> Seq<
    (Seq<u8>, Seq<u8>),
>
    decreases s.len(),
{
    if s.len() == 0 {
        seq![(k, v)]
    } else if s[0].0 == k {
        seq![(k, v)] + s.skip(1)
    } else {
        seq![s[0]] + set_spec(s.skip(1), k, v)
    }
}

/// The entry sequence after removing the first entry for `k`, if any.
pub open spec fn remove_spec(s: Seq<(Seq<u8>, Seq<u8>)>, k: Seq<u8>) -> Seq<(Seq<u8>, Seq<u8>)>
    decreases s.len(),
{
    if s.len() == 0 {
        s
    } else if s[0].0 == k {
        s.skip(1)
    } else {
        seq![s[0]] + remove_spec(s.skip(1), k)
    }
}

pub proof fn lemma_map_of_contains(s: Seq<(Seq<u8>, Seq<u8>)>, k: Seq<u8>)
    ensures
        map_of(s).contains_key(k) <==> has_key(s, k),
    decreases s.len(),
{
    if s.len() == 0 {
    } else {
        lemma_map_of_contains(s.skip(1), k);
        if s[0].0 == k {
        } else {
            if has_key(s.skip(1), k) {
                let i = choose|i: int| 0 <= i < s.skip(1).len() && s.skip(1)[i].0 == k;
                assert(s[i + 1].0 == k);
            }
            if has_key(s, k) {
                let i = choose|i: int| 0 <= i < s.len() && s[i].0 == k;
                assert(i > 0);
                assert(s.skip(1)[i - 1].0 == k);
            }
        }
    }
}

pub proof fn lemma_map_of_first_match(s: Seq<(Seq<u8>, Seq<u8>)>, i: int)
    requires
        0 <= i < s.len(),
        forall|j: int| 0 <= j < i ==> s[j].0 != s[i].0,
    ensures
        map_of(s).contains_key(s[i].0),
        map_of(s)[s[i].0] == s[i].1,
    decreases s.len(),
{
    if i == 0 {
    } else {
        assert(forall|j: int| 0 <= j < i - 1 ==> s.skip(1)[j].0 == s[j + 1].0);
        lemma_map_of_first_match(s.skip(1), i - 1);
    }
}

proof fn lemma_skip_distinct(s: Seq<(Seq<u8>, Seq<u8>)>)
    requires
        keys_distinct(s),
        s.len() > 0,
    ensures
        keys_distinct(s.skip(1)),
        !has_key(s.skip(1), s[0].0),
{
    assert(forall|i: int| 0 <= i < s.skip(1).len() ==> s.skip(1)[i] == s[i + 1]);
    if has_key(s.skip(1), s[0].0) {
        let i = choose|i: int| 0 <= i < s.skip(1).len() && s.skip(1)[i].0 == s[0].0;
        assert(s[i + 1].0 == s[0].0);
    }
}

/// Replacing the first entry for a key in place updates the map at that key.
pub proof fn lemma_map_of_update_first(s: Seq<(Seq<u8>, Seq<u8>)>, i: int, k: Seq<u8>, v: Seq<u8>)
    requires
        keys_distinct(s),
        0 <= i < s.len(),
        s[i].0 == k,
        forall|j: int| 0 <= j < i ==> s[j].0 != k,
    ensures
        keys_distinct(s.update(i, (k, v))),
        map_of(s.update(i, (k, v))) == map_of(s).insert(k, v),
    decreases s.len(),
{
    let t = s.update(i, (k, v));
    assert(forall|j: int| 0 <= j < s.len() && j != i ==> t[j] == s[j]);
    assert(forall|j: int| 0 <= j < s.len() ==> t[j].0 == s[j].0);
    lemma_skip_distinct(s);
    if i == 0 {
        assert(t.skip(1) =~= s.skip(1));
        assert(map_of(t) == map_of(s.skip(1)).insert(k, v));
        assert(map_of(s) == map_of(s.skip(1)).insert(k, s[0].1));
        assert(map_of(t) =~= map_of(s).insert(k, v));
    } else {
        assert(forall|j: int| 0 <= j < s.skip(1).len() ==> s.skip(1)[j] == s[j + 1]);
        assert(s.skip(1)[i - 1].0 == k);
        lemma_map_of_update_first(s.skip(1), i - 1, k, v);
        assert(t.skip(1) =~= s.skip(1).update(i - 1, (k, v)));
        assert(map_of(t) == map_of(s.skip(1)).insert(k, v).insert(s[0].0, s[0].1));
        assert(map_of(s) == map_of(s.skip(1)).insert(s[0].0, s[0].1));
        assert(s[0].0 != k);
        assert(map_of(t) =~= map_of(s).insert(k, v));
    }
}

/// Appending an entry for an absent key extends the map with it.
pub proof fn lemma_map_of_push(s: Seq<(Seq<u8>, Seq<u8>)>, k: Seq<u8>, v: Seq<u8>)
    requires
        keys_distinct(s),
        !has_key(s, k),
    ensures
        keys_distinct(s.push((k, v))),
        map_of(s.push((k, v))) == map_of(s).insert(k, v),
    decreases s.len(),
{
    let t = s.push((k, v));
    assert(forall|j: int| 0 <= j < s.len() ==> t[j] == s[j]);
    assert(t[s.len() as int] == (k, v));
    assert forall|a: int, b: int| 0 <= a < b < t.len() implies t[a].0 != t[b].0 by {
        if b == s.len() {
            if t[a].0 == k {
                assert(s[a].0 == k);
            }
        }
    }
    if s.len() == 0 {
        assert(t.skip(1) =~= Seq::<(Seq<u8>, Seq<u8>)>::empty());
        assert(map_of(t) == map_of(t.skip(1)).insert(k, v));
        assert(map_of(t) =~= map_of(s).insert(k, v));
    } else {
        lemma_skip_distinct(s);
        assert(!has_key(s.skip(1), k)) by {
            if has_key(s.skip(1), k) {
                let i = choose|i: int| 0 <= i < s.skip(1).len() && s.skip(1)[i].0 == k;
                assert(s[i + 1].0 == k);
            }
        }
        lemma_map_of_push(s.skip(1), k, v);
        assert(t.skip(1) =~= s.skip(1).push((k, v)));
        assert(map_of(t) == map_of(s.skip(1)).insert(k, v).insert(s[0].0, s[0].1));
        assert(map_of(s) == map_of(s.skip(1)).insert(s[0].0, s[0].1));
        assert(s[0].0 != k);
        assert(map_of(t) =~= map_of(s).insert(k, v));
    }
}

/// Removing the first entry for a key removes it from the map.
pub proof fn lemma_map_of_remove_first(s: Seq<(Seq<u8>, Seq<u8>)>, i: int, k: Seq<u8>)
    requires
        keys_distinct(s),
        0 <= i < s.len(),
        s[i].0 == k,
        forall|j: int| 0 <= j < i ==> s[j].0 != k,
    ensures
        keys_distinct(s.remove(i)),
        map_of(s.remove(i)) == map_of(s).remove(k),
    decreases s.len(),
{
    let t = s.remove(i);
    assert(forall|j: int| 0 <= j < i ==> t[j] == s[j]);
    assert(forall|j: int| i <= j < t.len() ==> t[j] == s[j + 1]);
    assert forall|a: int, b: int| 0 <= a < b < t.len() implies t[a].0 != t[b].0 by {
        if a < i && b < i {
        } else if a < i {
            assert(t[b] == s[b + 1]);
        } else {
            assert(t[a] == s[a + 1] && t[b] == s[b + 1]);
        }
    }
    lemma_skip_distinct(s);
    if i == 0 {
        assert(t =~= s.skip(1));
        lemma_map_of_contains(s.skip(1), k);
        assert(map_of(s) == map_of(s.skip(1)).insert(k, s[0].1));
        assert(map_of(t) =~= map_of(s).remove(k));
    } else {
        assert(forall|j: int| 0 <= j < s.skip(1).len() ==> s.skip(1)[j] == s[j + 1]);
        assert(s.skip(1)[i - 1].0 == k);
        lemma_map_of_remove_first(s.skip(1), i - 1, k);
        assert(t.skip(1) =~= s.skip(1).remove(i - 1));
        assert(map_of(t) == map_of(s.skip(1)).remove(k).insert(s[0].0, s[0].1));
        assert(map_of(s) == map_of(s.skip(1)).insert(s[0].0, s[0].1));
        assert(s[0].0 != k);
        assert(map_of(t) =~= map_of(s).remove(k));
    }
}

/// Removing an absent key leaves the map unchanged.
pub proof fn lemma_map_of_remove_absent(s: Seq<(Seq<u8>, Seq<u8>)>, k: Seq<u8>)
    requires
        !has_key(s, k),
    ensures
        map_of(s).remove(k) == map_of(s),
{
    lemma_map_of_contains(s, k);
    assert(map_of(s).remove(k) =~= map_of(s));
}

/// An association map from byte strings to byte strings.
pub struct ByteMap {
    entries: Vec<(Vec<u8>, Vec<u8>)>,
}

impl ByteMap {
    /// The entries, in order, as pairs of byte sequences.
    pub closed spec fn view(&self) -> Seq<(Seq<u8>, Seq<u8>)> {
        self.entries@.map_values(|e: (Vec<u8>, Vec<u8>)| (e.0@, e.1@))
    }

    /// The map the entries denote.
    pub open spec fn as_map(&self) -> Map<Seq<u8>, Seq<u8>> {
        map_of(self@)
    }

    /// Keys are distinct; every operation keeps this.
    pub open spec fn wf(&self) -> bool {
        keys_distinct(self@)
    }

    pub fn new() -> (r: ByteMap)
        ensures
            r@ == Seq::<(Seq<u8>, Seq<u8>)>::empty(),
            r.wf(),
    {
        let r = ByteMap { entries: Vec::new() };
        proof {
            assert(r@ =~= Seq::<(Seq<u8>, Seq<u8>)>::empty());
        }
        r
    }

    pub fn len(&self) -> (n: usize)
        ensures
            n == self@.len(),
    {
        self.entries.len()
    }

    /// The key of the entry at `i`.
    pub fn key_at(&self, i: usize) -> (k: &Vec<u8>)
        requires
            i < self@.len(),
        ensures
            k@ == self@[i as int].0,
    {
        &self.entries[i].0
    }

    /// The value of the entry at `i`.
    pub fn value_at(&self, i: usize) -> (v: &Vec<u8>)
        requires
            i < self@.len(),
        ensures
            v@ == self@[i as int].1,
    {
        &self.entries[i].1
    }

    /// Look the key up, front to back.
    pub fn get(&self, k: &Vec<u8>) -> (r: Option<&Vec<u8>>)
        requires
            self.wf(),
        ensures
            r is Some <==> self.as_map().contains_key(k@),
            r matches Some(v) ==> self.as_map().contains_key(k@) && self.as_map()[k@] == v@,
    {
        proof {
            lemma_map_of_contains(self@, k@);
        }
        let mut i: usize = 0;
        while i < self.entries.len()
            invariant
                i <= self@.len(),
                self.wf(),
                forall|j: int| 0 <= j < i ==> self@[j].0 != k@,
            decreases self@.len() - i,
        {
            if crate::bytes::bytes_eq(&self.entries[i].0, k) {
                proof {
                    lemma_map_of_first_match(self@, i as int);
                    lemma_map_of_contains(self@, k@);
                }
                return Some(&self.entries[i].1);
            }
            i = i + 1;
        }
        proof {
            if has_key(self@, k@) {
                let i = choose|i: int| 0 <= i < self@.len() && self@[i].0 == k@;
                assert(self@[i].0 != k@);
            }
        }
        None
    }

    /// Whether the key is present.
    pub fn contains(&self, k: &Vec<u8>) -> (r: bool)
        requires
            self.wf(),
        ensures
            r == self.as_map().contains_key(k@),
    {
        self.get(k).is_some()
    }

    /// Set `k` to `v`: replace the entry for `k` in place, or append one.
    pub fn set(&mut self, k: Vec<u8>, v: Vec<u8>)
        requires
            old(self).wf(),
        ensures
            final(self)@ == set_spec(old(self)@, k@, v@),
            final(self).as_map() == old(self).as_map().insert(k@, v@),
            final(self).wf(),
    {
        let ghost s0 = self@;
        let mut i: usize = 0;
        while i < self.entries.len()
            invariant
                i <= self@.len(),
                self@ == s0,
                s0 == old(self)@,
                keys_distinct(s0),
                forall|j: int| 0 <= j < i ==> self@[j].0 != k@,
            decreases self@.len() - i,
        {
            if crate::bytes::bytes_eq(&self.entries[i].0, &k) {
                proof {
                    lemma_set_spec_at(s0, k@, v@, i as int);
                    lemma_map_of_update_first(s0, i as int, k@, v@);
                }
                self.entries.set(i, (k, v));
                proof {
                    assert(self@ =~= s0.update(i as int, (k@, v@)));
                }
                return ;
            }
            i = i + 1;
        }
        proof {
            if has_key(s0, k@) {
                let w = choose|w: int| 0 <= w < s0.len() && s0[w].0 == k@;
                assert(s0[w].0 != k@);
            }
            lemma_set_spec_absent(s0, k@, v@);
            lemma_map_of_push(s0, k@, v@);
        }
        self.entries.push((k, v));
        proof {
            assert(self@ =~= s0.push((k@, v@)));
        }
    }

    /// Remove every entry.
    pub fn clear(&mut self)
        ensures
            final(self)@ == Seq::<(Seq<u8>, Seq<u8>)>::empty(),
            final(self).wf(),
    {
        self.entries.clear();
        proof {
            assert(self@ =~= Seq::<(Seq<u8>, Seq<u8>)>::empty());
        }
    }

    /// Append an entry at the end; the map abstraction only stays
    /// well-formed when the key is fresh.
    pub fn push_entry(&mut self, k: Vec<u8>, v: Vec<u8>)
        ensures
            final(self)@ == old(self)@.push((k@, v@)),
            old(self).wf() && !has_key(old(self)@, k@) ==> final(self).wf()
                && final(self).as_map() == old(self).as_map().insert(k@, v@),
    {
        let ghost s0 = self@;
        proof {
            if keys_distinct(s0) && !has_key(s0, k@) {
                lemma_map_of_push(s0, k@, v@);
            }
        }
        self.entries.push((k, v));
        proof {
            assert(self@ =~= s0.push((k@, v@)));
        }
    }

    /// Remove the entry for `k`, if present; later entries shift down.
    pub fn remove(&mut self, k: &Vec<u8>)
        requires
            old(self).wf(),
        ensures
            final(self)@ == remove_spec(old(self)@, k@),
            final(self).as_map() == old(self).as_map().remove(k@),
            final(self).wf(),
    {
        let ghost s0 = self@;
        let mut i: usize = 0;
        while i < self.entries.len()
            invariant
                i <= self@.len(),
                self@ == s0,
                s0 == old(self)@,
                keys_distinct(s0),
                forall|j: int| 0 <= j < i ==> self@[j].0 != k@,
            decreases self@.len() - i,
        {
            if crate::bytes::bytes_eq(&self.entries[i].0, k) {
                proof {
                    lemma_remove_spec_at(s0, k@, i as int);
                    lemma_map_of_remove_first(s0, i as int, k@);
                }
                self.entries.remove(i);
                proof {
                    assert(self@ =~= s0.remove(i as int));
                }
                return ;
            }
            i = i + 1;
        }
        proof {
            if has_key(s0, k@) {
                let w = choose|w: int| 0 <= w < s0.len() && s0[w].0 == k@;
                assert(s0[w].0 != k@);
            }
            lemma_remove_spec_absent(s0, k@);
            lemma_map_of_remove_absent(s0, k@);
        }
    }
}

pub proof fn lemma_set_spec_at(s: Seq<(Seq<u8>, Seq<u8>)>, k: Seq<u8>, v: Seq<u8>, i: int)
    requires
        0 <= i < s.len(),
        s[i].0 == k,
        forall|j: int| 0 <= j < i ==> s[j].0 != k,
    ensures
        set_spec(s, k, v) == s.update(i, (k, v)),
    decreases s.len(),
{
    if i == 0 {
        assert(set_spec(s, k, v) == seq![(k, v)] + s.skip(1));
        assert(seq![(k, v)] + s.skip(1) =~= s.update(0, (k, v)));
    } else {
        assert(s[0].0 != k);
        assert(forall|j: int| 0 <= j < i - 1 ==> s.skip(1)[j].0 == s[j + 1].0);
        assert(s.skip(1)[i - 1] == s[i]);
        lemma_set_spec_at(s.skip(1), k, v, i - 1);
        assert(set_spec(s, k, v) == seq![s[0]] + s.skip(1).update(i - 1, (k, v)));
        assert(seq![s[0]] + s.skip(1).update(i - 1, (k, v)) =~= s.update(i, (k, v)));
    }
}

pub proof fn lemma_set_spec_absent(s: Seq<(Seq<u8>, Seq<u8>)>, k: Seq<u8>, v: Seq<u8>)
    requires
        !has_key(s, k),
    ensures
        set_spec(s, k, v) == s.push((k, v)),
    decreases s.len(),
{
    if s.len() == 0 {
        assert(set_spec(s, k, v) =~= s.push((k, v)));
    } else {
        assert(s[0].0 != k);
        assert(!has_key(s.skip(1), k)) by {
            if has_key(s.skip(1), k) {
                let i = choose|i: int| 0 <= i < s.skip(1).len() && s.skip(1)[i].0 == k;
                assert(s[i + 1].0 == k);
            }
        }
        lemma_set_spec_absent(s.skip(1), k, v);
        assert(seq![s[0]] + s.skip(1).push((k, v)) =~= s.push((k, v)));
    }
}

pub proof fn lemma_remove_spec_at(s: Seq<(Seq<u8>, Seq<u8>)>, k: Seq<u8>, i: int)
    requires
        0 <= i < s.len(),
        s[i].0 == k,
        forall|j: int| 0 <= j < i ==> s[j].0 != k,
    ensures
        remove_spec(s, k) == s.remove(i),
    decreases s.len(),
{
    if i == 0 {
        assert(s.skip(1) =~= s.remove(0));
    } else {
        assert(s[0].0 != k);
        assert(forall|j: int| 0 <= j < i - 1 ==> s.skip(1)[j].0 == s[j + 1].0);
        assert(s.skip(1)[i - 1] == s[i]);
        lemma_remove_spec_at(s.skip(1), k, i - 1);
        assert(remove_spec(s, k) == seq![s[0]] + s.skip(1).remove(i - 1));
        assert(seq![s[0]] + s.skip(1).remove(i - 1) =~= s.remove(i));
    }
}

pub proof fn lemma_remove_spec_absent(s: Seq<(Seq<u8>, Seq<u8>)>, k: Seq<u8>)
    requires
        !has_key(s, k),
    ensures
        remove_spec(s, k) == s,
    decreases s.len(),
{
    if s.len() == 0 {
    } else {
        assert(s[0].0 != k);
        assert(!has_key(s.skip(1), k)) by {
            if has_key(s.skip(1), k) {
                let i = choose|i: int| 0 <= i < s.skip(1).len() && s.skip(1)[i].0 == k;
                assert(s[i + 1].0 == k);
            }
        }
        lemma_remove_spec_absent(s.skip(1), k);
        assert(seq![s[0]] + s.skip(1) =~= s);
    }
}

} // verus!
