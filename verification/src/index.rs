use vstd::prelude::*;

verus! {

/// One entry of the key index: the key, the byte location `(gen, pos,
/// len)` of its most recent `Set` record, and, as ghost information, the
/// value that record carries.
pub struct IndexEntry {
    pub key: String,
    pub gen: u64,
    pub pos: u64,
    pub len: u64,
    pub value: Ghost<Seq<char>>,
}

/// The keys of the entries are pairwise distinct.
pub open spec fn keys_distinct(s: Seq<IndexEntry>) -> bool {
    forall|i: int, j: int| 0 <= i < j < s.len() ==> s[i].key@ != s[j].key@
}

/// Some entry carries the key `k`.
pub open spec fn index_contains(s: Seq<IndexEntry>, k: Seq<char>) -> bool {
    exists|i: int| 0 <= i < s.len() && s[i].key@ == k
}

/// The entry that carries the key `k` (meaningful under `keys_distinct`).
pub open spec fn index_at(s: Seq<IndexEntry>, k: Seq<char>) -> IndexEntry {
    s[choose|i: int| 0 <= i < s.len() && s[i].key@ == k]
}

/// The key-to-value mapping the index describes.
pub open spec fn kv_map(s: Seq<IndexEntry>) -> Map<Seq<char>, Seq<char>> {
    Map::new(|k: Seq<char>| index_contains(s, k), |k: Seq<char>| index_at(s, k).value@)
}

/// The key-to-record-length mapping the index describes.
pub open spec fn len_map(s: Seq<IndexEntry>) -> Map<Seq<char>, u64> {
    Map::new(|k: Seq<char>| index_contains(s, k), |k: Seq<char>| index_at(s, k).len)
}

/// Under distinct keys, the entry holding a key is the one at any witness
/// position for it.
pub proof fn lemma_index_unique(s: Seq<IndexEntry>, i: int)
    requires
        keys_distinct(s),
        0 <= i < s.len(),
    ensures
        index_contains(s, s[i].key@),
        index_at(s, s[i].key@) == s[i],
{
    let k = s[i].key@;
    let j = choose|j: int| 0 <= j < s.len() && s[j].key@ == k;
    assert(s[j].key@ == k);
    if i != j {
        assert(s[i].key@ != s[j].key@);
    }
}

/// Replacing the entry at `i` by one with the same key updates the two
/// maps at that key and nowhere else.
pub proof fn lemma_maps_update(s: Seq<IndexEntry>, i: int, e: IndexEntry)
    requires
        keys_distinct(s),
        0 <= i < s.len(),
        e.key@ == s[i].key@,
    ensures
        keys_distinct(s.update(i, e)),
        kv_map(s.update(i, e)) == kv_map(s).insert(e.key@, e.value@),
        len_map(s.update(i, e)) == len_map(s).insert(e.key@, e.len),
{
    let t = s.update(i, e);
    assert forall|k: Seq<char>| index_contains(t, k) implies index_contains(s, k) by {
        let j = choose|j: int| 0 <= j < t.len() && t[j].key@ == k;
        assert(s[if j == i { i } else { j }].key@ == k);
    }
    assert forall|k: Seq<char>| index_contains(s, k) implies index_contains(t, k) by {
        let j = choose|j: int| 0 <= j < s.len() && s[j].key@ == k;
        assert(t[if j == i { i } else { j }].key@ == k);
    }
    assert forall|k: Seq<char>| index_contains(t, k) && k != e.key@ implies index_at(t, k)
        == index_at(s, k) by {
        let j = choose|j: int| 0 <= j < t.len() && t[j].key@ == k;
        assert(j != i);
        assert(s[j].key@ == k);
        lemma_index_unique(s, j);
        lemma_index_unique(t, j);
    }
    lemma_index_unique(t, i);
    assert(kv_map(t) =~= kv_map(s).insert(e.key@, e.value@));
    assert(len_map(t) =~= len_map(s).insert(e.key@, e.len));
}

/// Appending an entry with a fresh key updates the two maps at that key
/// and nowhere else.
pub proof fn lemma_maps_push(s: Seq<IndexEntry>, e: IndexEntry)
    requires
        keys_distinct(s),
        !index_contains(s, e.key@),
    ensures
        keys_distinct(s.push(e)),
        kv_map(s.push(e)) == kv_map(s).insert(e.key@, e.value@),
        len_map(s.push(e)) == len_map(s).insert(e.key@, e.len),
{
    let t = s.push(e);
    assert forall|i: int, j: int| 0 <= i < j < t.len() implies t[i].key@ != t[j].key@ by {
        if j == s.len() {
            assert(t[i].key@ == s[i].key@);
        }
    }
    assert forall|k: Seq<char>| index_contains(t, k) && k != e.key@ implies index_contains(s, k)
        && index_at(t, k) == index_at(s, k) by {
        let j = choose|j: int| 0 <= j < t.len() && t[j].key@ == k;
        assert(j != s.len());
        assert(s[j].key@ == k);
        lemma_index_unique(s, j);
        lemma_index_unique(t, j);
    }
    assert forall|k: Seq<char>| index_contains(s, k) implies index_contains(t, k) by {
        let j = choose|j: int| 0 <= j < s.len() && s[j].key@ == k;
        assert(t[j].key@ == k);
    }
    lemma_index_unique(t, s.len() as int);
    assert(kv_map(t) =~= kv_map(s).insert(e.key@, e.value@));
    assert(len_map(t) =~= len_map(s).insert(e.key@, e.len));
}

/// Taking out the entry at `i` removes its key from the two maps and
/// changes nothing else.
pub proof fn lemma_maps_remove(s: Seq<IndexEntry>, i: int)
    requires
        keys_distinct(s),
        0 <= i < s.len(),
    ensures
        keys_distinct(s.remove(i)),
        kv_map(s.remove(i)) == kv_map(s).remove(s[i].key@),
        len_map(s.remove(i)) == len_map(s).remove(s[i].key@),
{
    let t = s.remove(i);
    let k0 = s[i].key@;
    assert forall|p: int, q: int| 0 <= p < q < t.len() implies t[p].key@ != t[q].key@ by {
        let p0 = if p < i { p } else { p + 1 };
        let q0 = if q < i { q } else { q + 1 };
        assert(t[p] == s[p0] && t[q] == s[q0]);
    }
    assert forall|k: Seq<char>| index_contains(t, k) implies index_contains(s, k) && k != k0
        && index_at(t, k) == index_at(s, k) by {
        let j = choose|j: int| 0 <= j < t.len() && t[j].key@ == k;
        let j0 = if j < i { j } else { j + 1 };
        assert(t[j] == s[j0]);
        lemma_index_unique(s, j0);
        lemma_index_unique(t, j);
    }
    assert forall|k: Seq<char>| index_contains(s, k) && k != k0 implies index_contains(t, k) by {
        let j = choose|j: int| 0 <= j < s.len() && s[j].key@ == k;
        assert(j != i);
        let j1 = if j < i { j } else { j - 1 };
        assert(t[j1] == s[j]);
        assert(t[j1].key@ == k);
    }
    assert(kv_map(t) =~= kv_map(s).remove(k0));
    assert(len_map(t) =~= len_map(s).remove(k0));
}

/// Two indexes that agree pointwise on keys, values and lengths describe
/// the same maps.
pub proof fn lemma_maps_congruent(s1: Seq<IndexEntry>, s2: Seq<IndexEntry>)
    requires
        keys_distinct(s1),
        s1.len() == s2.len(),
        forall|i: int| 0 <= i < s1.len() ==> s2[i].key@ == s1[i].key@ && s2[i].value@
            == s1[i].value@ && s2[i].len == s1[i].len,
    ensures
        keys_distinct(s2),
        kv_map(s2) == kv_map(s1),
        len_map(s2) == len_map(s1),
{
    assert forall|k: Seq<char>| index_contains(s1, k) implies index_contains(s2, k) by {
        let j = choose|j: int| 0 <= j < s1.len() && s1[j].key@ == k;
        assert(s2[j].key@ == k);
    }
    assert forall|k: Seq<char>| index_contains(s2, k) implies index_contains(s1, k)
        && index_at(s2, k).value@ == index_at(s1, k).value@ && index_at(s2, k).len == index_at(
        s1,
        k,
    ).len by {
        let j = choose|j: int| 0 <= j < s2.len() && s2[j].key@ == k;
        assert(s1[j].key@ == k);
        lemma_index_unique(s1, j);
        lemma_index_unique(s2, j);
    }
    assert(kv_map(s2) =~= kv_map(s1));
    assert(len_map(s2) =~= len_map(s1));
}

/// The position of the entry that carries `key`, when there is one.
pub fn index_find(index: &Vec<IndexEntry>, key: &String) -> (r: Option<usize>)
    ensures
        match r {
            Some(i) => i < index@.len() && index@[i as int].key@ == key@,
            None => !index_contains(index@, key@),
        },
{
    let mut i: usize = 0;
    while i < index.len()
        invariant
            i <= index@.len(),
            forall|j: int| 0 <= j < i ==> index@[j].key@ != key@,
        decreases index@.len() - i,
    {
        if index[i].key == *key {
            return Some(i);
        }
        i = i + 1;
    }
    None
}

} // verus!
