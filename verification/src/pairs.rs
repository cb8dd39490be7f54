//! Vectors of key-value pairs with distinct keys, read as maps: the model behind the address
//! book and the ban list.

use vstd::prelude::*;

verus! {

/// Pairs read as a map, a later pair replacing an earlier one with the same key.
pub open spec fn to_map<K, V>(s: Seq<(K, V)>) -> Map<K, V>
    decreases s.len(),
{
    if s.len() == 0 {
        Map::empty()
    } else {
        to_map(s.drop_last()).insert(s.last().0, s.last().1)
    }
}

/// No key occurs twice.
pub open spec fn unique_keys<K, V>(s: Seq<(K, V)>) -> bool {
    forall|i: int, j: int| 0 <= i < j < s.len() ==> (#[trigger] s[i]).0 != (#[trigger] s[j]).0
}

/// With unique keys, the map holds exactly the pairs.
pub proof fn lemma_to_map_unique<K, V>(s: Seq<(K, V)>)
    requires
        unique_keys(s),
    ensures
        forall|i: int| 0 <= i < s.len() ==> to_map(s).contains_key((#[trigger] s[i]).0) && to_map(s)[s[i].0] == s[i].1,
        forall|k: K| #[trigger] to_map(s).contains_key(k) ==> exists|i: int| 0 <= i < s.len() && (#[trigger] s[i]).0 == k,
    decreases s.len(),
{
    if s.len() > 0 {
        let p = s.drop_last();
        assert(unique_keys(p)) by {
            assert forall|i: int, j: int| 0 <= i < j < p.len() implies (#[trigger] p[i]).0 != (#[trigger] p[j]).0 by {
                assert(p[i] == s[i] && p[j] == s[j]);
            }
        }
        lemma_to_map_unique(p);
        assert forall|i: int| 0 <= i < s.len() implies to_map(s).contains_key((#[trigger] s[i]).0) && to_map(s)[s[i].0] == s[i].1 by {
            if i < s.len() - 1 {
                assert(p[i] == s[i]);
                assert(s[i].0 != s[s.len() - 1].0);
            }
        }
        assert forall|k: K| #[trigger] to_map(s).contains_key(k) implies exists|i: int| 0 <= i < s.len() && (#[trigger] s[i]).0 == k by {
            if k != s.last().0 {
                assert(to_map(p).contains_key(k));
                let i = choose|i: int| 0 <= i < p.len() && (#[trigger] p[i]).0 == k;
                assert(s[i] == p[i]);
            } else {
                assert(s[s.len() - 1].0 == k);
            }
        }
    }
}

/// Changing the value of a pair keeps the keys unique and changes the map at that key.
pub proof fn lemma_to_map_update<K, V>(s: Seq<(K, V)>, i: int, v: V)
    requires
        unique_keys(s),
        0 <= i < s.len(),
    ensures
        unique_keys(s.update(i, (s[i].0, v))),
        to_map(s.update(i, (s[i].0, v))) == to_map(s).insert(s[i].0, v),
{
    let t = s.update(i, (s[i].0, v));
    assert forall|a: int, b: int| 0 <= a < b < t.len() implies (#[trigger] t[a]).0 != (#[trigger] t[b]).0 by {
        assert(t[a].0 == s[a].0 && t[b].0 == s[b].0);
    }
    lemma_to_map_unique(s);
    lemma_to_map_unique(t);
    let k = s[i].0;
    assert forall|x: K| #[trigger] to_map(t).contains_key(x) <==> to_map(s).insert(k, v).contains_key(x) by {
        if to_map(t).contains_key(x) {
            let j = choose|j: int| 0 <= j < t.len() && (#[trigger] t[j]).0 == x;
            assert(s[j].0 == x);
        }
        if to_map(s).contains_key(x) {
            let j = choose|j: int| 0 <= j < s.len() && (#[trigger] s[j]).0 == x;
            assert(t[j].0 == x);
        }
    }
    assert forall|x: K| #[trigger] to_map(t).contains_key(x) implies to_map(t)[x] == to_map(s).insert(k, v)[x] by {
        let j = choose|j: int| 0 <= j < t.len() && (#[trigger] t[j]).0 == x;
        if j != i {
            assert(t[j] == s[j]);
        }
    }
    assert(to_map(t) =~= to_map(s).insert(k, v));
}

/// Adding a pair with a new key keeps the keys unique.
pub proof fn lemma_to_map_push<K, V>(s: Seq<(K, V)>, k: K, v: V)
    requires
        unique_keys(s),
        !to_map(s).contains_key(k),
    ensures
        unique_keys(s.push((k, v))),
        to_map(s.push((k, v))) == to_map(s).insert(k, v),
{
    lemma_to_map_unique(s);
    let t = s.push((k, v));
    assert(t.drop_last() =~= s);
    assert forall|a: int, b: int| 0 <= a < b < t.len() implies (#[trigger] t[a]).0 != (#[trigger] t[b]).0 by {
        if b == s.len() {
            assert(t[a] == s[a]);
        } else {
            assert(t[a] == s[a] && t[b] == s[b]);
        }
    }
}

/// Removing a pair keeps the keys unique and removes its key from the map.
pub proof fn lemma_to_map_remove<K, V>(s: Seq<(K, V)>, i: int)
    requires
        unique_keys(s),
        0 <= i < s.len(),
    ensures
        unique_keys(s.remove(i)),
        to_map(s.remove(i)) == to_map(s).remove(s[i].0),
{
    let t = s.remove(i);
    assert forall|a: int, b: int| 0 <= a < b < t.len() implies (#[trigger] t[a]).0 != (#[trigger] t[b]).0 by {
        let a2 = if a < i { a } else { a + 1 };
        let b2 = if b < i { b } else { b + 1 };
        assert(t[a] == s[a2] && t[b] == s[b2]);
    }
    lemma_to_map_unique(s);
    lemma_to_map_unique(t);
    let k = s[i].0;
    assert forall|x: K| #[trigger] to_map(t).contains_key(x) <==> to_map(s).remove(k).contains_key(x) by {
        if to_map(t).contains_key(x) {
            let j = choose|j: int| 0 <= j < t.len() && (#[trigger] t[j]).0 == x;
            let j2 = if j < i { j } else { j + 1 };
            assert(t[j] == s[j2]);
        }
        if to_map(s).remove(k).contains_key(x) {
            let j = choose|j: int| 0 <= j < s.len() && (#[trigger] s[j]).0 == x;
            if j < i {
                assert(t[j] == s[j]);
            } else {
                assert(j != i);
                assert(t[j - 1] == s[j]);
            }
        }
    }
    assert forall|x: K| #[trigger] to_map(t).contains_key(x) implies to_map(t)[x] == to_map(s).remove(k)[x] by {
        let j = choose|j: int| 0 <= j < t.len() && (#[trigger] t[j]).0 == x;
        let j2 = if j < i { j } else { j + 1 };
        assert(t[j] == s[j2]);
    }
    assert(to_map(t) =~= to_map(s).remove(k));
}

/// With unique keys, the map has as many keys as there are pairs.
pub proof fn lemma_to_map_len<K, V>(s: Seq<(K, V)>)
    requires
        unique_keys(s),
    ensures
        to_map(s).len() == s.len(),
        to_map(s).dom().finite(),
    decreases s.len(),
{
    if s.len() > 0 {
        let p = s.drop_last();
        assert(unique_keys(p)) by {
            assert forall|i: int, j: int| 0 <= i < j < p.len() implies (#[trigger] p[i]).0 != (#[trigger] p[j]).0 by {
                assert(p[i] == s[i] && p[j] == s[j]);
            }
        }
        lemma_to_map_len(p);
        lemma_to_map_unique(p);
        if to_map(p).contains_key(s.last().0) {
            let j = choose|j: int| 0 <= j < p.len() && (#[trigger] p[j]).0 == s.last().0;
            assert(s[j] == p[j]);
            assert(false);
        }
    } else {
        assert(to_map(s).dom() =~= Set::<K>::empty());
    }
}

/// Filtering pairs with unique keys keeps them unique and restricts the map to the keys whose
/// pair passes.
pub proof fn lemma_to_map_filter<K, V>(s: Seq<(K, V)>, f: spec_fn((K, V)) -> bool)
    requires
        unique_keys(s),
    ensures
        unique_keys(s.filter(f)),
        forall|a: int| 0 <= a < s.filter(f).len() ==> to_map(s).contains_key((#[trigger] s.filter(f)[a]).0),
        to_map(s.filter(f)) == to_map(s).restrict(to_map(s).dom().filter(|k: K| f((k, to_map(s)[k])))),
    decreases s.len(),
{
    reveal(Seq::filter);
    let m = to_map(s);
    if s.len() == 0 {
        assert(m.restrict(m.dom().filter(|k: K| f((k, m[k])))) =~= Map::<K, V>::empty());
    } else {
        let p = s.drop_last();
        let k = s.last().0;
        let v = s.last().1;
        assert(unique_keys(p)) by {
            assert forall|i: int, j: int| 0 <= i < j < p.len() implies (#[trigger] p[i]).0 != (#[trigger] p[j]).0 by {
                assert(p[i] == s[i] && p[j] == s[j]);
            }
        }
        lemma_to_map_filter(p, f);
        lemma_to_map_unique(p);
        let mp = to_map(p);
        if mp.contains_key(k) {
            let j = choose|j: int| 0 <= j < p.len() && (#[trigger] p[j]).0 == k;
            assert(s[j] == p[j]);
            assert(s[s.len() - 1].0 == k);
        }
        let fp = p.filter(f);
        if f(s.last()) {
            let fs = fp.push(s.last());
            assert(s.filter(f) == fs);
            assert(fs.drop_last() =~= fp);
            assert forall|a: int, b: int| 0 <= a < b < fs.len() implies (#[trigger] fs[a]).0 != (#[trigger] fs[b]).0 by {
                assert(fs[a] == fp[a]);
                if b < fp.len() {
                    assert(fs[b] == fp[b]);
                }
            }
            assert forall|a: int| 0 <= a < fs.len() implies m.contains_key((#[trigger] fs[a]).0) by {
                if a < fp.len() {
                    assert(fs[a] == fp[a]);
                }
            }
            assert(to_map(fs) =~= m.restrict(m.dom().filter(|x: K| f((x, m[x])))));
        } else {
            assert(s.filter(f) == fp);
            assert(to_map(fp) =~= m.restrict(m.dom().filter(|x: K| f((x, m[x])))));
        }
    }
}

} // verus!
