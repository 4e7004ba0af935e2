//! Vectors of `(name, value)` pairs used as maps keyed by the name.
use vstd::prelude::*;

verus! {

/// The names of the pairs, in order.
pub open spec fn akeys<V>(s: Seq<(String, V)>) -> Seq<Seq<char>> {
    s.map_values(|e: (String, V)| e.0@)
}

/// No name occurs twice.
pub open spec fn distinct_keys<V>(s: Seq<(String, V)>) -> bool {
    forall|i: int, j: int| 0 <= i < j < s.len() ==> akeys(s)[i] != akeys(s)[j]
}

/// The pairs as a map from names to values.
pub open spec fn amap<V>(s: Seq<(String, V)>) -> Map<Seq<char>, V> {
    Map::new(|k: Seq<char>| akeys(s).contains(k), |k: Seq<char>| s[akeys(s).index_of(k)].1)
}

/// The pair at `i` is what the map holds under its name.
pub proof fn lemma_amap_index<V>(s: Seq<(String, V)>, i: int)
    requires
        distinct_keys(s),
        0 <= i < s.len(),
    ensures
        amap(s).contains_key(s[i].0@),
        amap(s)[s[i].0@] == s[i].1,
        akeys(s).index_of(s[i].0@) == i,
{
    assert(akeys(s)[i] == s[i].0@);
    let j = akeys(s).index_of(s[i].0@);
    assert(akeys(s)[j] == s[i].0@);
}

/// Appending a pair with a new name inserts it in the map.
pub proof fn lemma_amap_push<V>(s: Seq<(String, V)>, k: String, v: V)
    requires
        distinct_keys(s),
        !akeys(s).contains(k@),
    ensures
        distinct_keys(s.push((k, v))),
        amap(s.push((k, v))) == amap(s).insert(k@, v),
{
    let t = s.push((k, v));
    assert(akeys(t) =~= akeys(s).push(k@));
    assert forall|i: int, j: int| 0 <= i < j < t.len() implies akeys(t)[i] != akeys(t)[j] by {
        if j == s.len() {
            assert(akeys(s)[i] == akeys(t)[i]);
        }
    }
    assert forall|q: Seq<char>| #[trigger] amap(t).contains_key(q) <==> amap(s).insert(k@, v).contains_key(q) by {
        if akeys(s).contains(q) {
            let a = akeys(s).index_of(q);
            assert(akeys(t)[a] == q);
        }
        if q == k@ {
            assert(akeys(t)[s.len() as int] == q);
        }
    }
    assert forall|q: Seq<char>| amap(t).contains_key(q) implies #[trigger] amap(t)[q] == amap(s).insert(k@, v)[q] by {
        let b = akeys(t).index_of(q);
        assert(akeys(t)[b] == q);
        if q == k@ {
            assert(akeys(t)[s.len() as int] == q);
            assert(b == s.len());
        } else {
            let a = akeys(s).index_of(q);
            assert(akeys(s)[a] == q);
            assert(akeys(t)[a] == q);
            assert(a == b);
        }
    }
    assert(amap(t) =~= amap(s).insert(k@, v));
}

/// Replacing the value of the pair at `i` inserts it in the map.
pub proof fn lemma_amap_update<V>(s: Seq<(String, V)>, i: int, k: String, v: V)
    requires
        distinct_keys(s),
        0 <= i < s.len(),
        s[i].0@ == k@,
    ensures
        distinct_keys(s.update(i, (k, v))),
        amap(s.update(i, (k, v))) == amap(s).insert(k@, v),
{
    let t = s.update(i, (k, v));
    assert(akeys(t) =~= akeys(s));
    lemma_amap_index(s, i);
    assert forall|q: Seq<char>| amap(t).contains_key(q) implies #[trigger] amap(t)[q] == amap(s).insert(k@, v)[q] by {
        let b = akeys(t).index_of(q);
        assert(akeys(t)[b] == q);
        if q == k@ {
            assert(b == i);
        }
    }
    assert(amap(t) =~= amap(s).insert(k@, v));
}

/// The position of the pair named `k`.
pub fn assoc_find<V>(v: &Vec<(String, V)>, k: &str) -> (res: Option<usize>)
    requires
        distinct_keys(v@),
    ensures
        match res {
            Some(i) => i < v@.len() && v@[i as int].0@ == k@ && amap(v@).contains_key(k@) && amap(
                v@,
            )[k@] == v@[i as int].1,
            None => !amap(v@).contains_key(k@),
        },
{
    let n = v.len();
    let key = String::from_str(k);
    for i in 0..n
        invariant
            n == v.len(),
            key@ == k@,
            distinct_keys(v@),
            forall|j: int| 0 <= j < i ==> akeys(v@)[j] != k@,
    {
        if v[i].0 == key {
            proof {
                lemma_amap_index(v@, i as int);
            }
            return Some(i);
        }
        assert(akeys(v@)[i as int] == v@[i as int].0@);
    }
    proof {
        if akeys(v@).contains(k@) {
            let a = akeys(v@).index_of(k@);
            assert(akeys(v@)[a] == k@);
        }
    }
    None
}

/// Sets the value under `k`: replaces the pair of that name or appends one.
pub fn assoc_set<V>(v: &mut Vec<(String, V)>, k: String, val: V)
    requires
        distinct_keys(old(v)@),
    ensures
        distinct_keys(final(v)@),
        amap(final(v)@) == amap(old(v)@).insert(k@, val),
        akeys(final(v)@) == if akeys(old(v)@).contains(k@) {
            akeys(old(v)@)
        } else {
            akeys(old(v)@).push(k@)
        },
{
    match assoc_find(v, k.as_str()) {
        Some(i) => {
            proof {
                lemma_amap_update(v@, i as int, k, val);
            }
            let ghost ks = akeys(v@);
            v.set(i, (k, val));
            proof {
                assert(ks[i as int] == k@);
                assert(ks.contains(k@));
                assert(akeys(v@) =~= ks);
            }
        },
        None => {
            proof {
                lemma_amap_push(v@, k, val);
            }
            let ghost ks = akeys(v@);
            v.push((k, val));
            proof {
                assert(akeys(v@) =~= ks.push(k@));
            }
        },
    }
}

} // verus!
