//! Lists read as maps and sets: a list of (key, value) pairs with distinct keys
//! stands for a map, a list without duplicates for a set.
use vstd::prelude::*;

verus! {

/// No key occurs twice among the pairs.
pub open spec fn keys_distinct<K, V>(s: Seq<(K, V)>) -> bool {
    forall|i: int, j: int| 0 <= i < s.len() && 0 <= j < s.len() && i != j ==> s[i].0 != s[j].0
}

/// Some pair has key `k`.
pub open spec fn has_key<K, V>(s: Seq<(K, V)>, k: K) -> bool {
    exists|i: int| 0 <= i < s.len() && s[i].0 == k
}

/// The map that the pairs stand for.
pub open spec fn as_map<K, V>(s: Seq<(K, V)>) -> Map<K, V> {
    Map::new(
        |k: K| has_key(s, k),
        |k: K| s[choose|i: int| 0 <= i < s.len() && s[i].0 == k].1,
    )
}

/// The pair at `j` is an entry of the map.
pub proof fn lemma_as_map_at<K, V>(s: Seq<(K, V)>, j: int)
    requires
        keys_distinct(s),
        0 <= j < s.len(),
    ensures
        as_map(s).contains_key(s[j].0),
        as_map(s)[s[j].0] == s[j].1,
{
    let k = s[j].0;
    assert(has_key(s, k));
    let i = choose|i: int| 0 <= i < s.len() && s[i].0 == k;
    assert(i == j);
}

/// Replacing the value of the pair at `j` replaces the value of its key.
pub proof fn lemma_as_map_update<K, V>(s: Seq<(K, V)>, j: int, v: V)
    requires
        keys_distinct(s),
        0 <= j < s.len(),
    ensures
        keys_distinct(s.update(j, (s[j].0, v))),
        as_map(s.update(j, (s[j].0, v))) == as_map(s).insert(s[j].0, v),
{
    let t = s.update(j, (s[j].0, v));
    assert(keys_distinct(t));
    lemma_as_map_at(t, j);
    assert forall|k: K| #[trigger] as_map(t).contains_key(k) == as_map(s).insert(s[j].0, v).contains_key(k) by {
        if has_key(t, k) {
            let i = choose|i: int| 0 <= i < t.len() && t[i].0 == k;
            assert(s[i].0 == k);
        }
        if has_key(s, k) {
            let i = choose|i: int| 0 <= i < s.len() && s[i].0 == k;
            assert(t[i].0 == k);
        }
    }
    assert forall|k: K| #[trigger] as_map(t).contains_key(k) && k != s[j].0 implies as_map(t)[k]
        == as_map(s)[k] by {
        let i = choose|i: int| 0 <= i < t.len() && t[i].0 == k;
        lemma_as_map_at(t, i);
        lemma_as_map_at(s, i);
    }
    assert(as_map(t) =~= as_map(s).insert(s[j].0, v));
}

/// Adding a pair with a new key adds an entry.
pub proof fn lemma_as_map_push<K, V>(s: Seq<(K, V)>, k: K, v: V)
    requires
        keys_distinct(s),
        !as_map(s).contains_key(k),
    ensures
        keys_distinct(s.push((k, v))),
        as_map(s.push((k, v))) == as_map(s).insert(k, v),
{
    let t = s.push((k, v));
    assert forall|i: int, j: int| 0 <= i < t.len() && 0 <= j < t.len() && i != j implies t[i].0
        != t[j].0 by {
        if i == s.len() {
            assert(!has_key(s, k));
            assert(s[j].0 != k);
        } else if j == s.len() {
            assert(!has_key(s, k));
            assert(s[i].0 != k);
        }
    }
    lemma_as_map_at(t, s.len() as int);
    assert forall|x: K| #[trigger] as_map(t).contains_key(x) == as_map(s).insert(k, v).contains_key(x) by {
        if has_key(t, x) && x != k {
            let i = choose|i: int| 0 <= i < t.len() && t[i].0 == x;
            assert(s[i].0 == x);
        }
        if has_key(s, x) {
            let i = choose|i: int| 0 <= i < s.len() && s[i].0 == x;
            assert(t[i].0 == x);
        }
    }
    assert forall|x: K| #[trigger] as_map(t).contains_key(x) && x != k implies as_map(t)[x]
        == as_map(s)[x] by {
        let i = choose|i: int| 0 <= i < t.len() && t[i].0 == x;
        assert(i < s.len());
        lemma_as_map_at(t, i);
        lemma_as_map_at(s, i);
    }
    assert(as_map(t) =~= as_map(s).insert(k, v));
}

/// Dropping the pair at `j` drops its key.
pub proof fn lemma_as_map_remove<K, V>(s: Seq<(K, V)>, j: int)
    requires
        keys_distinct(s),
        0 <= j < s.len(),
    ensures
        keys_distinct(s.remove(j)),
        as_map(s.remove(j)) == as_map(s).remove(s[j].0),
{
    let t = s.remove(j);
    assert forall|a: int, b: int| 0 <= a < t.len() && 0 <= b < t.len() && a != b implies t[a].0
        != t[b].0 by {
        let a2 = if a < j { a } else { a + 1 };
        let b2 = if b < j { b } else { b + 1 };
        assert(t[a] == s[a2] && t[b] == s[b2]);
    }
    assert forall|x: K| #[trigger] as_map(t).contains_key(x) == as_map(s).remove(s[j].0).contains_key(
        x,
    ) by {
        if has_key(t, x) {
            let i = choose|i: int| 0 <= i < t.len() && t[i].0 == x;
            let i2 = if i < j { i } else { i + 1 };
            assert(s[i2].0 == x);
            assert(i2 != j);
        }
        if has_key(s, x) && x != s[j].0 {
            let i = choose|i: int| 0 <= i < s.len() && s[i].0 == x;
            assert(i != j);
            let i2 = if i < j { i } else { i - 1 };
            assert(t[i2].0 == x);
        }
    }
    assert forall|x: K| #[trigger] as_map(t).contains_key(x) implies as_map(t)[x] == as_map(s)[x] by {
        let i = choose|i: int| 0 <= i < t.len() && t[i].0 == x;
        let i2 = if i < j { i } else { i + 1 };
        assert(t[i] == s[i2]);
        lemma_as_map_at(t, i);
        lemma_as_map_at(s, i2);
    }
    assert(as_map(t) =~= as_map(s).remove(s[j].0));
}

/// Adding an element that a list lacks keeps it free of duplicates and adds it
/// to its set.
pub proof fn lemma_push_new<A>(s: Seq<A>, x: A)
    requires
        s.no_duplicates(),
        !s.contains(x),
    ensures
        s.push(x).no_duplicates(),
        s.push(x).to_set() == s.to_set().insert(x),
{
    assert forall|y: A| #[trigger] s.to_set().insert(x).contains(y) implies s.push(x).contains(y) by {
        if y == x {
            assert(s.push(x)[s.len() as int] == x);
        } else {
            let i = choose|i: int| 0 <= i < s.len() && s[i] == y;
            assert(s.push(x)[i] == y);
        }
    }
    assert forall|y: A| #[trigger] s.push(x).contains(y) implies s.to_set().insert(x).contains(y) by {
        if y != x {
            let i = choose|i: int| 0 <= i < s.len() + 1 && s.push(x)[i] == y;
            assert(s[i] == y);
        }
    }
    assert(s.push(x).to_set() =~= s.to_set().insert(x));
}

/// Dropping the element at `k` of a list without duplicates drops it from its
/// set.
pub proof fn lemma_remove_at<A>(s: Seq<A>, k: int)
    requires
        s.no_duplicates(),
        0 <= k < s.len(),
    ensures
        s.remove(k).no_duplicates(),
        s.remove(k).to_set() == s.to_set().remove(s[k]),
{
    let t = s.remove(k);
    assert forall|a: int, b: int| 0 <= a < t.len() && 0 <= b < t.len() && a != b implies t[a]
        != t[b] by {
        let a2 = if a < k { a } else { a + 1 };
        let b2 = if b < k { b } else { b + 1 };
        assert(t[a] == s[a2] && t[b] == s[b2]);
    }
    assert forall|y: A| #[trigger] t.contains(y) implies s.to_set().remove(s[k]).contains(y) by {
        {
            let i = choose|i: int| 0 <= i < t.len() && t[i] == y;
            let i2 = if i < k { i } else { i + 1 };
            assert(s[i2] == y);
        }
    }
    assert forall|y: A| #[trigger] s.to_set().remove(s[k]).contains(y) implies t.contains(y) by {
        {
            let i = choose|i: int| 0 <= i < s.len() && s[i] == y;
            assert(i != k);
            let i2 = if i < k { i } else { i - 1 };
            assert(t[i2] == y);
        }
    }
    assert(t.to_set() =~= s.to_set().remove(s[k]));
}

/// Where `x` of `v` stands, if it does.
pub fn position_of_id(v: &Vec<usize>, x: usize) -> (res: Option<usize>)
    ensures
        res matches Some(k) ==> k < v@.len() && v@[k as int] == x,
        res is None ==> !v@.contains(x),
{
    let n = v.len();
    for k in 0..n
        invariant
            n == v@.len(),
            forall|m: int| 0 <= m < k ==> v@[m] != x,
    {
        if v[k] == x {
            return Some(k);
        }
    }
    None
}

/// Where a string with the contents of `x` stands in `v`, if one does.
pub fn position_of_str(v: &Vec<String>, x: &String) -> (res: Option<usize>)
    ensures
        res matches Some(k) ==> k < v@.len() && v@[k as int]@ == x@,
        res is None ==> !v.deep_view().contains(x@),
{
    let n = v.len();
    for k in 0..n
        invariant
            n == v@.len(),
            forall|m: int| 0 <= m < k ==> v@[m]@ != x@,
    {
        if v[k] == *x {
            return Some(k);
        }
    }
    proof {
        assert forall|m: int| 0 <= m < v.deep_view().len() implies v.deep_view()[m] != x@ by {
            assert(v.deep_view()[m] == v@[m]@);
        }
    }
    None
}

} // verus!
