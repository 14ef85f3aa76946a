use vstd::prelude::*;

verus! {

/// The value of the first entry whose key is `k`.
pub open spec fn lookup<V>(s: Seq<(Seq<char>, V)>, k: Seq<char>) -> Option<V>
    decreases s.len(),
{
    if s.len() == 0 {
        None
    } else if s[0].0 == k {
        Some(s[0].1)
    } else {
        lookup(s.drop_first(), k)
    }
}

pub open spec fn first_at<V>(s: Seq<(Seq<char>, V)>, k: Seq<char>, i: int) -> bool {
    &&& 0 <= i < s.len()
    &&& s[i].0 == k
    &&& forall|j: int| 0 <= j < i ==> s[j].0 != k
}

pub proof fn lemma_lookup_at<V>(s: Seq<(Seq<char>, V)>, k: Seq<char>, i: int)
    requires
        first_at(s, k, i),
    ensures
        lookup(s, k) == Some(s[i].1),
    decreases s.len(),
{
    if i > 0 {
        assert(first_at(s.drop_first(), k, i - 1));
        lemma_lookup_at(s.drop_first(), k, i - 1);
    }
}

pub proof fn lemma_lookup_absent<V>(s: Seq<(Seq<char>, V)>, k: Seq<char>)
    requires
        forall|j: int| 0 <= j < s.len() ==> s[j].0 != k,
    ensures
        lookup(s, k) is None,
    decreases s.len(),
{
    if s.len() > 0 {
        lemma_lookup_absent(s.drop_first(), k);
    }
}

/// Replacing the value of the first entry of `k` changes the lookup of `k`
/// only.
pub proof fn lemma_lookup_update<V>(s: Seq<(Seq<char>, V)>, k: Seq<char>, i: int, v: V, a: Seq<char>)
    requires
        first_at(s, k, i),
    ensures
        lookup(s.update(i, (k, v)), a) == (if a == k { Some(v) } else { lookup(s, a) }),
    decreases s.len(),
{
    let t = s.update(i, (k, v));
    if i > 0 {
        assert(t.drop_first() =~= s.drop_first().update(i - 1, (k, v)));
        assert(first_at(s.drop_first(), k, i - 1));
        lemma_lookup_update(s.drop_first(), k, i - 1, v, a);
    } else {
        assert(t.drop_first() =~= s.drop_first());
    }
}

/// Appending an entry for an absent key changes the lookup of that key only.
pub proof fn lemma_lookup_push<V>(s: Seq<(Seq<char>, V)>, k: Seq<char>, v: V, a: Seq<char>)
    requires
        forall|j: int| 0 <= j < s.len() ==> s[j].0 != k,
    ensures
        lookup(s.push((k, v)), a) == (if a == k { Some(v) } else { lookup(s, a) }),
    decreases s.len(),
{
    let t = s.push((k, v));
    if s.len() > 0 {
        assert(t.drop_first() =~= s.drop_first().push((k, v)));
        assert(t[0] == s[0]);
        lemma_lookup_push(s.drop_first(), k, v, a);
    } else {
        assert(t.drop_first() =~= Seq::<(Seq<char>, V)>::empty());
        assert(t[0] == (k, v));
        reveal_with_fuel(lookup, 2);
    }
}

/// `i` is the first entry of `v` whose key has the view `k`.
pub open spec fn found_at<V>(v: Seq<(String, V)>, k: Seq<char>, i: int) -> bool {
    &&& 0 <= i < v.len()
    &&& v[i].0@ == k
    &&& forall|j: int| 0 <= j < i ==> v[j].0@ != k
}

/// The index of the first entry whose key is `k`.
pub fn find_key<V>(v: &Vec<(String, V)>, k: &String) -> (r: Option<usize>)
    ensures
        match r {
            Some(i) => found_at(v@, k@, i as int),
            None => forall|j: int| 0 <= j < v@.len() ==> #[trigger] v@[j].0@ != k@,
        },
{
    let ghost s = v@.map_values(|e: (String, V)| (e.0@, e.1));
    let mut i: usize = 0;
    while i < v.len()
        invariant
            s == v@.map_values(|e: (String, V)| (e.0@, e.1)),
            i <= v@.len(),
            forall|j: int| 0 <= j < i ==> #[trigger] v@[j].0@ != k@,
        decreases v@.len() - i,
    {
        if v[i].0 == *k {
            assert(forall|j: int| 0 <= j < i ==> s[j].0 == v@[j].0@);
            return Some(i);
        }
        i = i + 1;
    }
    None
}

} // verus!
