//! Name-keyed entry lists: a sequence of `(name, value)` entries whose names
//! are pairwise distinct stands for a finite map from names to values.
use vstd::prelude::*;

verus! {

/// No two entries carry the same name.
pub open spec fn distinct_keys<V>(s: Seq<(Seq<char>, V)>) -> bool {
    forall|i: int, j: int|
        0 <= i < s.len() && 0 <= j < s.len() && i != j ==> #[trigger] s[i].0 != #[trigger] s[j].0
}

/// Some entry carries the name `k`.
pub open spec fn has_key<V>(s: Seq<(Seq<char>, V)>, k: Seq<char>) -> bool {
    exists|i: int| 0 <= i < s.len() && #[trigger] s[i].0 == k
}

/// The map from each name to the value of the entry that carries it.
pub open spec fn keyed<V>(s: Seq<(Seq<char>, V)>) -> Map<Seq<char>, V> {
    Map::new(
        |k: Seq<char>| has_key(s, k),
        |k: Seq<char>| s[choose|i: int| 0 <= i < s.len() && #[trigger] s[i].0 == k].1,
    )
}

pub proof fn lemma_keyed_empty<V>()
    ensures
        distinct_keys(Seq::<(Seq<char>, V)>::empty()),
        keyed(Seq::<(Seq<char>, V)>::empty()) == Map::<Seq<char>, V>::empty(),
{
    assert(keyed(Seq::<(Seq<char>, V)>::empty()) =~= Map::<Seq<char>, V>::empty());
}

/// The entry at `i` is what the map holds for its name.
pub proof fn lemma_keyed_at<V>(s: Seq<(Seq<char>, V)>, i: int)
    requires
        distinct_keys(s),
        0 <= i < s.len(),
    ensures
        keyed(s).contains_key(s[i].0),
        keyed(s)[s[i].0] == s[i].1,
{
    let k = s[i].0;
    assert(has_key(s, k));
    let j = choose|j: int| 0 <= j < s.len() && #[trigger] s[j].0 == k;
    assert(j == i);
}

/// Every name of the map is the name of some entry.
pub proof fn lemma_keyed_key<V>(s: Seq<(Seq<char>, V)>, k: Seq<char>) -> (i: int)
    requires
        distinct_keys(s),
        keyed(s).contains_key(k),
    ensures
        0 <= i < s.len(),
        s[i].0 == k,
        keyed(s)[k] == s[i].1,
{
    let i = choose|i: int| 0 <= i < s.len() && #[trigger] s[i].0 == k;
    lemma_keyed_at(s, i);
    i
}

/// Replacing the value of one entry replaces the value of its name.
pub proof fn lemma_keyed_update<V>(s: Seq<(Seq<char>, V)>, i: int, v: V)
    requires
        distinct_keys(s),
        0 <= i < s.len(),
    ensures
        distinct_keys(s.update(i, (s[i].0, v))),
        keyed(s.update(i, (s[i].0, v))) == keyed(s).insert(s[i].0, v),
{
    let t = s.update(i, (s[i].0, v));
    assert forall|a: int, b: int|
        0 <= a < t.len() && 0 <= b < t.len() && a != b implies #[trigger] t[a].0
        != #[trigger] t[b].0 by {
        assert(t[a].0 == s[a].0);
        assert(t[b].0 == s[b].0);
    }
    assert forall|k: Seq<char>| #[trigger] has_key(t, k) <==> has_key(s, k) by {
        if has_key(t, k) {
            let j = choose|j: int| 0 <= j < t.len() && #[trigger] t[j].0 == k;
            assert(s[j].0 == k);
        }
        if has_key(s, k) {
            let j = choose|j: int| 0 <= j < s.len() && #[trigger] s[j].0 == k;
            assert(t[j].0 == k);
        }
    }
    assert forall|k: Seq<char>| #[trigger] keyed(t).contains_key(k) implies keyed(t)[k] == keyed(
        s,
    ).insert(s[i].0, v)[k] by {
        let j = choose|j: int| 0 <= j < t.len() && #[trigger] t[j].0 == k;
        lemma_keyed_at(t, j);
        if j != i {
            lemma_keyed_at(s, j);
        }
    }
    assert(keyed(t) =~= keyed(s).insert(s[i].0, v));
}

/// Two entry lists with the same names in the same places, whose values are
/// related place by place, stand for maps with the same names whose values
/// are related name by name.
pub proof fn lemma_keyed_related<V, W>(
    s: Seq<(Seq<char>, V)>,
    t: Seq<(Seq<char>, W)>,
    rel: spec_fn(V, W) -> bool,
)
    requires
        distinct_keys(s),
        s.len() == t.len(),
        forall|i: int| 0 <= i < s.len() ==> #[trigger] t[i].0 == s[i].0 && rel(s[i].1, t[i].1),
    ensures
        distinct_keys(t),
        keyed(t).dom() == keyed(s).dom(),
        forall|k: Seq<char>| #[trigger]
            keyed(s).contains_key(k) ==> rel(keyed(s)[k], keyed(t)[k]),
{
    assert forall|a: int, b: int|
        0 <= a < t.len() && 0 <= b < t.len() && a != b implies #[trigger] t[a].0
        != #[trigger] t[b].0 by {
        assert(t[a].0 == s[a].0);
        assert(t[b].0 == s[b].0);
    }
    assert forall|k: Seq<char>| #[trigger] has_key(t, k) <==> has_key(s, k) by {
        if has_key(t, k) {
            let j = choose|j: int| 0 <= j < t.len() && #[trigger] t[j].0 == k;
            assert(s[j].0 == k);
        }
        if has_key(s, k) {
            let j = choose|j: int| 0 <= j < s.len() && #[trigger] s[j].0 == k;
            assert(t[j].0 == k);
        }
    }
    assert(keyed(t).dom() =~= keyed(s).dom());
    assert forall|k: Seq<char>| #[trigger] keyed(s).contains_key(k) implies rel(
        keyed(s)[k],
        keyed(t)[k],
    ) by {
        let j = lemma_keyed_key(s, k);
        lemma_keyed_at(t, j);
    }
}

/// Appending an entry with a fresh name adds that name to the map.
pub proof fn lemma_keyed_push<V>(s: Seq<(Seq<char>, V)>, k: Seq<char>, v: V)
    requires
        distinct_keys(s),
        !keyed(s).contains_key(k),
    ensures
        distinct_keys(s.push((k, v))),
        keyed(s.push((k, v))) == keyed(s).insert(k, v),
{
    let t = s.push((k, v));
    assert forall|a: int, b: int|
        0 <= a < t.len() && 0 <= b < t.len() && a != b implies #[trigger] t[a].0
        != #[trigger] t[b].0 by {
        if a == s.len() {
            assert(s[b].0 == t[b].0);
        } else if b == s.len() {
            assert(s[a].0 == t[a].0);
        } else {
            assert(s[a].0 == t[a].0 && s[b].0 == t[b].0);
        }
    }
    assert forall|q: Seq<char>| #[trigger] has_key(t, q) <==> (has_key(s, q) || q == k) by {
        if has_key(t, q) {
            let j = choose|j: int| 0 <= j < t.len() && #[trigger] t[j].0 == q;
            if j < s.len() {
                assert(s[j].0 == q);
            }
        }
        if has_key(s, q) {
            let j = choose|j: int| 0 <= j < s.len() && #[trigger] s[j].0 == q;
            assert(t[j].0 == q);
        }
        if q == k {
            assert(t[s.len() as int].0 == q);
        }
    }
    assert forall|q: Seq<char>| #[trigger] keyed(t).contains_key(q) implies keyed(t)[q] == keyed(
        s,
    ).insert(k, v)[q] by {
        let j = choose|j: int| 0 <= j < t.len() && #[trigger] t[j].0 == q;
        lemma_keyed_at(t, j);
        if j < s.len() {
            lemma_keyed_at(s, j);
        }
    }
    assert(keyed(t) =~= keyed(s).insert(k, v));
}

} // verus!
