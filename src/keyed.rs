//! Sequences of key/value pairs read as maps: a later pair wins over an earlier one of the same
//! key. Content, the site index and the change detector's snapshot keep such sequences with
//! each key at most once.
use vstd::prelude::*;

verus! {

/// The map that a sequence of pairs spells; a later pair wins over an earlier one.
pub open spec fn pairs_map<V>(s: Seq<(Seq<char>, V)>) -> Map<Seq<char>, V>
    decreases s.len(),
{
    if s.len() == 0 {
        Map::empty()
    } else {
        pairs_map(s.drop_last()).insert(s.last().0, s.last().1)
    }
}

/// No key occurs twice.
pub open spec fn keys_unique<V>(s: Seq<(Seq<char>, V)>) -> bool {
    forall|i: int, j: int| 0 <= i < s.len() && 0 <= j < s.len() && i != j ==> s[i].0 != s[j].0
}

/// A key is in the map exactly when some pair carries it.
pub proof fn lemma_pairs_dom<V>(s: Seq<(Seq<char>, V)>, k: Seq<char>)
    ensures
        pairs_map(s).contains_key(k) <==> exists|i: int| 0 <= i < s.len() && s[i].0 == k,
    decreases s.len(),
{
    if s.len() > 0 {
        let t = s.drop_last();
        lemma_pairs_dom(t, k);
        if pairs_map(t).contains_key(k) {
            let i = choose|i: int| 0 <= i < t.len() && t[i].0 == k;
            assert(s[i] == t[i]);
        }
        if exists|i: int| 0 <= i < s.len() && s[i].0 == k {
            let i = choose|i: int| 0 <= i < s.len() && s[i].0 == k;
            if i < s.len() - 1 {
                assert(t[i] == s[i]);
            }
        }
    }
}

/// Each value of the map comes from a pair that carries its key.
pub proof fn lemma_pairs_value<V>(s: Seq<(Seq<char>, V)>, k: Seq<char>)
    requires
        pairs_map(s).contains_key(k),
    ensures
        exists|i: int| 0 <= i < s.len() && s[i] == (k, pairs_map(s)[k]),
    decreases s.len(),
{
    let t = s.drop_last();
    if s.last().0 != k {
        lemma_pairs_value(t, k);
        let i = choose|i: int| 0 <= i < t.len() && t[i] == (k, pairs_map(t)[k]);
        assert(s[i] == t[i]);
    } else {
        assert(s[s.len() - 1] == (k, pairs_map(s)[k]));
    }
}

/// With unique keys, the map holds each pair's value under its key.
pub proof fn lemma_pairs_at<V>(s: Seq<(Seq<char>, V)>, i: int)
    requires
        keys_unique(s),
        0 <= i < s.len(),
    ensures
        pairs_map(s).contains_key(s[i].0),
        pairs_map(s)[s[i].0] == s[i].1,
    decreases s.len(),
{
    let t = s.drop_last();
    if i < s.len() - 1 {
        assert(s[i].0 != s[s.len() - 1].0);
        lemma_pairs_at(t, i);
        assert(t[i] == s[i]);
    }
}

/// With unique keys, replacing a pair by one of the same key replaces its value, and keeps the
/// keys unique.
pub proof fn lemma_pairs_update<V>(s: Seq<(Seq<char>, V)>, i: int, p: (Seq<char>, V))
    requires
        keys_unique(s),
        0 <= i < s.len(),
        s[i].0 == p.0,
    ensures
        pairs_map(s.update(i, p)) == pairs_map(s).insert(p.0, p.1),
        keys_unique(s.update(i, p)),
    decreases s.len(),
{
    let t = s.drop_last();
    let u = s.update(i, p);
    if i == s.len() - 1 {
        assert(u.drop_last() =~= t);
        assert(pairs_map(u) =~= pairs_map(s).insert(p.0, p.1));
    } else {
        assert(u.drop_last() =~= t.update(i, p));
        assert(s[i].0 != s[s.len() - 1].0);
        lemma_pairs_update(t, i, p);
        assert(pairs_map(u) =~= pairs_map(s).insert(p.0, p.1));
    }
    assert forall|a: int, b: int| 0 <= a < u.len() && 0 <= b < u.len() && a != b implies u[a].0
        != u[b].0 by {
        assert(u[a].0 == s[a].0);
        assert(u[b].0 == s[b].0);
    }
}

/// Appending a pair with a new key inserts it, and keeps the keys unique.
pub proof fn lemma_pairs_push<V>(s: Seq<(Seq<char>, V)>, p: (Seq<char>, V))
    requires
        keys_unique(s),
        forall|i: int| 0 <= i < s.len() ==> s[i].0 != p.0,
    ensures
        pairs_map(s.push(p)) == pairs_map(s).insert(p.0, p.1),
        keys_unique(s.push(p)),
{
    assert(s.push(p).drop_last() =~= s);
    let u = s.push(p);
    assert forall|a: int, b: int| 0 <= a < u.len() && 0 <= b < u.len() && a != b implies u[a].0
        != u[b].0 by {
        if a < s.len() && b < s.len() {
            assert(u[a] == s[a] && u[b] == s[b]);
        } else if a < s.len() {
            assert(u[a] == s[a]);
        } else {
            assert(u[b] == s[b]);
        }
    }
}

/// With unique keys, dropping a pair removes its key, and keeps the keys unique.
pub proof fn lemma_pairs_remove<V>(s: Seq<(Seq<char>, V)>, i: int)
    requires
        keys_unique(s),
        0 <= i < s.len(),
    ensures
        pairs_map(s.remove(i)) == pairs_map(s).remove(s[i].0),
        keys_unique(s.remove(i)),
    decreases s.len(),
{
    let t = s.drop_last();
    let u = s.remove(i);
    if i == s.len() - 1 {
        assert(u =~= t);
        assert forall|k: Seq<char>| #[trigger] pairs_map(t).contains_key(k) implies k != s[i].0 by {
            lemma_pairs_dom(t, k);
            let j = choose|j: int| 0 <= j < t.len() && t[j].0 == k;
            assert(s[j] == t[j]);
        }
        assert(pairs_map(s.remove(i)) =~= pairs_map(s).remove(s[i].0));
    } else {
        assert(u.drop_last() =~= t.remove(i));
        assert(u.last() == s.last());
        assert(s[i].0 != s[s.len() - 1].0);
        lemma_pairs_remove(t, i);
        assert(pairs_map(u) =~= pairs_map(s).remove(s[i].0));
    }
    assert forall|a: int, b: int| 0 <= a < u.len() && 0 <= b < u.len() && a != b implies u[a].0
        != u[b].0 by {
        let sa = if a < i {
            a
        } else {
            a + 1
        };
        let sb = if b < i {
            b
        } else {
            b + 1
        };
        assert(u[a] == s[sa]);
        assert(u[b] == s[sb]);
    }
}

/// With unique keys, the map has one entry per pair.
pub proof fn lemma_pairs_len<V>(s: Seq<(Seq<char>, V)>)
    requires
        keys_unique(s),
    ensures
        pairs_map(s).len() == s.len(),
        pairs_map(s).dom().finite(),
    decreases s.len(),
{
    if s.len() > 0 {
        let t = s.drop_last();
        assert forall|a: int, b: int| 0 <= a < t.len() && 0 <= b < t.len() && a != b implies t[a].0
            != t[b].0 by {
            assert(t[a] == s[a] && t[b] == s[b]);
        }
        lemma_pairs_len(t);
        lemma_pairs_dom(t, s.last().0);
        if pairs_map(t).contains_key(s.last().0) {
            let j = choose|j: int| 0 <= j < t.len() && t[j].0 == s.last().0;
            assert(s[j] == t[j]);
        }
    }
}

} // verus!
