use vstd::prelude::*;

verus! {

/// The map a key-value sequence stands for; a later entry would win,
/// though well-formed stores keep their keys unique.
pub open spec fn assoc_map<K: View, V: View>(s: Seq<(K, V)>) -> Map<<K as View>::V, <V as View>::V>
    decreases s.len(),
{
    if s.len() == 0 {
        Map::empty()
    } else {
        assoc_map(s.drop_last()).insert(s.last().0@, s.last().1@)
    }
}

/// No two entries share a key.
pub open spec fn keys_unique<K: View, V>(s: Seq<(K, V)>) -> bool {
    forall|i: int, j: int| 0 <= i < j < s.len() ==> (#[trigger] s[i]).0@ != (#[trigger] s[j]).0@
}

/// Entry for entry, the two sequences carry the same keys and values.
pub open spec fn pairs_view_eq<K: View, V: View>(a: Seq<(K, V)>, b: Seq<(K, V)>) -> bool {
    a.len() == b.len() && forall|i: int|
        0 <= i < a.len() ==> (#[trigger] a[i]).0@ == (#[trigger] b[i]).0@ && a[i].1@ == b[i].1@
}

/// A key in the map comes from some entry, the last one with that key.
pub proof fn lemma_assoc_contains<K: View, V: View>(s: Seq<(K, V)>, k: <K as View>::V)
    requires
        assoc_map(s).contains_key(k),
    ensures
        exists|i: int| 0 <= i < s.len() && (#[trigger] s[i]).0@ == k && assoc_map(s)[k] == s[i].1@,
    decreases s.len(),
{
    if s.len() > 0 {
        if s.last().0@ == k {
            assert(s[s.len() - 1].0@ == k && assoc_map(s)[k] == s[s.len() - 1].1@);
        } else {
            lemma_assoc_contains(s.drop_last(), k);
            let i = choose|i: int|
                0 <= i < s.drop_last().len() && (#[trigger] s.drop_last()[i]).0@ == k && assoc_map(
                    s.drop_last(),
                )[k] == s.drop_last()[i].1@;
            assert(s[i].0@ == k && assoc_map(s)[k] == s[i].1@);
        }
    }
}

/// Each entry of a uniquely-keyed sequence is in the map.
pub proof fn lemma_assoc_index<K: View, V: View>(s: Seq<(K, V)>, i: int)
    requires
        keys_unique(s),
        0 <= i < s.len(),
    ensures
        assoc_map(s).contains_key(s[i].0@),
        assoc_map(s)[s[i].0@] == s[i].1@,
    decreases s.len(),
{
    if i == s.len() - 1 {
    } else {
        assert(keys_unique(s.drop_last()));
        lemma_assoc_index(s.drop_last(), i);
        assert(s.drop_last()[i] == s[i]);
        assert(s[i].0@ != s[s.len() - 1].0@);
    }
}

/// A key no entry carries is not in the map.
pub proof fn lemma_assoc_absent<K: View, V: View>(s: Seq<(K, V)>, k: <K as View>::V)
    requires
        forall|i: int| 0 <= i < s.len() ==> (#[trigger] s[i]).0@ != k,
    ensures
        !assoc_map(s).contains_key(k),
    decreases s.len(),
{
    if s.len() > 0 {
        assert(s[s.len() - 1].0@ != k);
        lemma_assoc_absent(s.drop_last(), k);
    }
}

/// Replacing the entry at a key maps to inserting at that key.
pub proof fn lemma_assoc_update<K: View, V: View>(s: Seq<(K, V)>, i: int, pb: (K, V))
    requires
        keys_unique(s),
        0 <= i < s.len(),
        pb.0@ == s[i].0@,
    ensures
        assoc_map(s.update(i, pb)) =~= assoc_map(s).insert(pb.0@, pb.1@),
        keys_unique(s.update(i, pb)),
    decreases s.len(),
{
    let t = s.update(i, pb);
    assert(keys_unique(t));
    if i == s.len() - 1 {
        assert(t.drop_last() =~= s.drop_last());
        assert(t.last() == pb);
    } else {
        assert(t.drop_last() =~= s.drop_last().update(i, pb));
        assert(keys_unique(s.drop_last()));
        assert(s.drop_last()[i] == s[i]);
        lemma_assoc_update(s.drop_last(), i, pb);
        assert(t.last() == s.last());
        assert(s.last().0@ != pb.0@);
        assert(assoc_map(t) =~= assoc_map(s.drop_last()).insert(pb.0@, pb.1@).insert(
            s.last().0@,
            s.last().1@,
        ));
    }
}

/// Appending a fresh key maps to inserting it.
pub proof fn lemma_assoc_push<K: View, V: View>(s: Seq<(K, V)>, pb: (K, V))
    requires
        keys_unique(s),
        forall|i: int| 0 <= i < s.len() ==> (#[trigger] s[i]).0@ != pb.0@,
    ensures
        assoc_map(s.push(pb)) =~= assoc_map(s).insert(pb.0@, pb.1@),
        keys_unique(s.push(pb)),
{
    assert(s.push(pb).drop_last() =~= s);
    assert(s.push(pb).last() == pb);
    assert forall|i: int, j: int|
        0 <= i < j < s.push(pb).len() implies (#[trigger] s.push(pb)[i]).0@ != (#[trigger] s.push(
        pb,
    )[j]).0@ by {
        if j < s.len() {
            assert(s[i].0@ != s[j].0@);
        } else {
            assert(s.push(pb)[i] == s[i]);
        }
    }
}

/// Sequences with the same keys and values stand for the same map.
pub proof fn lemma_assoc_congruence<K: View, V: View>(a: Seq<(K, V)>, b: Seq<(K, V)>)
    requires
        pairs_view_eq(a, b),
    ensures
        assoc_map(a) =~= assoc_map(b),
        keys_unique(a) ==> keys_unique(b),
    decreases a.len(),
{
    if a.len() > 0 {
        assert(pairs_view_eq(a.drop_last(), b.drop_last()));
        lemma_assoc_congruence(a.drop_last(), b.drop_last());
        assert(a.last().0@ == b.last().0@ && a.last().1@ == b.last().1@);
        if keys_unique(a) {
            assert forall|i: int, j: int|
                0 <= i < j < b.len() implies (#[trigger] b[i]).0@ != (#[trigger] b[j]).0@ by {
                assert(a[i].0@ != a[j].0@);
                assert(b[i].0@ == a[i].0@ && b[j].0@ == a[j].0@);
            }
        }
    } else {
        assert(b.len() == 0);
    }
}

} // verus!
