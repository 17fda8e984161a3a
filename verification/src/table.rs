//! Small association tables held as lists of key-value entries with
//! distinct keys, seen as maps.

use vstd::prelude::*;

verus! {

/// The map a list of entries describes; a later entry for a key replaces
/// an earlier one.
pub open spec fn table_map<K, V>(s: Seq<(K, V)>) -> Map<K, V>
    decreases s.len(),
{
    if s.len() == 0 {
        Map::empty()
    } else {
        table_map(s.drop_last()).insert(s.last().0, s.last().1)
    }
}

/// No two entries share a key.
pub open spec fn keys_distinct<K, V>(s: Seq<(K, V)>) -> bool {
    forall|i: int, j: int| 0 <= i < j < s.len() ==> s[i].0 != s[j].0
}

/// The keys of the map are the keys of the entries, and with distinct keys
/// each entry's value is the value its key maps to.
pub proof fn lemma_table_map<K, V>(s: Seq<(K, V)>)
    ensures
        forall|k: K| #[trigger] table_map(s).contains_key(k) <==> exists|i: int| 0 <= i < s.len() && s[i].0 == k,
        keys_distinct(s) ==> forall|i: int| 0 <= i < s.len() ==> #[trigger] table_map(s)[s[i].0] == s[i].1,
    decreases s.len(),
{
    if s.len() > 0 {
        let p = s.drop_last();
        let x = s.last();
        lemma_table_map(p);
        assert(table_map(s) == table_map(p).insert(x.0, x.1));
        assert forall|k: K| #[trigger] table_map(s).contains_key(k) <==> exists|i: int| 0 <= i < s.len() && s[i].0 == k by {
            if k == x.0 {
                assert(s[s.len() - 1].0 == k);
            }
            if table_map(s).contains_key(k) && k != x.0 {
                assert(table_map(p).contains_key(k));
                let i = choose|i: int| 0 <= i < p.len() && p[i].0 == k;
                assert(s[i].0 == k);
            }
            if exists|i: int| 0 <= i < s.len() && s[i].0 == k {
                let i = choose|i: int| 0 <= i < s.len() && s[i].0 == k;
                if i < p.len() {
                    assert(p[i].0 == k);
                }
            }
        }
        if keys_distinct(s) {
            assert(keys_distinct(p));
            assert forall|i: int| 0 <= i < s.len() implies #[trigger] table_map(s)[s[i].0] == s[i].1 by {
                if i < p.len() {
                    assert(p[i] == s[i]);
                    assert(s[i].0 != s[s.len() - 1].0);
                    assert(table_map(p)[p[i].0] == p[i].1);
                }
            }
        }
    }
}

/// Replacing the value of an entry stores that value under its key.
pub proof fn lemma_table_update<K, V>(s: Seq<(K, V)>, i: int, v: V)
    requires
        0 <= i < s.len(),
        keys_distinct(s),
    ensures
        keys_distinct(s.update(i, (s[i].0, v))),
        table_map(s.update(i, (s[i].0, v))) == table_map(s).insert(s[i].0, v),
    decreases s.len(),
{
    let u = s.update(i, (s[i].0, v));
    let k = s[i].0;
    assert(keys_distinct(u)) by {
        assert forall|a: int, b: int| 0 <= a < b < u.len() implies u[a].0 != u[b].0 by {
            assert(u[a].0 == s[a].0);
            assert(u[b].0 == s[b].0);
        }
    }
    if i == s.len() - 1 {
        assert(u.drop_last() =~= s.drop_last());
        lemma_table_map(s.drop_last());
        assert(table_map(u) =~= table_map(s).insert(k, v));
    } else {
        let p = s.drop_last();
        assert(keys_distinct(p));
        lemma_table_update(p, i, v);
        assert(u.drop_last() =~= p.update(i, (p[i].0, v)));
        assert(s.last().0 != k);
        assert(table_map(u) =~= table_map(s).insert(k, v));
    }
}

/// Removing an entry removes its key.
pub proof fn lemma_table_remove<K, V>(s: Seq<(K, V)>, i: int)
    requires
        0 <= i < s.len(),
        keys_distinct(s),
    ensures
        keys_distinct(s.remove(i)),
        table_map(s.remove(i)) == table_map(s).remove(s[i].0),
    decreases s.len(),
{
    let r = s.remove(i);
    let k = s[i].0;
    assert(keys_distinct(r)) by {
        assert forall|a: int, b: int| 0 <= a < b < r.len() implies r[a].0 != r[b].0 by {
            let a2 = if a < i { a } else { a + 1 };
            let b2 = if b < i { b } else { b + 1 };
            assert(r[a] == s[a2]);
            assert(r[b] == s[b2]);
        }
    }
    if i == s.len() - 1 {
        assert(r =~= s.drop_last());
        lemma_table_map(s.drop_last());
        assert forall|j: int| 0 <= j < s.drop_last().len() implies s.drop_last()[j].0 != k by {
            assert(s[j].0 != s[i].0);
        }
        if table_map(s.drop_last()).contains_key(k) {
            let j = choose|j: int| 0 <= j < s.drop_last().len() && s.drop_last()[j].0 == k;
        }
        assert(table_map(r) =~= table_map(s).remove(k));
    } else {
        let p = s.drop_last();
        assert(keys_distinct(p));
        lemma_table_remove(p, i);
        assert(r.drop_last() =~= p.remove(i));
        assert(r.last() == s.last());
        assert(s.last().0 != k);
        assert(table_map(r) =~= table_map(s).remove(k));
    }
}

/// Appending an entry with a new key keeps keys distinct and adds the key.
pub proof fn lemma_table_push<K, V>(s: Seq<(K, V)>, k: K, v: V)
    requires
        keys_distinct(s),
        !table_map(s).contains_key(k),
    ensures
        keys_distinct(s.push((k, v))),
        table_map(s.push((k, v))) == table_map(s).insert(k, v),
{
    lemma_table_map(s);
    let t = s.push((k, v));
    assert(t.drop_last() =~= s);
    assert forall|a: int, b: int| 0 <= a < b < t.len() implies t[a].0 != t[b].0 by {
        if b == s.len() {
            assert(t[a] == s[a]);
            if s[a].0 == k {
                assert(table_map(s).contains_key(k));
            }
        }
    }
}

} // verus!
