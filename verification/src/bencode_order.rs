//! The byte order of dictionary keys, and the fact that every value the
//! parser reads is well formed: its dictionaries hold their keys in strictly
//! increasing order, as the canonical encoding writes them.

use crate::bencode_parser::{
    dict_get, dict_insert, encode, key_pos, keys_increase, lemma_key_pos_after_all, lex_lt, parse_at, parse_entries, parse_items, wf,
    wf_entries, wf_list, Bencode, Parsed,
};
use vstd::prelude::*;

verus! {

/// No byte string comes before itself.
pub proof fn lemma_lex_irreflexive(a: Seq<u8>)
    ensures
        !lex_lt(a, a),
    decreases a.len(),
{
    if a.len() > 0 {
        lemma_lex_irreflexive(a.subrange(1, a.len() as int));
    }
}

/// The byte order is transitive.
pub proof fn lemma_lex_transitive(a: Seq<u8>, b: Seq<u8>, c: Seq<u8>)
    requires
        lex_lt(a, b),
        lex_lt(b, c),
    ensures
        lex_lt(a, c),
    decreases a.len(),
{
    if a.len() > 0 && b.len() > 0 && c.len() > 0 && a[0] == b[0] && b[0] == c[0] {
        lemma_lex_transitive(a.subrange(1, a.len() as int), b.subrange(1, b.len() as int), c.subrange(1, c.len() as int));
    }
}

/// Of two different byte strings, one comes before the other.
pub proof fn lemma_lex_total(a: Seq<u8>, b: Seq<u8>)
    requires
        a != b,
    ensures
        lex_lt(a, b) || lex_lt(b, a),
    decreases a.len(),
{
    if a.len() == 0 && b.len() == 0 {
        assert(a =~= b);
    } else if a.len() > 0 && b.len() > 0 && a[0] == b[0] {
        let ta = a.subrange(1, a.len() as int);
        let tb = b.subrange(1, b.len() as int);
        if ta == tb {
            assert(ta.len() == tb.len());
            assert(a.len() == b.len());
            assert forall|i: int| 0 <= i < a.len() implies a[i] == b[i] by {
                if i > 0 {
                    assert(a[i] == ta[i - 1]);
                    assert(b[i] == tb[i - 1]);
                }
            }
            assert(a =~= b);
        } else {
            lemma_lex_total(ta, tb);
        }
    }
}

/// In a dictionary with increasing keys, the keys before `key_pos(d, k)`
/// come before `k` and the others do not.
pub proof fn lemma_key_pos_split(d: Seq<(Seq<u8>, Bencode)>, k: Seq<u8>)
    requires
        keys_increase(d),
    ensures
        key_pos(d, k) <= d.len(),
        forall|i: int| 0 <= i < key_pos(d, k) ==> lex_lt(#[trigger] d[i].0, k),
        forall|i: int| key_pos(d, k) <= i < d.len() ==> !lex_lt(#[trigger] d[i].0, k),
    decreases d.len(),
{
    if d.len() > 0 {
        let rest = d.subrange(1, d.len() as int);
        assert(keys_increase(rest)) by {
            assert forall|i: int, j: int| 0 <= i < j < rest.len() implies lex_lt(#[trigger] rest[i].0, #[trigger] rest[j].0) by {
                assert(rest[i] == d[i + 1]);
                assert(rest[j] == d[j + 1]);
            }
        }
        lemma_key_pos_split(rest, k);
        if lex_lt(d[0].0, k) {
            assert forall|i: int| 0 <= i < key_pos(d, k) implies lex_lt(#[trigger] d[i].0, k) by {
                if i > 0 {
                    assert(d[i] == rest[i - 1]);
                }
            }
            assert forall|i: int| key_pos(d, k) <= i < d.len() implies !lex_lt(#[trigger] d[i].0, k) by {
                assert(d[i] == rest[i - 1]);
            }
        } else {
            assert forall|i: int| key_pos(d, k) <= i < d.len() implies !lex_lt(#[trigger] d[i].0, k) by {
                if i > 0 && lex_lt(d[i].0, k) {
                    assert(lex_lt(d[0].0, d[i].0));
                    lemma_lex_transitive(d[0].0, d[i].0, k);
                }
            }
        }
    }
}

/// Every entry's value is well formed, in the recursive form and entry by
/// entry alike.
pub proof fn lemma_wf_entries_each(d: Seq<(Seq<u8>, Bencode)>)
    ensures
        wf_entries(d) <==> forall|j: int| 0 <= j < d.len() ==> wf(#[trigger] d[j].1),
    decreases d.len(),
{
    if d.len() > 0 {
        let rest = d.subrange(1, d.len() as int);
        lemma_wf_entries_each(rest);
        if wf_entries(d) {
            assert forall|j: int| 0 <= j < d.len() implies wf(#[trigger] d[j].1) by {
                if j > 0 {
                    assert(d[j] == rest[j - 1]);
                }
            }
        }
        if forall|j: int| 0 <= j < d.len() ==> wf(#[trigger] d[j].1) {
            assert forall|j: int| 0 <= j < rest.len() implies wf(#[trigger] rest[j].1) by {
                assert(rest[j] == d[j + 1]);
            }
        }
    }
}

/// Every item is well formed, in the recursive form and item by item alike.
pub proof fn lemma_wf_list_each(l: Seq<Bencode>)
    ensures
        wf_list(l) <==> forall|j: int| 0 <= j < l.len() ==> wf(#[trigger] l[j]),
    decreases l.len(),
{
    if l.len() > 0 {
        let rest = l.subrange(1, l.len() as int);
        lemma_wf_list_each(rest);
        if wf_list(l) {
            assert forall|j: int| 0 <= j < l.len() implies wf(#[trigger] l[j]) by {
                if j > 0 {
                    assert(l[j] == rest[j - 1]);
                }
            }
        }
        if forall|j: int| 0 <= j < l.len() ==> wf(#[trigger] l[j]) {
            assert forall|j: int| 0 <= j < rest.len() implies wf(#[trigger] rest[j]) by {
                assert(rest[j] == l[j + 1]);
            }
        }
    }
}

/// Storing a well-formed value in a dictionary with increasing keys keeps
/// the keys increasing and every value well formed.
pub proof fn lemma_dict_insert_ordered(d: Seq<(Seq<u8>, Bencode)>, k: Seq<u8>, v: Bencode)
    requires
        keys_increase(d),
        forall|j: int| 0 <= j < d.len() ==> wf(#[trigger] d[j].1),
        wf(v),
    ensures
        keys_increase(dict_insert(d, k, v)),
        forall|j: int| 0 <= j < dict_insert(d, k, v).len() ==> wf(#[trigger] dict_insert(d, k, v)[j].1),
{
    lemma_key_pos_split(d, k);
    let p = key_pos(d, k) as int;
    let e = dict_insert(d, k, v);
    if p < d.len() && d[p].0 == k {
        assert(e == d.update(p, (k, v)));
        assert forall|i: int, j: int| 0 <= i < j < e.len() implies lex_lt(#[trigger] e[i].0, #[trigger] e[j].0) by {
            assert(e[i].0 == d[i].0);
            assert(e[j].0 == d[j].0);
        }
    } else {
        assert(e == d.insert(p, (k, v)));
        assert forall|i: int, j: int| 0 <= i < j < e.len() implies lex_lt(#[trigger] e[i].0, #[trigger] e[j].0) by {
            if j < p {
                assert(e[i] == d[i] && e[j] == d[j]);
            } else if j == p {
                assert(e[i] == d[i]);
            } else if i < p {
                assert(e[i] == d[i] && e[j] == d[j - 1]);
                assert(lex_lt(d[i].0, d[j - 1].0));
            } else if i == p {
                assert(e[j] == d[j - 1]);
                assert(!lex_lt(d[j - 1].0, k));
                if d[j - 1].0 == k {
                    if j - 1 > p {
                        assert(lex_lt(d[p].0, d[j - 1].0));
                    }
                }
                assert(d[j - 1].0 != k);
                lemma_lex_total(k, d[j - 1].0);
            } else {
                assert(e[i] == d[i - 1] && e[j] == d[j - 1]);
                assert(lex_lt(d[i - 1].0, d[j - 1].0));
            }
        }
        assert forall|j: int| 0 <= j < e.len() implies wf(#[trigger] e[j].1) by {
            if j < p {
                assert(e[j] == d[j]);
            } else if j > p {
                assert(e[j] == d[j - 1]);
            }
        }
    }
}

/// A value found under a key of a well-formed dictionary is well formed.
pub proof fn lemma_dict_get_wf(d: Seq<(Seq<u8>, Bencode)>, k: Seq<u8>)
    requires
        wf_entries(d),
    ensures
        dict_get(d, k) matches Some(x) ==> wf(x),
    decreases d.len(),
{
    if d.len() > 0 && d[0].0 != k {
        lemma_dict_get_wf(d.subrange(1, d.len() as int), k);
    }
}

/// Every value the parser reads at `pos` is well formed.
pub proof fn lemma_parse_at_wf(data: Seq<u8>, pos: int)
    ensures
        parse_at(data, pos) matches Parsed::Value(v, _) ==> wf(v),
    decreases data.len() - pos, 0int,
{
    if 0 <= pos < data.len() {
        if data[pos] == 108u8 {
            lemma_parse_items_wf(data, pos + 1, Seq::empty());
        } else if data[pos] == 100u8 {
            lemma_parse_entries_wf(data, pos + 1, Seq::empty());
        }
    }
}

/// The rest of a list whose items so far are well formed is well formed.
pub proof fn lemma_parse_items_wf(data: Seq<u8>, pos: int, acc: Seq<Bencode>)
    requires
        forall|j: int| 0 <= j < acc.len() ==> wf(#[trigger] acc[j]),
    ensures
        parse_items(data, pos, acc) matches Parsed::Value(v, _) ==> wf(v),
    decreases data.len() - pos, 1int,
{
    if 0 <= pos < data.len() {
        if data[pos] == 101u8 {
            lemma_wf_list_each(acc);
        } else {
            lemma_parse_at_wf(data, pos);
            match parse_at(data, pos) {
                Parsed::Value(v, next) => {
                    if pos < next <= data.len() {
                        let acc2 = acc.push(v);
                        assert forall|j: int| 0 <= j < acc2.len() implies wf(#[trigger] acc2[j]) by {
                            if j < acc.len() {
                                assert(acc2[j] == acc[j]);
                            }
                        }
                        lemma_parse_items_wf(data, next, acc2);
                    }
                },
                _ => {},
            }
        }
    }
}

/// The rest of a dictionary whose entries so far have increasing keys and
/// well-formed values is well formed.
pub proof fn lemma_parse_entries_wf(data: Seq<u8>, pos: int, acc: Seq<(Seq<u8>, Bencode)>)
    requires
        keys_increase(acc),
        forall|j: int| 0 <= j < acc.len() ==> wf(#[trigger] acc[j].1),
    ensures
        parse_entries(data, pos, acc) matches Parsed::Value(v, _) ==> wf(v),
    decreases data.len() - pos, 1int,
{
    if 0 <= pos < data.len() {
        if data[pos] == 101u8 {
            lemma_wf_entries_each(acc);
        } else {
            match parse_at(data, pos) {
                Parsed::Value(k, next) => match k {
                    Bencode::Str(key) => {
                        if pos < next <= data.len() {
                            lemma_parse_at_wf(data, next);
                            match parse_at(data, next) {
                                Parsed::Value(v, after) => {
                                    if next < after <= data.len() {
                                        lemma_dict_insert_ordered(acc, key, v);
                                        lemma_parse_entries_wf(data, after, dict_insert(acc, key, v));
                                    }
                                },
                                _ => {},
                            }
                        }
                    },
                    _ => {},
                },
                _ => {},
            }
        }
    }
}

/// The value a dictionary of any entry order stands for: every dictionary's
/// entries stored one after the other, as `dict_insert` stores them (keys in
/// increasing order, a repeated key keeping its last value), at every level.
pub open spec fn canonical(v: Bencode) -> Bencode
    decreases v, 1int,
{
    match v {
        Bencode::List(l) => Bencode::List(canonical_items(l)),
        Bencode::Dict(d) => Bencode::Dict(canonical_entries(d)),
        _ => v,
    }
}

/// The canonical form of each item.
pub open spec fn canonical_items(l: Seq<Bencode>) -> Seq<Bencode>
    decreases l, 0int,
{
    if l.len() == 0 {
        Seq::empty()
    } else {
        proof {
            assert(decreases_to!(l => l[l.len() - 1]));
        }
        canonical_items(l.drop_last()).push(canonical(l[l.len() - 1]))
    }
}

/// The entries stored one after the other, each value in canonical form.
pub open spec fn canonical_entries(d: Seq<(Seq<u8>, Bencode)>) -> Seq<(Seq<u8>, Bencode)>
    decreases d, 0int,
{
    if d.len() == 0 {
        Seq::empty()
    } else {
        proof {
            assert(decreases_to!(d => d[d.len() - 1]));
            assert(decreases_to!(d[d.len() - 1] => d[d.len() - 1].1));
        }
        dict_insert(canonical_entries(d.drop_last()), d[d.len() - 1].0, canonical(d[d.len() - 1].1))
    }
}

/// The canonical form of any value is well formed.
pub proof fn lemma_canonical_wf(v: Bencode)
    ensures
        wf(canonical(v)),
    decreases v, 1int,
{
    match v {
        Bencode::List(l) => {
            lemma_canonical_items_wf(l);
            lemma_wf_list_each(canonical_items(l));
        },
        Bencode::Dict(d) => {
            lemma_canonical_entries_wf(d);
            lemma_wf_entries_each(canonical_entries(d));
        },
        _ => {},
    }
}

/// The canonical items are the canonical forms of the items, each well
/// formed.
pub proof fn lemma_canonical_items_wf(l: Seq<Bencode>)
    ensures
        canonical_items(l).len() == l.len(),
        forall|j: int| 0 <= j < l.len() ==> #[trigger] canonical_items(l)[j] == canonical(l[j]),
        forall|j: int| 0 <= j < l.len() ==> wf(#[trigger] canonical_items(l)[j]),
    decreases l, 0int,
{
    if l.len() > 0 {
        assert(decreases_to!(l => l[l.len() - 1]));
        let init = l.drop_last();
        lemma_canonical_items_wf(init);
        lemma_canonical_wf(l[l.len() - 1]);
        let c = canonical_items(l);
        assert forall|j: int| 0 <= j < l.len() implies #[trigger] c[j] == canonical(l[j]) && wf(c[j]) by {
            if j < l.len() - 1 {
                assert(c[j] == canonical_items(init)[j]);
                assert(init[j] == l[j]);
            }
        }
    }
}

/// The canonical entries have increasing keys and well-formed values.
pub proof fn lemma_canonical_entries_wf(d: Seq<(Seq<u8>, Bencode)>)
    ensures
        keys_increase(canonical_entries(d)),
        forall|j: int| 0 <= j < canonical_entries(d).len() ==> wf(#[trigger] canonical_entries(d)[j].1),
    decreases d, 0int,
{
    if d.len() > 0 {
        assert(decreases_to!(d => d[d.len() - 1]));
        assert(decreases_to!(d[d.len() - 1] => d[d.len() - 1].1));
        lemma_canonical_entries_wf(d.drop_last());
        lemma_canonical_wf(d[d.len() - 1].1);
        lemma_dict_insert_ordered(canonical_entries(d.drop_last()), d[d.len() - 1].0, canonical(d[d.len() - 1].1));
    }
}

/// A well-formed value is its own canonical form.
pub proof fn lemma_canonical_of_wf(v: Bencode)
    requires
        wf(v),
    ensures
        canonical(v) == v,
    decreases v, 1int,
{
    match v {
        Bencode::List(l) => {
            lemma_wf_list_each(l);
            lemma_canonical_items_of_wf(l);
        },
        Bencode::Dict(d) => {
            lemma_wf_entries_each(d);
            lemma_canonical_entries_of_wf(d);
        },
        _ => {},
    }
}

/// Well-formed items are their own canonical items.
pub proof fn lemma_canonical_items_of_wf(l: Seq<Bencode>)
    requires
        forall|j: int| 0 <= j < l.len() ==> wf(#[trigger] l[j]),
    ensures
        canonical_items(l) == l,
    decreases l, 0int,
{
    if l.len() > 0 {
        assert(decreases_to!(l => l[l.len() - 1]));
        let init = l.drop_last();
        assert forall|j: int| 0 <= j < init.len() implies wf(#[trigger] init[j]) by {
            assert(init[j] == l[j]);
        }
        lemma_canonical_items_of_wf(init);
        lemma_canonical_of_wf(l[l.len() - 1]);
        assert(init.push(l[l.len() - 1]) =~= l);
    }
}

/// Entries with increasing keys and well-formed values are their own
/// canonical entries.
pub proof fn lemma_canonical_entries_of_wf(d: Seq<(Seq<u8>, Bencode)>)
    requires
        keys_increase(d),
        forall|j: int| 0 <= j < d.len() ==> wf(#[trigger] d[j].1),
    ensures
        canonical_entries(d) == d,
    decreases d, 0int,
{
    if d.len() > 0 {
        assert(decreases_to!(d => d[d.len() - 1]));
        assert(decreases_to!(d[d.len() - 1] => d[d.len() - 1].1));
        let init = d.drop_last();
        let last = d[d.len() - 1];
        assert forall|i: int, j: int| 0 <= i < j < init.len() implies lex_lt(#[trigger] init[i].0, #[trigger] init[j].0) by {
            assert(init[i] == d[i] && init[j] == d[j]);
        }
        assert forall|j: int| 0 <= j < init.len() implies wf(#[trigger] init[j].1) by {
            assert(init[j] == d[j]);
        }
        lemma_canonical_entries_of_wf(init);
        lemma_canonical_of_wf(last.1);
        assert forall|i: int| 0 <= i < init.len() implies lex_lt(#[trigger] init[i].0, last.0) by {
            assert(init[i] == d[i]);
        }
        lemma_key_pos_after_all(init, last.0);
        assert(init.insert(init.len() as int, (last.0, last.1)) =~= d);
    }
}

/// Parsing what `encode` writes for any value, whatever follows it, gives
/// back the value's canonical form, which is the value itself when it is
/// well formed: dictionaries come back with their keys in order and each
/// key once, with its last value.
pub proof fn roundtrip_parse_encode_any(v: Bencode, rest: Seq<u8>)
    requires
        encode(canonical(v)).len() + rest.len() <= usize::MAX,
    ensures
        parse_at(encode(canonical(v)) + rest, 0) == Parsed::Value(canonical(v), encode(canonical(v)).len() as int),
        wf(v) ==> canonical(v) == v,
{
    lemma_canonical_wf(v);
    crate::bencode_parser::roundtrip_parse_encode(canonical(v), rest);
    if wf(v) {
        lemma_canonical_of_wf(v);
    }
}

} // verus!
