//! Schema discovery: the sorted, deduplicated names of all fields of a source.
use vstd::prelude::*;

use crate::record::Record;
use crate::text::{lemma_lex_irreflexive, lemma_lex_total, lemma_lex_transitive, lex_less, lex_lt};

verus! {

/// The records of `rows`, as maps.
pub open spec fn rows_view(rows: Seq<Record>) -> Seq<Map<Seq<char>, Seq<char>>> {
    rows.map_values(|r: Record| r@)
}

/// The texts of `names`.
pub open spec fn names_view(names: Seq<String>) -> Seq<Seq<char>> {
    names.map_values(|s: String| s@)
}

/// Every name that some record of `rows` has.
pub open spec fn keys_of(rows: Seq<Map<Seq<char>, Seq<char>>>) -> Set<Seq<char>>
    decreases rows.len(),
{
    if rows.len() == 0 {
        Set::empty()
    } else {
        keys_of(rows.drop_last()).union(rows.last().dom())
    }
}

/// Each name comes before every later one, so none is repeated.
pub open spec fn strictly_sorted(s: Seq<Seq<char>>) -> bool {
    forall|i: int, j: int| 0 <= i < j < s.len() ==> lex_lt(#[trigger] s[i], #[trigger] s[j])
}

/// `schema` is the schema of `rows`: all their names, sorted, each once.
pub open spec fn is_schema_of(schema: Seq<Seq<char>>, rows: Seq<Map<Seq<char>, Seq<char>>>) -> bool {
    strictly_sorted(schema) && schema.to_set() == keys_of(rows)
}

/// A strictly sorted sequence holds no name twice.
pub proof fn lemma_sorted_distinct(s: Seq<Seq<char>>, i: int, j: int)
    requires
        strictly_sorted(s),
        0 <= i < s.len(),
        0 <= j < s.len(),
        i != j,
    ensures
        s[i] != s[j],
{
    if i < j {
        if s[i] == s[j] {
            lemma_lex_irreflexive(s[i]);
        }
    } else {
        if s[i] == s[j] {
            lemma_lex_irreflexive(s[j]);
        }
    }
}

/// Adds `key` to a strictly sorted list of names, where it is not yet.
fn insert_sorted(names: &mut Vec<String>, key: &String)
    requires
        strictly_sorted(names_view(old(names)@)),
    ensures
        strictly_sorted(names_view(final(names)@)),
        names_view(final(names)@).to_set() == names_view(old(names)@).to_set().insert(key@),
{
    let ghost s = names_view(names@);
    let mut i: usize = 0;
    while i < names.len() && lex_less(names[i].as_str(), key.as_str())
        invariant
            i <= names.len(),
            s == names_view(names@),
            names@ == old(names)@,
            strictly_sorted(s),
            forall|j: int| 0 <= j < i ==> lex_lt(#[trigger] s[j], key@),
        decreases names.len() - i,
    {
        i = i + 1;
    }
    if i < names.len() && names[i] == *key {
        assert(s.to_set() =~= s.to_set().insert(key@)) by {
            assert(s[i as int] == key@);
        }
        return;
    }
    if i < names.len() {
        proof {
            lemma_lex_total(s[i as int], key@);
        }
    }
    names.insert(i, key.clone());
    proof {
        let t = names_view(names@);
        assert(t =~= s.insert(i as int, key@));
        assert forall|a: int, b: int| 0 <= a < b < t.len() implies lex_lt(#[trigger] t[a], #[trigger] t[b]) by {
            if b < i {
            } else if b == i {
            } else if a < i {
                assert(t[b] == s[b - 1]);
                if b - 1 > i {
                    lemma_lex_transitive(key@, s[i as int], s[b - 1]);
                }
                lemma_lex_transitive(t[a], key@, t[b]);
            } else if a == i {
                assert(t[b] == s[b - 1]);
                if b - 1 > i {
                    lemma_lex_transitive(key@, s[i as int], s[b - 1]);
                }
            } else {
                assert(t[a] == s[a - 1] && t[b] == s[b - 1]);
            }
        }
        assert forall|x: Seq<char>| #[trigger] t.to_set().contains(x) <==> s.to_set().insert(key@).contains(x) by {
            if t.to_set().contains(x) {
                let k = choose|k: int| 0 <= k < t.len() && t[k] == x;
                if k < i {
                    assert(s[k] == x);
                } else if k > i {
                    assert(s[k - 1] == x);
                }
            }
            if s.to_set().contains(x) {
                let k = choose|k: int| 0 <= k < s.len() && s[k] == x;
                if k < i {
                    assert(t[k] == x);
                } else {
                    assert(t[k + 1] == x);
                }
            }
            if x == key@ {
                assert(t[i as int] == x);
            }
        }
        assert(t.to_set() =~= s.to_set().insert(key@));
    }
}

/// Adds the names of `rec` to a schema under construction: the result is
/// still sorted with each name once, and holds the old names and those of `rec`.
pub fn merge_keys(names: &mut Vec<String>, rec: &Record)
    requires
        strictly_sorted(names_view(old(names)@)),
    ensures
        strictly_sorted(names_view(final(names)@)),
        names_view(final(names)@).to_set() == names_view(old(names)@).to_set().union(rec@.dom()),
{
    let len = rec.len();
    let ghost base = names_view(names@).to_set();
    let ghost es = rec.entry_seq();
    for e in 0..len
        invariant
            len == es.len(),
            es == rec.entry_seq(),
            strictly_sorted(names_view(names@)),
            names_view(names@).to_set() == base.union(
                es.take(e as int).map_values(|p: (Seq<char>, Seq<char>)| p.0).to_set(),
            ),
    {
        let key = rec.key_at(e);
        insert_sorted(names, key);
        proof {
            let ks0 = es.take(e as int).map_values(|p: (Seq<char>, Seq<char>)| p.0);
            let ks1 = es.take(e + 1).map_values(|p: (Seq<char>, Seq<char>)| p.0);
            assert(ks1 =~= ks0.push(key@));
            assert(ks1.to_set() =~= ks0.to_set().insert(key@)) by {
                assert forall|x: Seq<char>| #[trigger] ks1.to_set().contains(x) implies ks0.to_set().insert(
                    key@,
                ).contains(x) by {
                    let k = choose|k: int| 0 <= k < ks1.len() && ks1[k] == x;
                    if k < ks0.len() {
                        assert(ks0[k] == x);
                    }
                }
                assert forall|x: Seq<char>| #[trigger] ks0.to_set().contains(x) implies ks1.to_set().contains(x) by {
                    let k = choose|k: int| 0 <= k < ks0.len() && ks0[k] == x;
                    assert(ks1[k] == x);
                }
                assert(ks1[e as int] == key@);
            }
            assert(names_view(names@).to_set() =~= base.union(ks1.to_set()));
        }
    }
    proof {
        let ks = es.take(len as int).map_values(|p: (Seq<char>, Seq<char>)| p.0);
        assert(es.take(len as int) =~= es);
        assert(ks.to_set() =~= rec@.dom()) by {
            assert forall|x: Seq<char>| #[trigger] ks.to_set().contains(x) implies rec@.dom().contains(x) by {
                let k = choose|k: int| 0 <= k < ks.len() && ks[k] == x;
                assert(ks[k] == es[k].0);
            }
            assert forall|x: Seq<char>| #[trigger] rec@.dom().contains(x) implies ks.to_set().contains(x) by {
                let k = choose|k: int| 0 <= k < len && (#[trigger] es[k]).0 == x;
                assert(ks[k] == x);
            }
        }
    }
}

/// The schema of `rows`: every field name that occurs in them, sorted by
/// code point, each once.
pub fn discover_schema(rows: &[Record]) -> (r: Vec<String>)
    ensures
        is_schema_of(names_view(r@), rows_view(rows@)),
{
    let mut names: Vec<String> = Vec::new();
    let ghost rv = rows_view(rows@);
    assert(names_view(names@).to_set() =~= keys_of(rv.take(0)));
    for n in 0..rows.len()
        invariant
            rv == rows_view(rows@),
            strictly_sorted(names_view(names@)),
            names_view(names@).to_set() == keys_of(rv.take(n as int)),
    {
        merge_keys(&mut names, &rows[n]);
        assert(rv.take(n + 1).drop_last() =~= rv.take(n as int));
        assert(rv.take(n + 1).last() == rows@[n as int]@);
    }
    assert(rv.take(rows.len() as int) =~= rv);
    names
}


/// The schema of a set of rows is unique: two strictly sorted sequences that
/// hold the same names are the same sequence.
pub proof fn lemma_schema_unique(s1: Seq<Seq<char>>, s2: Seq<Seq<char>>)
    requires
        strictly_sorted(s1),
        strictly_sorted(s2),
        s1.to_set() == s2.to_set(),
    ensures
        s1 == s2,
{
    assert forall|i: int| 0 <= i < s1.len() && 0 <= i < s2.len() implies s1[i] == s2[i] by {
        lemma_sorted_prefix_equal(s1, s2, i);
    }
    lemma_common_prefix_len(s1, s2);
    lemma_common_prefix_len(s2, s1);
    assert(s1 =~= s2);
}

proof fn lemma_common_prefix_len(a: Seq<Seq<char>>, b: Seq<Seq<char>>)
    requires
        strictly_sorted(a),
        strictly_sorted(b),
        a.to_set() == b.to_set(),
        forall|i: int| 0 <= i < a.len() && 0 <= i < b.len() ==> a[i] == b[i],
    ensures
        a.len() <= b.len(),
{
    if a.len() > b.len() {
        let x = a[b.len() as int];
        assert(a.to_set().contains(x));
        let m = choose|m: int| 0 <= m < b.len() && b[m] == x;
        assert(a[m] == x);
        lemma_sorted_distinct(a, m, b.len() as int);
    }
}

proof fn lemma_sorted_prefix_equal(s1: Seq<Seq<char>>, s2: Seq<Seq<char>>, i: int)
    requires
        strictly_sorted(s1),
        strictly_sorted(s2),
        s1.to_set() == s2.to_set(),
        0 <= i < s1.len(),
        0 <= i < s2.len(),
    ensures
        s1[i] == s2[i],
    decreases i,
{
    assert forall|k: int| 0 <= k < i implies s1[k] == s2[k] by {
        lemma_sorted_prefix_equal(s1, s2, k);
    }
    assert(s1.to_set().contains(s1[i]));
    let m = choose|m: int| 0 <= m < s2.len() && s2[m] == s1[i];
    assert(s2.to_set().contains(s2[i]));
    let n = choose|n: int| 0 <= n < s1.len() && s1[n] == s2[i];
    if m < i {
        assert(s1[m] == s2[m]);
        lemma_sorted_distinct(s1, m, i);
    }
    if n < i {
        assert(s1[n] == s2[n]);
        lemma_sorted_distinct(s2, n, i);
    }
    if m > i && n > i {
        assert(lex_lt(s2[i], s2[m]));
        assert(lex_lt(s1[i], s1[n]));
        lemma_lex_transitive(s2[i], s1[i], s2[i]);
        lemma_lex_irreflexive(s2[i]);
    }
}

} // verus!
