//! One telemetry line's fields: the marker heuristic, pairing of tokens and
//! the record that extraction yields.
use vstd::prelude::*;

use crate::number::{all_digits, is_float_literal, is_float_text};
use crate::text::{chars_of, split_tokens, tokens};

verus! {

/// A field as text: its name and the literal of its value.
pub type EntryView = (Seq<char>, Seq<char>);

pub open spec fn entry_views(e: Seq<(String, String)>) -> Seq<EntryView> {
    e.map_values(|p: (String, String)| (p.0@, p.1@))
}

pub open spec fn distinct_keys(s: Seq<EntryView>) -> bool {
    forall|i: int, j: int| 0 <= i < s.len() && 0 <= j < s.len() && i != j ==> s[i].0 != s[j].0
}

/// The map that inserting the entries of `s` in order builds; a later entry
/// overwrites an earlier one with the same name.
pub open spec fn pairs_map(s: Seq<EntryView>) -> Map<Seq<char>, Seq<char>>
    decreases s.len(),
{
    if s.len() == 0 {
        Map::empty()
    } else {
        pairs_map(s.drop_last()).insert(s.last().0, s.last().1)
    }
}

pub proof fn lemma_pairs_map_dom(s: Seq<EntryView>, k: Seq<char>)
    ensures
        pairs_map(s).dom().finite(),
        pairs_map(s).contains_key(k) <==> exists|i: int| 0 <= i < s.len() && (#[trigger] s[i]).0 == k,
    decreases s.len(),
{
    if s.len() > 0 {
        lemma_pairs_map_dom(s.drop_last(), k);
        if pairs_map(s).contains_key(k) && k != s.last().0 {
            let i = choose|i: int| 0 <= i < s.drop_last().len() && (#[trigger] s.drop_last()[i]).0 == k;
            assert(s[i] == s.drop_last()[i]);
        }
        if exists|i: int| 0 <= i < s.len() && (#[trigger] s[i]).0 == k {
            let i = choose|i: int| 0 <= i < s.len() && (#[trigger] s[i]).0 == k;
            if i < s.len() - 1 {
                assert(s.drop_last()[i] == s[i]);
            }
        }
    }
}

pub proof fn lemma_pairs_map_get(s: Seq<EntryView>, i: int)
    requires
        distinct_keys(s),
        0 <= i < s.len(),
    ensures
        pairs_map(s).contains_key(s[i].0),
        pairs_map(s)[s[i].0] == s[i].1,
    decreases s.len(),
{
    if i < s.len() - 1 {
        assert(s.drop_last()[i] == s[i]);
        assert(distinct_keys(s.drop_last()));
        lemma_pairs_map_get(s.drop_last(), i);
    }
}

pub proof fn lemma_pairs_map_len(s: Seq<EntryView>)
    requires
        distinct_keys(s),
    ensures
        pairs_map(s).dom().finite(),
        pairs_map(s).dom().len() == s.len(),
    decreases s.len(),
{
    lemma_pairs_map_dom(s, seq![]);
    if s.len() > 0 {
        let t = s.drop_last();
        assert(distinct_keys(t));
        lemma_pairs_map_len(t);
        lemma_pairs_map_dom(t, s.last().0);
        if pairs_map(t).contains_key(s.last().0) {
            let i = choose|i: int| 0 <= i < t.len() && (#[trigger] t[i]).0 == s.last().0;
            assert(s[i] == t[i]);
        }
    }
}

pub proof fn lemma_pairs_map_update(s: Seq<EntryView>, j: int, p: EntryView)
    requires
        distinct_keys(s),
        0 <= j < s.len(),
        p.0 == s[j].0,
    ensures
        pairs_map(s.update(j, p)) == pairs_map(s).insert(p.0, p.1),
    decreases s.len(),
{
    let u = s.update(j, p);
    if j == s.len() - 1 {
        assert(u.drop_last() =~= s.drop_last());
        assert(pairs_map(u) =~= pairs_map(s).insert(p.0, p.1));
    } else {
        let t = s.drop_last();
        assert(u.drop_last() =~= t.update(j, p));
        assert(distinct_keys(t));
        lemma_pairs_map_update(t, j, p);
        assert(s.last().0 != p.0);
        assert(pairs_map(u) =~= pairs_map(s).insert(p.0, p.1));
    }
}

/// One parsed line: field names mapped to the literals of their values.
pub struct Record {
    entries: Vec<(String, String)>,
}

impl Record {
    #[verifier::type_invariant]
    closed spec fn inv(&self) -> bool {
        &&& distinct_keys(entry_views(self.entries@))
        &&& forall|i: int| 0 <= i < self.entries@.len() ==> is_float_literal(#[trigger] self.entries@[i].1@)
    }

    /// The fields in the order in which they were first seen.
    pub closed spec fn entry_seq(&self) -> Seq<EntryView> {
        entry_views(self.entries@)
    }

    /// The number of fields; the names of the fields are unique, and they are
    /// the names that the record maps.
    pub fn len(&self) -> (r: usize)
        ensures
            r == self.entry_seq().len(),
            self@.dom().finite(),
            r == self@.dom().len(),
            distinct_keys(self.entry_seq()),
            forall|i: int| 0 <= i < r ==> self@.contains_key(#[trigger] self.entry_seq()[i].0)
                && self@[self.entry_seq()[i].0] == self.entry_seq()[i].1,
            forall|k: Seq<char>| #[trigger] self@.contains_key(k) ==> exists|i: int| 0 <= i < r
                && (#[trigger] self.entry_seq()[i]).0 == k,
    {
        proof {
            use_type_invariant(self);
            let s = self.entry_seq();
            lemma_pairs_map_len(s);
            assert forall|i: int| 0 <= i < s.len() implies self@.contains_key(#[trigger] s[i].0)
                && self@[s[i].0] == s[i].1 by {
                lemma_pairs_map_get(s, i);
            }
            assert forall|k: Seq<char>| #[trigger] self@.contains_key(k) implies exists|i: int| 0 <= i < s.len()
                && (#[trigger] s[i]).0 == k by {
                lemma_pairs_map_dom(s, k);
            }
        }
        self.entries.len()
    }

    /// Whether the record has no field.
    pub fn is_empty(&self) -> (r: bool)
        ensures
            r == (self@.dom().len() == 0),
    {
        self.len() == 0
    }

    /// The name of the `i`-th field.
    pub fn key_at(&self, i: usize) -> (r: &String)
        requires
            i < self.entry_seq().len(),
        ensures
            r@ == self.entry_seq()[i as int].0,
    {
        &self.entries[i].0
    }

    /// The value literal of the `i`-th field.
    pub fn value_at(&self, i: usize) -> (r: &String)
        requires
            i < self.entry_seq().len(),
        ensures
            r@ == self.entry_seq()[i as int].1,
    {
        &self.entries[i].1
    }

    /// The value literal of the field `key`, if the record has it.
    pub fn get(&self, key: &str) -> (r: Option<&String>)
        ensures
            r is Some <==> self@.contains_key(key@),
            r is Some ==> r->0@ == self@[key@] && is_float_literal(r->0@),
    {
        proof {
            use_type_invariant(self);
        }
        let ghost s = self.entry_seq();
        let k = key.to_owned();
        let mut i: usize = 0;
        while i < self.entries.len()
            invariant
                s == entry_views(self.entries@),
                distinct_keys(s),
                forall|j: int| 0 <= j < self.entries@.len() ==> is_float_literal(#[trigger] self.entries@[j].1@),
                k@ == key@,
                forall|j: int| 0 <= j < i ==> s[j].0 != key@,
            decreases self.entries.len() - i,
        {
            if self.entries[i].0 == k {
                proof {
                    lemma_pairs_map_get(s, i as int);
                    assert(is_float_literal(self.entries@[i as int].1@));
                }
                return Some(&self.entries[i].1);
            }
            i = i + 1;
        }
        proof {
            lemma_pairs_map_dom(s, key@);
        }
        None
    }
}

impl Clone for Record {
    fn clone(&self) -> (r: Self)
        ensures
            r.entry_seq() == self.entry_seq(),
            r@ == self@,
    {
        proof {
            use_type_invariant(self);
        }
        let mut entries: Vec<(String, String)> = Vec::new();
        for i in 0..self.entries.len()
            invariant
                entries@ == self.entries@.take(i as int),
        {
            let k = self.entries[i].0.clone();
            let v = self.entries[i].1.clone();
            entries.push((k, v));
            assert(entries@ =~= self.entries@.take(i + 1));
        }
        assert(self.entries@.take(self.entries@.len() as int) =~= self.entries@);
        Record { entries }
    }
}

impl View for Record {
    type V = Map<Seq<char>, Seq<char>>;

    open spec fn view(&self) -> Map<Seq<char>, Seq<char>> {
        pairs_map(self.entry_seq())
    }
}

/// Sets `key` to `value` in a list of entries with unique names.
fn put(entries: &mut Vec<(String, String)>, key: String, value: String)
    requires
        distinct_keys(entry_views(old(entries)@)),
        forall|i: int| 0 <= i < old(entries)@.len() ==> is_float_literal(#[trigger] old(entries)@[i].1@),
        is_float_literal(value@),
    ensures
        distinct_keys(entry_views(final(entries)@)),
        forall|i: int| 0 <= i < final(entries)@.len() ==> is_float_literal(#[trigger] final(entries)@[i].1@),
        pairs_map(entry_views(final(entries)@)) == pairs_map(entry_views(old(entries)@)).insert(key@, value@),
{
    let ghost s = entry_views(entries@);
    let mut i: usize = 0;
    while i < entries.len()
        invariant
            s == entry_views(entries@),
            entries@ == old(entries)@,
            distinct_keys(s),
            forall|j: int| 0 <= j < entries@.len() ==> is_float_literal(#[trigger] entries@[j].1@),
            is_float_literal(value@),
            forall|j: int| 0 <= j < i ==> s[j].0 != key@,
        decreases entries.len() - i,
    {
        if entries[i].0 == key {
            let ghost kv = key@;
            let ghost vv = value@;
            entries[i] = (key, value);
            proof {
                assert(entry_views(entries@) =~= s.update(i as int, (kv, vv)));
                lemma_pairs_map_update(s, i as int, (kv, vv));
                assert forall|a: int, b: int|
                    0 <= a < s.len() && 0 <= b < s.len() && a != b implies entry_views(entries@)[a].0
                    != entry_views(entries@)[b].0 by {
                    assert(entry_views(entries@)[a].0 == s[a].0);
                    assert(entry_views(entries@)[b].0 == s[b].0);
                }
            }
            return;
        }
        i = i + 1;
    }
    let ghost kv = key@;
    let ghost vv = value@;
    entries.push((key, value));
    proof {
        let t = entry_views(entries@);
        assert(t =~= s.push((kv, vv)));
        assert(t.drop_last() =~= s);
    }
}

/// `@strap` followed by nothing but digits.
pub open spec fn is_marker(t: Seq<char>) -> bool {
    &&& t.len() >= 6
    &&& t.take(6) == seq!['@', 's', 't', 'r', 'a', 'p']
    &&& all_digits(t.skip(6))
}

/// The tokens after the first marker, if there is one.
pub open spec fn after_marker(toks: Seq<Seq<char>>) -> Option<Seq<Seq<char>>>
    decreases toks.len(),
{
    if toks.len() == 0 {
        None
    } else if is_marker(toks[0]) {
        Some(toks.drop_first())
    } else {
        after_marker(toks.drop_first())
    }
}

/// The tokens of a line that carry fields: those after the first marker; with
/// no marker, all of them in permissive mode and none otherwise.
pub open spec fn payload(line: Seq<char>, permissive: bool) -> Seq<Seq<char>> {
    match after_marker(tokens(line)) {
        Some(rest) => rest,
        None => if permissive {
            tokens(line)
        } else {
            seq![]
        },
    }
}

/// The fields that the first `n` token pairs give: a pair whose value is not
/// the text of a number is left out, and a later name overwrites an earlier one.
pub open spec fn pairs_record(toks: Seq<Seq<char>>, n: nat) -> Map<Seq<char>, Seq<char>>
    decreases n,
{
    if n == 0 {
        Map::empty()
    } else {
        let m = pairs_record(toks, (n - 1) as nat);
        let key = toks[2 * (n - 1)];
        let value = toks[2 * (n - 1) + 1];
        if is_float_literal(value) {
            m.insert(key, value)
        } else {
            m
        }
    }
}

/// The fields of a token sequence; an unpaired last token is left out.
pub open spec fn record_of_tokens(toks: Seq<Seq<char>>) -> Map<Seq<char>, Seq<char>> {
    pairs_record(toks, toks.len() / 2)
}

/// The record that extraction yields for `line`.
pub open spec fn extracted(line: Seq<char>, permissive: bool) -> Map<Seq<char>, Seq<char>> {
    record_of_tokens(payload(line, permissive))
}

/// Whether `t` is a marker token.
pub fn is_marker_text(t: &str) -> (r: bool)
    ensures
        r == is_marker(t@),
{
    let cs = chars_of(t);
    if cs.len() < 6 {
        return false;
    }
    let prefix = cs[0] == '@' && cs[1] == 's' && cs[2] == 't' && cs[3] == 'r' && cs[4] == 'a' && cs[5]
        == 'p';
    if !prefix {
        assert(cs@.take(6) != seq!['@', 's', 't', 'r', 'a', 'p']) by {
            if cs@.take(6) == seq!['@', 's', 't', 'r', 'a', 'p'] {
                assert(cs@.take(6)[0] == '@');
                assert(cs@.take(6)[1] == 's');
                assert(cs@.take(6)[2] == 't');
                assert(cs@.take(6)[3] == 'r');
                assert(cs@.take(6)[4] == 'a');
                assert(cs@.take(6)[5] == 'p');
            }
        }
        return false;
    }
    assert(cs@.take(6) =~= seq!['@', 's', 't', 'r', 'a', 'p']);
    let mut i: usize = 6;
    while i < cs.len()
        invariant
            6 <= i <= cs.len(),
            cs@ == t@,
            cs@.take(6) == seq!['@', 's', 't', 'r', 'a', 'p'],
            forall|k: int| 6 <= k < i ==> crate::number::is_digit(cs@[k]),
        decreases cs.len() - i,
    {
        if !('0' <= cs[i] && cs[i] <= '9') {
            assert(cs@.skip(6)[i - 6] == cs@[i as int]);
            return false;
        }
        i = i + 1;
    }
    assert forall|k: int| 0 <= k < cs@.skip(6).len() implies crate::number::is_digit(
        #[trigger] cs@.skip(6)[k],
    ) by {
        assert(cs@.skip(6)[k] == cs@[k + 6]);
    }
    true
}

/// The fields of one line. With a marker token (`@strap` and optional digits)
/// on the line, the tokens after the first marker are read; without one, the
/// whole line is read when `permissive` holds, and nothing otherwise. Tokens are
/// read in pairs of name and value; an unpaired last token, and a pair whose
/// value is not the text of a number, are left out; a later name overwrites an
/// earlier one.
pub fn extract(line: &str, permissive: bool) -> (r: Record)
    ensures
        r@ == extracted(line@, permissive),
{
    let toks = split_tokens(line);
    let ghost tv = toks@.map_values(|t: String| t@);
    assert(tv == tokens(line@));
    let mut i: usize = 0;
    assert(tv.skip(0) =~= tv);
    while i < toks.len() && !is_marker_text(toks[i].as_str())
        invariant
            i <= toks.len(),
            tv == toks@.map_values(|t: String| t@),
            after_marker(tv.skip(i as int)) == after_marker(tv),
        decreases toks.len() - i,
    {
        assert(tv.skip(i as int).drop_first() =~= tv.skip(i + 1));
        i = i + 1;
    }
    let start: usize = if i < toks.len() {
        assert(tv.skip(i as int).drop_first() =~= tv.skip(i + 1));
        i + 1
    } else if permissive {
        0
    } else {
        toks.len()
    };
    let ghost p = tv.skip(start as int);
    assert(p =~= payload(line@, permissive));
    let mut entries: Vec<(String, String)> = Vec::new();
    let n: usize = (toks.len() - start) / 2;
    let mut k: usize = 0;
    while k < n
        invariant
            n == p.len() / 2,
            start + 2 * n <= toks.len(),
            p == tv.skip(start as int),
            tv == toks@.map_values(|t: String| t@),
            k <= n,
            distinct_keys(entry_views(entries@)),
            forall|j: int| 0 <= j < entries@.len() ==> is_float_literal(#[trigger] entries@[j].1@),
            pairs_map(entry_views(entries@)) == pairs_record(p, k as nat),
        decreases n - k,
    {
        let key = &toks[start + 2 * k];
        let value = &toks[start + 2 * k + 1];
        assert(p[2 * k as int] == key@);
        assert(p[2 * k + 1] == value@);
        let vc = chars_of(value.as_str());
        if is_float_text(vc.as_slice()) {
            put(&mut entries, key.clone(), value.clone());
        }
        k = k + 1;
    }
    Record { entries }
}


proof fn lemma_pairs_record_prefix(a: Seq<Seq<char>>, b: Seq<Seq<char>>, n: nat)
    requires
        2 * n <= a.len(),
        2 * n <= b.len(),
        forall|k: int| 0 <= k < 2 * n ==> a[k] == b[k],
    ensures
        pairs_record(a, n) == pairs_record(b, n),
    decreases n,
{
    if n > 0 {
        lemma_pairs_record_prefix(a, b, (n - 1) as nat);
        assert(a[2 * (n - 1)] == b[2 * (n - 1)]);
        assert(a[2 * (n - 1) + 1] == b[2 * (n - 1) + 1]);
    }
}

proof fn lemma_pairs_record_all(toks: Seq<Seq<char>>, n: nat)
    requires
        2 * n <= toks.len(),
        forall|i: int| 0 <= i < n ==> is_float_literal(#[trigger] toks[2 * i + 1]),
        forall|i: int, j: int|
            0 <= i < n && 0 <= j < n && i != j ==> #[trigger] toks[2 * i] != #[trigger] toks[2 * j],
    ensures
        pairs_record(toks, n).dom().finite(),
        pairs_record(toks, n).dom().len() == n,
        forall|i: int|
            0 <= i < n ==> pairs_record(toks, n).contains_key(#[trigger] toks[2 * i]) && pairs_record(
                toks,
                n,
            )[toks[2 * i]] == toks[2 * i + 1],
        forall|k: Seq<char>|
            #[trigger] pairs_record(toks, n).contains_key(k) ==> exists|i: int|
                0 <= i < n && #[trigger] toks[2 * i] == k,
    decreases n,
{
    if n > 0 {
        let m = (n - 1) as nat;
        lemma_pairs_record_all(toks, m);
        let key = toks[2 * (m as int)];
        assert(is_float_literal(toks[2 * (m as int) + 1]));
        if pairs_record(toks, m).contains_key(key) {
            let i = choose|i: int| 0 <= i < m && #[trigger] toks[2 * i] == key;
            assert(toks[2 * i] != toks[2 * (m as int)]);
        }
        let r = pairs_record(toks, n);
        assert forall|k: Seq<char>| #[trigger] r.contains_key(k) implies exists|i: int|
            0 <= i < n && #[trigger] toks[2 * i] == k by {
            if k != key {
                let i = choose|i: int| 0 <= i < m && #[trigger] toks[2 * i] == k;
                assert(0 <= i < n && toks[2 * i] == k);
            } else {
                assert(toks[2 * (m as int)] == k);
            }
        }
        assert forall|i: int| 0 <= i < n implies r.contains_key(#[trigger] toks[2 * i]) && r[toks[2 * i]]
            == toks[2 * i + 1] by {
            if i < m {
                assert(toks[2 * i] != key);
            }
        }
    }
}

/// A line whose payload is an even number of tokens, each value the text of a
/// number and each name distinct, yields one field per pair, named by the
/// name token and holding the value token.
pub proof fn lemma_valid_pairs_kept(line: Seq<char>, permissive: bool)
    requires
        payload(line, permissive).len() % 2 == 0,
        forall|i: int|
            0 <= i < payload(line, permissive).len() / 2 ==> is_float_literal(
                #[trigger] payload(line, permissive)[2 * i + 1],
            ),
        forall|i: int, j: int|
            0 <= i < payload(line, permissive).len() / 2 && 0 <= j < payload(line, permissive).len() / 2
                && i != j ==> #[trigger] payload(line, permissive)[2 * i] != #[trigger] payload(
                line,
                permissive,
            )[2 * j],
    ensures
        extracted(line, permissive).dom().finite(),
        extracted(line, permissive).dom().len() * 2 == payload(line, permissive).len(),
        forall|i: int|
            0 <= i < payload(line, permissive).len() / 2 ==> extracted(line, permissive).contains_key(
                #[trigger] payload(line, permissive)[2 * i],
            ) && extracted(line, permissive)[payload(line, permissive)[2 * i]] == payload(
                line,
                permissive,
            )[2 * i + 1],
{
    let p = payload(line, permissive);
    lemma_pairs_record_all(p, p.len() / 2);
}

/// An unpaired last token is dropped and nothing else: the line yields what
/// its payload without that token yields.
pub proof fn lemma_unpaired_token_dropped(line: Seq<char>, permissive: bool)
    requires
        payload(line, permissive).len() % 2 == 1,
    ensures
        extracted(line, permissive) == record_of_tokens(payload(line, permissive).drop_last()),
{
    let p = payload(line, permissive);
    lemma_pairs_record_prefix(p, p.drop_last(), p.len() / 2);
}

proof fn lemma_pairs_record_without(toks: Seq<Seq<char>>, i: int, n: nat)
    requires
        0 <= i,
        2 * i + 2 <= toks.len(),
        !is_float_literal(toks[2 * i + 1]),
        i < n,
        2 * n <= toks.len(),
    ensures
        pairs_record(toks, n) == pairs_record(toks.take(2 * i) + toks.skip(2 * i + 2), (n - 1) as nat),
    decreases n,
{
    let t = toks.take(2 * i) + toks.skip(2 * i + 2);
    if n == i + 1 {
        lemma_pairs_record_prefix(toks, t, i as nat);
    } else {
        lemma_pairs_record_without(toks, i, (n - 1) as nat);
        let m = (n - 2) as nat;
        assert(t[2 * (m as int)] == toks[2 * (n - 1)]);
        assert(t[2 * (m as int) + 1] == toks[2 * (n - 1) + 1]);
    }
}

/// A pair whose value is not the text of a number is dropped and nothing else:
/// the tokens yield what they yield without that pair.
pub proof fn lemma_invalid_pair_dropped(toks: Seq<Seq<char>>, i: int)
    requires
        0 <= i < toks.len() / 2,
        !is_float_literal(toks[2 * i + 1]),
    ensures
        record_of_tokens(toks) == record_of_tokens(toks.take(2 * i) + toks.skip(2 * i + 2)),
{
    let t = toks.take(2 * i) + toks.skip(2 * i + 2);
    assert(t.len() / 2 == toks.len() / 2 - 1);
    lemma_pairs_record_without(toks, i, (toks.len() / 2) as nat);
}

/// A marker takes priority over reading the raw line: where a line has one,
/// both modes yield the same record.
pub proof fn lemma_marker_priority(line: Seq<char>)
    requires
        after_marker(tokens(line)) is Some,
    ensures
        extracted(line, true) == extracted(line, false),
{
}

} // verus!
