//! The records of one source, in line order, with the traversals that schema
//! discovery and materialization share.
use vstd::prelude::*;

use crate::columnar::{batches_view, chunked, field_values, materialize, BatchView, ColumnBatch};
use crate::record::{extract, extracted, Record};
use crate::schema::{discover_schema, is_schema_of, lemma_schema_unique, names_view, rows_view};

verus! {

/// The elements of `s` at which `keep` holds, in order.
pub open spec fn select<A>(s: Seq<A>, keep: Seq<bool>) -> Seq<A>
    decreases s.len(),
{
    if s.len() == 0 || keep.len() == 0 {
        seq![]
    } else {
        let rest = select(s.drop_last(), keep.drop_last());
        if keep.last() {
            rest.push(s.last())
        } else {
            rest
        }
    }
}

/// A source converted to columns: its schema and its batches.
pub struct Conversion {
    /// The sorted, deduplicated field names; one column each.
    pub schema: Vec<String>,
    /// The column batches, in row order.
    pub batches: Vec<ColumnBatch>,
}

/// The parsed records of one source, in line order.
pub struct StatTrack {
    rows: Vec<Record>,
}

impl View for StatTrack {
    type V = Seq<Map<Seq<char>, Seq<char>>>;

    closed spec fn view(&self) -> Seq<Map<Seq<char>, Seq<char>>> {
        rows_view(self.rows@)
    }
}

impl StatTrack {
    /// The records themselves.
    pub closed spec fn records(&self) -> Seq<Record> {
        self.rows@
    }

    /// A source with no line yet.
    pub fn new() -> (r: Self)
        ensures
            r@ == Seq::<Map<Seq<char>, Seq<char>>>::empty(),
            r.records().len() == 0,
    {
        let r = StatTrack { rows: Vec::new() };
        assert(r@ =~= Seq::<Map<Seq<char>, Seq<char>>>::empty());
        r
    }

    /// Appends the record of the next line.
    pub fn push_line(&mut self, line: &str, permissive: bool)
        ensures
            final(self)@ == old(self)@.push(extracted(line@, permissive)),
            final(self).records().len() == old(self).records().len() + 1,
    {
        let rec = extract(line, permissive);
        self.rows.push(rec);
        assert(rows_view(self.rows@) =~= rows_view(old(self).rows@).push(extracted(line@, permissive)));
    }

    /// The records of `lines`, in order.
    pub fn from_lines(lines: &[String], permissive: bool) -> (r: Self)
        ensures
            r@ == lines@.map_values(|l: String| extracted(l@, permissive)),
    {
        let mut t = StatTrack::new();
        for i in 0..lines.len()
            invariant
                t@ == lines@.take(i as int).map_values(|l: String| extracted(l@, permissive)),
        {
            t.push_line(lines[i].as_str(), permissive);
            assert(lines@.take(i + 1).map_values(|l: String| extracted(l@, permissive)) =~= lines@.take(
                i as int,
            ).map_values(|l: String| extracted(l@, permissive)).push(extracted(lines@[i as int]@, permissive)));
        }
        assert(lines@.take(lines@.len() as int) =~= lines@);
        t
    }

    /// The number of records.
    pub fn num_rows(&self) -> (r: usize)
        ensures
            r == self@.len(),
            r == self.records().len(),
    {
        self.rows.len()
    }

    /// The records, in line order.
    pub fn rows(&self) -> (r: &[Record])
        ensures
            r@ == self.records(),
            rows_view(r@) == self@,
    {
        self.rows.as_slice()
    }

    /// The schema: every field name of every record, sorted, each once.
    pub fn get_column_names(&self) -> (r: Vec<String>)
        ensures
            is_schema_of(names_view(r@), self@),
    {
        discover_schema(self.rows.as_slice())
    }

    /// The record of line `row_index`, if there is one.
    pub fn get_row(&self, row_index: usize) -> (r: Option<&Record>)
        ensures
            r is Some <==> row_index < self@.len(),
            r is Some ==> r->0@ == self@[row_index as int],
    {
        if row_index < self.rows.len() {
            Some(&self.rows[row_index])
        } else {
            None
        }
    }

    /// The values of field `column_name`, record after record, skipping the
    /// records without it.
    pub fn get_column(&self, column_name: &str) -> (r: Vec<String>)
        ensures
            names_view(r@) == field_values(self@, column_name@),
    {
        let ghost rv = self@;
        let mut values: Vec<String> = Vec::new();
        assert(rv.skip(0) =~= rv);
        for i in 0..self.rows.len()
            invariant
                rv == rows_view(self.rows@),
                names_view(values@) + field_values(rv.skip(i as int), column_name@) == field_values(
                    rv,
                    column_name@,
                ),
        {
            assert(rv.skip(i as int).drop_first() =~= rv.skip(i + 1));
            assert(rv.skip(i as int)[0] == rv[i as int]);
            let ghost before = names_view(values@);
            let ghost rest = field_values(rv.skip(i + 1), column_name@);
            match self.rows[i].get(column_name) {
                Some(v) => {
                    values.push(v.clone());
                    assert(names_view(values@) =~= before.push(v@));
                    assert(names_view(values@) + rest =~= before + (seq![v@] + rest));
                },
                None => {},
            }
        }
        assert(rv.skip(rv.len() as int) =~= Seq::<Map<Seq<char>, Seq<char>>>::empty());
        assert(names_view(values@) =~= names_view(values@) + Seq::<Seq<char>>::empty());
        values
    }

    /// Visits the records in order until `callback` returns `false`, and
    /// returns how many it visited.
    pub fn for_each_row<F: Fn(&Record) -> bool>(&self, callback: F) -> (visited: usize)
        requires
            forall|i: int| 0 <= i < self.records().len() ==> callback.requires((&#[trigger] self.records()[i],)),
        ensures
            visited <= self@.len(),
            exists|answers: Seq<bool>|
                {
                    &&& #[trigger] answers.len() == visited
                    &&& forall|i: int|
                        0 <= i < visited ==> callback.ensures((&self.records()[i],), #[trigger] answers[i])
                    &&& forall|i: int| 0 <= i < visited - 1 ==> #[trigger] answers[i]
                    &&& visited < self@.len() ==> visited > 0 && !answers[visited - 1]
                },
    {
        let ghost mut answers: Seq<bool> = seq![];
        let mut i: usize = 0;
        while i < self.rows.len()
            invariant
                i <= self.rows.len(),
                forall|k: int| 0 <= k < self.records().len() ==> callback.requires((&#[trigger] self.records()[k],)),
                answers.len() == i,
                forall|k: int| 0 <= k < i ==> callback.ensures((&self.records()[k],), #[trigger] answers[k]),
                forall|k: int| 0 <= k < i ==> #[trigger] answers[k],
                self.records() == self.rows@,
            decreases self.rows.len() - i,
        {
            assert(self.records()[i as int] == self.rows@[i as int]);
            let go = callback(&self.rows[i]);
            let ghost before = answers;
            proof {
                answers = answers.push(go);
                assert(answers[i as int] == go);
                assert forall|k: int| 0 <= k < i implies answers[k] == before[k] by {}
            }
            i = i + 1;
            if !go {
                assert(answers.len() == i);
                assert(forall|k: int| 0 <= k < i ==> callback.ensures((&self.records()[k],), #[trigger] answers[k]));
                assert(forall|k: int| 0 <= k < i - 1 ==> #[trigger] answers[k]);
                assert(!answers[i - 1]);
                return i;
            }
        }
        assert(answers.len() == i);
        assert(forall|k: int| 0 <= k < i ==> callback.ensures((&self.records()[k],), #[trigger] answers[k]));
        assert(forall|k: int| 0 <= k < i - 1 ==> #[trigger] answers[k]);
        i
    }

    /// The records on which `predicate` holds, in order.
    pub fn filter_rows<F: Fn(&Record) -> bool>(&self, predicate: F) -> (r: Vec<Record>)
        requires
            forall|i: int| 0 <= i < self.records().len() ==> predicate.requires((&#[trigger] self.records()[i],)),
        ensures
            exists|keep: Seq<bool>|
                {
                    &&& #[trigger] keep.len() == self@.len()
                    &&& forall|i: int|
                        0 <= i < keep.len() ==> predicate.ensures((&self.records()[i],), #[trigger] keep[i])
                    &&& rows_view(r@) == select(self@, keep)
                },
    {
        let ghost mut keep: Seq<bool> = seq![];
        let ghost rv = self@;
        let mut out: Vec<Record> = Vec::new();
        for i in 0..self.rows.len()
            invariant
                rv == rows_view(self.rows@),
                forall|k: int| 0 <= k < self.records().len() ==> predicate.requires((&#[trigger] self.records()[k],)),
                keep.len() == i,
                forall|k: int| 0 <= k < i ==> predicate.ensures((&self.records()[k],), #[trigger] keep[k]),
                rows_view(out@) == select(rv.take(i as int), keep),
                self.records() == self.rows@,
        {
            assert(self.records()[i as int] == self.rows@[i as int]);
            let yes = predicate(&self.rows[i]);
            let ghost before = rows_view(out@);
            let ghost old_keep = keep;
            if yes {
                out.push(self.rows[i].clone());
                assert(rows_view(out@) =~= before.push(rv[i as int]));
            }
            proof {
                keep = keep.push(yes);
                assert(rv.take(i + 1).drop_last() =~= rv.take(i as int));
                assert(keep.drop_last() =~= old_keep);
                assert(rv.take(i + 1).last() == rv[i as int]);
                assert forall|k: int| 0 <= k < i + 1 implies predicate.ensures(
                    (&self.records()[k],),
                    #[trigger] keep[k],
                ) by {
                    if k < i {
                        assert(keep[k] == old_keep[k]);
                    }
                }
            }
        }
        assert(rv.take(rv.len() as int) =~= rv);
        assert(keep.len() == self@.len());
        out
    }

    /// A left fold of `reducer` over the records, from `init`.
    pub fn aggregate<T, F: Fn(T, &Record) -> T>(&self, init: T, reducer: F) -> (r: T)
        requires
            forall|acc: T, i: int|
                0 <= i < self.records().len() ==> reducer.requires((acc, &#[trigger] self.records()[i])),
        ensures
            exists|accs: Seq<T>|
                {
                    &&& #[trigger] accs.len() == self@.len() + 1
                    &&& accs[0] == init
                    &&& accs.last() == r
                    &&& forall|i: int|
                        0 <= i < self@.len() ==> reducer.ensures(
                            (accs[i], &self.records()[i]),
                            #[trigger] accs[i + 1],
                        )
                },
    {
        let ghost mut accs: Seq<T> = seq![init];
        let mut acc = init;
        for i in 0..self.rows.len()
            invariant
                forall|a: T, k: int|
                    0 <= k < self.records().len() ==> reducer.requires((a, &#[trigger] self.records()[k])),
                accs.len() == i + 1,
                accs[0] == init,
                accs.last() == acc,
                forall|k: int| 0 <= k < i ==> reducer.ensures((accs[k], &self.records()[k]), #[trigger] accs[k + 1]),
                self.records() == self.rows@,
                self@ == rows_view(self.rows@),
        {
            assert(self.records()[i as int] == self.rows@[i as int]);
            let ghost prev = accs;
            acc = reducer(acc, &self.rows[i]);
            proof {
                accs = accs.push(acc);
                assert forall|k: int| 0 <= k < i + 1 implies reducer.ensures(
                    (accs[k], &self.records()[k]),
                    #[trigger] accs[k + 1],
                ) by {
                    if k < i {
                        assert(accs[k] == prev[k] && accs[k + 1] == prev[k + 1]);
                    }
                }
            }
        }
        assert(accs.len() == self@.len() + 1);
        acc
    }

    /// The whole source as columns: its schema, and its records in batches of
    /// `chunk_capacity` rows under that schema.
    pub fn to_batches(&self, chunk_capacity: usize) -> (r: Conversion)
        requires
            chunk_capacity > 0,
        ensures
            is_schema_of(names_view(r.schema@), self@),
            batches_view(r.batches@) == chunked(self@, names_view(r.schema@), chunk_capacity as nat, 0),
    {
        let schema = discover_schema(self.rows.as_slice());
        let batches = materialize(self.rows.as_slice(), schema.as_slice(), chunk_capacity);
        Conversion { schema, batches }
    }
}

/// Converting the same records twice with the same chunk capacity gives the
/// same schema and the same batches: the output is a function of the records
/// and the capacity alone.
pub proof fn lemma_conversion_deterministic(
    rows: Seq<Map<Seq<char>, Seq<char>>>,
    cap: nat,
    schema1: Seq<Seq<char>>,
    batches1: Seq<BatchView>,
    schema2: Seq<Seq<char>>,
    batches2: Seq<BatchView>,
)
    requires
        is_schema_of(schema1, rows),
        batches1 == chunked(rows, schema1, cap, 0),
        is_schema_of(schema2, rows),
        batches2 == chunked(rows, schema2, cap, 0),
    ensures
        schema1 == schema2,
        batches1 == batches2,
{
    lemma_schema_unique(schema1, schema2);
}

} // verus!
