//! Pieces of the relational queries that read the columnar output: checked
//! column identifiers and row filters rendered as SQL text.
use vstd::prelude::*;
use vstd::string::StringExecFns;

use crate::text::chars_of;

verus! {

/// A character that an identifier may hold.
pub open spec fn is_ident_char(c: char) -> bool {
    ||| ('a' <= c && c <= 'z')
    ||| ('A' <= c && c <= 'Z')
    ||| ('0' <= c && c <= '9')
    ||| c == ' '
    ||| c == '-'
    ||| c == '_'
    ||| c == '/'
    ||| c == '.'
    ||| c == ':'
}

pub open spec fn is_ident(s: Seq<char>) -> bool {
    forall|i: int| 0 <= i < s.len() ==> is_ident_char(#[trigger] s[i])
}

/// `s` between double quotes.
pub open spec fn quoted(s: Seq<char>) -> Seq<char> {
    seq!['"'] + s + seq!['"']
}

/// Why a text is not an identifier.
#[derive(Clone, Debug, PartialEq, Eq)]
pub enum IdentifierError {
    /// The text is empty.
    Empty,
    /// The text holds a character that an identifier may not hold; the text.
    Invalid(String),
}

/// A column or table name that was checked to hold only letters, digits,
/// spaces and `- _ / . :`, kept between double quotes so that it can stand
/// in a query as it is.
#[derive(Clone, Debug, PartialEq, Eq, Hash)]
pub struct ParsedString(String);

impl View for ParsedString {
    type V = Seq<char>;

    closed spec fn view(&self) -> Seq<char> {
        self.0@
    }
}

impl ParsedString {
    /// Checks `name` and quotes it.
    pub fn parse(name: &str) -> (r: Result<ParsedString, IdentifierError>)
        ensures
            name@.len() == 0 ==> r == Err::<ParsedString, IdentifierError>(IdentifierError::Empty),
            name@.len() > 0 && !is_ident(name@) ==> (r matches Err(IdentifierError::Invalid(s)) && s@ == name@),
            name@.len() > 0 && is_ident(name@) ==> (r matches Ok(p) && p@ == quoted(name@)),
    {
        let cs = chars_of(name);
        if cs.len() == 0 {
            return Err(IdentifierError::Empty);
        }
        for i in 0..cs.len()
            invariant
                cs@ == name@,
                forall|k: int| 0 <= k < i ==> is_ident_char(#[trigger] cs@[k]),
        {
            let c = cs[i];
            let ok = ('a' <= c && c <= 'z') || ('A' <= c && c <= 'Z') || ('0' <= c && c <= '9') || c
                == ' ' || c == '-' || c == '_' || c == '/' || c == '.' || c == ':';
            if !ok {
                return Err(IdentifierError::Invalid(name.to_owned()));
            }
        }
        let mut s = String::from_str("\"");
        s.append(name);
        s.append("\"");
        proof {
            reveal_strlit("\"");
            assert(s@ =~= quoted(name@));
        }
        Ok(ParsedString(s))
    }

    /// The quoted identifier.
    pub fn as_str(&self) -> (r: &str)
        ensures
            r@ == self@,
    {
        self.0.as_str()
    }
}

/// One side of a comparison.
#[derive(Clone, Debug, PartialEq, Eq, Hash)]
pub enum SQLFilterComparisonValue {
    Column(ParsedString),
    Number(String),
}

pub open spec fn value_sql(v: SQLFilterComparisonValue) -> Seq<char> {
    match v {
        SQLFilterComparisonValue::Column(c) => c@,
        SQLFilterComparisonValue::Number(n) => n@,
    }
}

impl SQLFilterComparisonValue {
    /// The value as it stands in a query.
    pub fn to_sql_text(&self) -> (r: String)
        ensures
            r@ == value_sql(*self),
    {
        match self {
            SQLFilterComparisonValue::Column(c) => c.as_str().to_owned(),
            SQLFilterComparisonValue::Number(n) => n.clone(),
        }
    }
}

/// How a comparison compares.
#[derive(Clone, Copy, Debug, PartialEq, Eq, Hash)]
pub enum SQLFilterComparisonOperation {
    Equal,
    NotEqual,
    GreaterThan,
    LessThan,
    GreaterThanOrEqual,
    LessThanOrEqual,
}

pub open spec fn operation_sql(o: SQLFilterComparisonOperation) -> Seq<char> {
    match o {
        SQLFilterComparisonOperation::Equal => seq!['='],
        SQLFilterComparisonOperation::NotEqual => seq!['!', '='],
        SQLFilterComparisonOperation::GreaterThan => seq!['>'],
        SQLFilterComparisonOperation::LessThan => seq!['<'],
        SQLFilterComparisonOperation::GreaterThanOrEqual => seq!['>', '='],
        SQLFilterComparisonOperation::LessThanOrEqual => seq!['<', '='],
    }
}

impl SQLFilterComparisonOperation {
    /// The operator as it stands in a query.
    pub fn to_sql_text(&self) -> (r: String)
        ensures
            r@ == operation_sql(*self),
    {
        let s = match self {
            SQLFilterComparisonOperation::Equal => "=",
            SQLFilterComparisonOperation::NotEqual => "!=",
            SQLFilterComparisonOperation::GreaterThan => ">",
            SQLFilterComparisonOperation::LessThan => "<",
            SQLFilterComparisonOperation::GreaterThanOrEqual => ">=",
            SQLFilterComparisonOperation::LessThanOrEqual => "<=",
        };
        proof {
            reveal_strlit("=");
            reveal_strlit("!=");
            reveal_strlit(">");
            reveal_strlit("<");
            reveal_strlit(">=");
            reveal_strlit("<=");
        }
        let r = s.to_owned();
        assert(r@ =~= operation_sql(*self));
        r
    }
}

/// One comparison: `left comparison right`.
#[derive(Clone, Debug, PartialEq, Eq, Hash)]
pub struct SQLFilterComparison {
    pub left: SQLFilterComparisonValue,
    pub comparison: SQLFilterComparisonOperation,
    pub right: SQLFilterComparisonValue,
}

pub open spec fn comparison_sql(c: SQLFilterComparison) -> Seq<char> {
    value_sql(c.left) + seq![' '] + operation_sql(c.comparison) + seq![' '] + value_sql(c.right)
}

impl SQLFilterComparison {
    /// The comparison as it stands in a query.
    pub fn to_sql(&self) -> (r: String)
        ensures
            r@ == comparison_sql(*self),
    {
        let mut s = self.left.to_sql_text();
        s.append(" ");
        let op = self.comparison.to_sql_text();
        s.append(op.as_str());
        s.append(" ");
        let right = self.right.to_sql_text();
        s.append(right.as_str());
        proof {
            reveal_strlit(" ");
            assert(s@ =~= comparison_sql(*self));
        }
        s
    }
}

/// The parts joined with `sep` between each two.
pub open spec fn join(parts: Seq<Seq<char>>, sep: Seq<char>) -> Seq<char>
    decreases parts.len(),
{
    if parts.len() == 0 {
        seq![]
    } else if parts.len() == 1 {
        parts[0]
    } else {
        join(parts.drop_last(), sep) + sep + parts.last()
    }
}

pub open spec fn or_sep() -> Seq<char> {
    seq![' ', 'O', 'R', ' ']
}

pub open spec fn and_sep() -> Seq<char> {
    seq![' ', 'A', 'N', 'D', ' ']
}

/// A group of alternatives: `(c1 OR c2 OR ...)`.
pub open spec fn group_sql(g: Seq<SQLFilterComparison>) -> Seq<char> {
    seq!['('] + join(g.map_values(|c: SQLFilterComparison| comparison_sql(c)), or_sep()) + seq![')']
}

/// All groups must hold: `(g1) AND (g2) AND ...`.
pub open spec fn filter_sql(groups: Seq<Vec<SQLFilterComparison>>) -> Seq<char> {
    join(groups.map_values(|g: Vec<SQLFilterComparison>| group_sql(g@)), and_sep())
}

/// A row filter: each inner list is a group of alternatives joined by `OR`,
/// and the groups are joined by `AND`.
#[derive(Clone, Debug, PartialEq, Eq, Hash)]
pub struct SQLFilter {
    pub conditions: Vec<Vec<SQLFilterComparison>>,
}

/// A filter that compares nothing.
pub open spec fn filter_is_empty(groups: Seq<Vec<SQLFilterComparison>>) -> bool {
    forall|i: int| 0 <= i < groups.len() ==> (#[trigger] groups[i])@.len() == 0
}

fn join_into(out: &mut String, parts: &Vec<String>, sep: &str)
    ensures
        final(out)@ == old(out)@ + join(parts@.map_values(|p: String| p@), sep@),
{
    let ghost start = out@;
    let ghost pv = parts@.map_values(|p: String| p@);
    for i in 0..parts.len()
        invariant
            pv == parts@.map_values(|p: String| p@),
            out@ == start + join(pv.take(i as int), sep@),
    {
        if i > 0 {
            out.append(sep);
        }
        out.append(parts[i].as_str());
        proof {
            let t = pv.take(i + 1);
            assert(t.drop_last() =~= pv.take(i as int));
            if i == 0 {
                assert(join(pv.take(0), sep@) =~= Seq::<char>::empty());
            }
            assert(out@ =~= start + join(t, sep@));
        }
    }
    assert(pv.take(parts.len() as int) =~= pv);
}

impl SQLFilter {
    /// Whether the filter compares nothing: it has no group, or only empty ones.
    pub fn is_empty(&self) -> (r: bool)
        ensures
            r == filter_is_empty(self.conditions@),
    {
        for i in 0..self.conditions.len()
            invariant
                forall|k: int| 0 <= k < i ==> (#[trigger] self.conditions@[k])@.len() == 0,
        {
            if self.conditions[i].len() != 0 {
                return false;
            }
        }
        true
    }

    /// The filter as a condition: its groups joined by ` AND `, each the
    /// comparisons of the group joined by ` OR ` between parentheses.
    pub fn to_sql(&self) -> (r: String)
        ensures
            r@ == filter_sql(self.conditions@),
    {
        let ghost gv = self.conditions@.map_values(|g: Vec<SQLFilterComparison>| group_sql(g@));
        let mut groups: Vec<String> = Vec::new();
        for i in 0..self.conditions.len()
            invariant
                gv == self.conditions@.map_values(|g: Vec<SQLFilterComparison>| group_sql(g@)),
                groups@.map_values(|p: String| p@) == gv.take(i as int),
        {
            let group = &self.conditions[i];
            let ghost cv = group@.map_values(|c: SQLFilterComparison| comparison_sql(c));
            let mut parts: Vec<String> = Vec::new();
            for j in 0..group.len()
                invariant
                    cv == group@.map_values(|c: SQLFilterComparison| comparison_sql(c)),
                    parts@.map_values(|p: String| p@) == cv.take(j as int),
            {
                let t = group[j].to_sql();
                let ghost before = parts@.map_values(|p: String| p@);
                assert(t@ == cv[j as int]);
                parts.push(t);
                assert(parts@.map_values(|p: String| p@) =~= before.push(t@));
                assert(parts@.map_values(|p: String| p@) =~= cv.take(j + 1));
            }
            assert(cv.take(group.len() as int) =~= cv);
            let mut s = String::from_str("(");
            join_into(&mut s, &parts, " OR ");
            s.append(")");
            proof {
                reveal_strlit("(");
                reveal_strlit(")");
                reveal_strlit(" OR ");
                assert(" OR "@ =~= or_sep());
                assert(s@ =~= group_sql(group@));
            }
            let ghost before = groups@.map_values(|p: String| p@);
            assert(s@ == gv[i as int]);
            groups.push(s);
            assert(groups@.map_values(|p: String| p@) =~= before.push(gv[i as int]));
            assert(groups@.map_values(|p: String| p@) =~= gv.take(i + 1));
        }
        assert(gv.take(self.conditions.len() as int) =~= gv);
        let mut out = String::new();
        join_into(&mut out, &groups, " AND ");
        proof {
            reveal_strlit(" AND ");
            assert(" AND "@ =~= and_sep());
            assert(out@ =~= filter_sql(self.conditions@));
        }
        out
    }

    /// ` AND ` and the condition, or nothing for a filter that compares nothing.
    pub fn to_sql_and_prefix(&self) -> (r: String)
        ensures
            filter_is_empty(self.conditions@) ==> r@.len() == 0,
            !filter_is_empty(self.conditions@) ==> r@ == and_sep() + filter_sql(self.conditions@),
    {
        let mut query = String::new();
        if !self.is_empty() {
            query.append(" AND ");
            let cond = self.to_sql();
            query.append(cond.as_str());
            proof {
                reveal_strlit(" AND ");
                assert(query@ =~= and_sep() + filter_sql(self.conditions@));
            }
        }
        query
    }

    /// ` WHERE ` and the condition, or nothing for a filter that compares nothing.
    pub fn to_sql_where_prefix(&self) -> (r: String)
        ensures
            filter_is_empty(self.conditions@) ==> r@.len() == 0,
            !filter_is_empty(self.conditions@) ==> r@ == seq![' ', 'W', 'H', 'E', 'R', 'E', ' ']
                + filter_sql(self.conditions@),
    {
        let mut query = String::new();
        if !self.is_empty() {
            query.append(" WHERE ");
            let cond = self.to_sql();
            query.append(cond.as_str());
            proof {
                reveal_strlit(" WHERE ");
                assert(query@ =~= seq![' ', 'W', 'H', 'E', 'R', 'E', ' '] + filter_sql(self.conditions@));
            }
        }
        query
    }
}

/// Rows become columns: row `i` of the result is column `i` of `matrix`, read
/// over all rows. The width is that of the first row; an empty matrix, or one
/// whose first row is empty, gives no row.
pub fn transpose<T: Clone>(matrix: Vec<Vec<T>>) -> (r: Vec<Vec<T>>)
    requires
        matrix@.len() > 0 ==> forall|j: int| 0 <= j < matrix@.len() ==> (#[trigger] matrix@[j])@.len()
            >= matrix@[0]@.len(),
    ensures
        matrix@.len() == 0 || matrix@[0]@.len() == 0 ==> r@.len() == 0,
        matrix@.len() > 0 ==> r@.len() == matrix@[0]@.len(),
        forall|i: int| 0 <= i < r@.len() ==> (#[trigger] r@[i])@.len() == matrix@.len(),
        forall|i: int, j: int|
            0 <= i < r@.len() && 0 <= j < matrix@.len() ==> cloned(matrix@[j]@[i], #[trigger] r@[i]@[j]),
{
    if matrix.len() == 0 || matrix[0].len() == 0 {
        return Vec::new();
    }
    let n = matrix.len();
    let m = matrix[0].len();
    let mut out: Vec<Vec<T>> = Vec::new();
    for i in 0..m
        invariant
            n == matrix@.len(),
            n > 0,
            m == matrix@[0]@.len(),
            forall|j: int| 0 <= j < n ==> (#[trigger] matrix@[j])@.len() >= m,
            out@.len() == i,
            forall|a: int| 0 <= a < i ==> (#[trigger] out@[a])@.len() == n,
            forall|a: int, j: int| 0 <= a < i && 0 <= j < n ==> cloned(matrix@[j]@[a], #[trigger] out@[a]@[j]),
    {
        let mut row: Vec<T> = Vec::new();
        for j in 0..n
            invariant
                n == matrix@.len(),
                m == matrix@[0]@.len(),
                i < m,
                forall|k: int| 0 <= k < n ==> (#[trigger] matrix@[k])@.len() >= m,
                row@.len() == j,
                forall|k: int| 0 <= k < j ==> cloned(matrix@[k]@[i as int], #[trigger] row@[k]),
        {
            assert(matrix@[j as int]@.len() >= m);
            row.push(matrix[j][i].clone());
        }
        out.push(row);
    }
    out
}

} // verus!
