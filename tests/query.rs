use straptrack::query::{
    transpose, IdentifierError, ParsedString, SQLFilter, SQLFilterComparison, SQLFilterComparisonOperation,
    SQLFilterComparisonValue,
};

fn col(name: &str) -> SQLFilterComparisonValue {
    SQLFilterComparisonValue::Column(ParsedString::parse(name).unwrap())
}

fn cmp(l: &str, op: SQLFilterComparisonOperation, n: &str) -> SQLFilterComparison {
    SQLFilterComparison { left: col(l), comparison: op, right: SQLFilterComparisonValue::Number(n.to_string()) }
}

#[test]
fn identifiers_are_checked_and_quoted() {
    assert_eq!(ParsedString::parse("file.parquet").unwrap().as_str(), "\"file.parquet\"");
    assert_eq!(ParsedString::parse("a b/c-d_e:f").unwrap().as_str(), "\"a b/c-d_e:f\"");
    assert_eq!(ParsedString::parse(""), Err(IdentifierError::Empty));
    assert_eq!(ParsedString::parse("x;drop"), Err(IdentifierError::Invalid("x;drop".to_string())));
    assert_eq!(ParsedString::parse("q\""), Err(IdentifierError::Invalid("q\"".to_string())));
}

#[test]
fn operators_render() {
    let all = [
        SQLFilterComparisonOperation::Equal,
        SQLFilterComparisonOperation::NotEqual,
        SQLFilterComparisonOperation::GreaterThan,
        SQLFilterComparisonOperation::LessThan,
        SQLFilterComparisonOperation::GreaterThanOrEqual,
        SQLFilterComparisonOperation::LessThanOrEqual,
    ];
    let text: Vec<String> = all.iter().map(|o| o.to_sql_text()).collect();
    assert_eq!(text, vec!["=", "!=", ">", "<", ">=", "<="]);
}

#[test]
fn comparison_renders() {
    let c = cmp("hp", SQLFilterComparisonOperation::GreaterThanOrEqual, "3.5");
    assert_eq!(c.to_sql(), "\"hp\" >= 3.5");
}

#[test]
fn filter_renders_groups() {
    let f = SQLFilter {
        conditions: vec![
            vec![
                cmp("a", SQLFilterComparisonOperation::Equal, "1"),
                cmp("b", SQLFilterComparisonOperation::LessThan, "2"),
            ],
            vec![cmp("c", SQLFilterComparisonOperation::NotEqual, "0")],
        ],
    };
    assert!(!f.is_empty());
    assert_eq!(f.to_sql(), "(\"a\" = 1 OR \"b\" < 2) AND (\"c\" != 0)");
    assert_eq!(f.to_sql_and_prefix(), " AND (\"a\" = 1 OR \"b\" < 2) AND (\"c\" != 0)");
    assert_eq!(f.to_sql_where_prefix(), " WHERE (\"a\" = 1 OR \"b\" < 2) AND (\"c\" != 0)");
}

#[test]
fn empty_filters_render_nothing() {
    let none = SQLFilter { conditions: vec![] };
    let hollow = SQLFilter { conditions: vec![vec![], vec![]] };
    assert!(none.is_empty());
    assert!(hollow.is_empty());
    assert_eq!(none.to_sql_where_prefix(), "");
    assert_eq!(hollow.to_sql_and_prefix(), "");
}

#[test]
fn transpose_swaps_rows_and_columns() {
    let m = vec![vec![1, 2, 3], vec![4, 5, 6]];
    assert_eq!(transpose(m), vec![vec![1, 4], vec![2, 5], vec![3, 6]]);
    assert!(transpose::<u8>(vec![]).is_empty());
    assert!(transpose::<u8>(vec![vec![], vec![1]]).is_empty());
}
