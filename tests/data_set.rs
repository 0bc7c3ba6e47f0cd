use orin_sql::convert::{BinaryOperator, ConvertError, Expr, SelectItem, Sql, Statement, Value};
use orin_sql::data_set::{execute, plan_query, Cell, DataSet, ExecError, QueryError, Stage};

fn ident(s: &str) -> Expr {
    Expr::Identifier(s.to_string())
}

fn num(v: &str) -> Expr {
    Expr::Value(Value::Number(v.to_string()))
}

fn gt(col: &str, v: &str) -> Expr {
    Expr::BinaryOp { left: Box::new(ident(col)), op: BinaryOperator::Gt, right: Box::new(num(v)) }
}

fn col(name: &str) -> SelectItem {
    SelectItem::UnnamedExpr(ident(name))
}

fn text(s: &str) -> Cell {
    Cell::Text(s.to_string())
}

fn sql(
    selection: Vec<SelectItem>,
    condition: Option<Expr>,
    order_by: Vec<(&str, bool)>,
    offset: Option<usize>,
    limit: Option<usize>,
) -> Sql {
    Sql {
        selection,
        condition,
        source: "t".to_string(),
        order_by: order_by.into_iter().map(|(c, d)| (c.to_string(), d)).collect(),
        offset,
        limit,
    }
}

fn covid() -> DataSet {
    DataSet {
        columns: vec!["location".to_string(), "new_deaths".to_string()],
        rows: vec![
            vec![text("A"), Cell::Int(10)],
            vec![text("B"), Cell::Int(2)],
            vec![text("C"), Cell::Int(600)],
        ],
    }
}

fn numbers(n: i64) -> DataSet {
    DataSet {
        columns: vec!["a".to_string(), "b".to_string()],
        rows: (0..n).map(|i| vec![Cell::Int(i), Cell::Int(n - i)]).collect(),
    }
}

#[test]
fn top_location_by_deaths() {
    let q = sql(vec![col("location")], Some(gt("new_deaths", "5")), vec![("new_deaths", true)], None, Some(1));
    let out = execute(&q, &covid()).unwrap();
    assert_eq!(out.columns, vec!["location".to_string()]);
    assert_eq!(out.rows, vec![vec![text("C")]]);
}

#[test]
fn filter_and_sort_see_unprojected_columns() {
    let t = DataSet {
        columns: vec!["a".to_string(), "b".to_string()],
        rows: vec![
            vec![Cell::Int(1), Cell::Int(7)],
            vec![Cell::Int(2), Cell::Int(3)],
            vec![Cell::Int(3), Cell::Int(9)],
            vec![Cell::Int(4), Cell::Int(6)],
        ],
    };
    let q = sql(vec![col("a")], Some(gt("b", "5")), vec![("b", true)], None, None);
    let out = execute(&q, &t).unwrap();
    assert_eq!(out.columns, vec!["a".to_string()]);
    assert_eq!(out.rows, vec![vec![Cell::Int(3)], vec![Cell::Int(1)], vec![Cell::Int(4)]]);
}

#[test]
fn limit_offset_takes_a_window_of_the_sorted_rows() {
    let t = numbers(10);
    let q = sql(vec![col("a")], None, vec![("b", false)], Some(2), Some(3));
    let out = execute(&q, &t).unwrap();
    // sorted by b ascending: a = 9, 8, 7, ...; rows [2, 5)
    assert_eq!(out.rows, vec![vec![Cell::Int(7)], vec![Cell::Int(6)], vec![Cell::Int(5)]]);
}

#[test]
fn offset_past_the_end_is_empty() {
    let t = numbers(4);
    let q = sql(vec![col("a")], None, vec![], Some(10), Some(2));
    let out = execute(&q, &t).unwrap();
    assert_eq!(out.columns, vec!["a".to_string()]);
    assert!(out.rows.is_empty());
}

#[test]
fn limit_past_the_end_keeps_the_rest() {
    let t = numbers(4);
    let q = sql(vec![col("a")], None, vec![], Some(1), Some(100));
    let out = execute(&q, &t).unwrap();
    assert_eq!(out.rows, vec![vec![Cell::Int(1)], vec![Cell::Int(2)], vec![Cell::Int(3)]]);
}

#[test]
fn same_query_twice_gives_the_same_result() {
    let t = covid();
    let q = sql(vec![SelectItem::Wildcard], Some(gt("new_deaths", "5")), vec![("location", true)], None, None);
    let first = execute(&q, &t).unwrap();
    let second = execute(&q, &t).unwrap();
    assert_eq!(first.columns, second.columns);
    assert_eq!(first.rows, second.rows);
    assert_eq!(first.rows, vec![vec![text("C"), Cell::Int(600)], vec![text("A"), Cell::Int(10)]]);
}

#[test]
fn sort_is_stable_and_keys_take_priority_in_order() {
    let t = DataSet {
        columns: vec!["k".to_string(), "id".to_string(), "g".to_string()],
        rows: vec![
            vec![Cell::Int(1), Cell::Int(0), text("x")],
            vec![Cell::Int(0), Cell::Int(1), text("y")],
            vec![Cell::Int(1), Cell::Int(2), text("y")],
            vec![Cell::Int(0), Cell::Int(3), text("x")],
            vec![Cell::Int(1), Cell::Int(4), text("x")],
        ],
    };
    let q = sql(vec![col("id")], None, vec![("k", false)], None, None);
    let out = execute(&q, &t).unwrap();
    let ids: Vec<Cell> = out.rows.into_iter().map(|mut r| r.remove(0)).collect();
    assert_eq!(ids, vec![Cell::Int(1), Cell::Int(3), Cell::Int(0), Cell::Int(2), Cell::Int(4)]);

    let q = sql(vec![col("id")], None, vec![("g", true), ("k", false)], None, None);
    let out = execute(&q, &t).unwrap();
    let ids: Vec<Cell> = out.rows.into_iter().map(|mut r| r.remove(0)).collect();
    assert_eq!(ids, vec![Cell::Int(1), Cell::Int(2), Cell::Int(3), Cell::Int(0), Cell::Int(4)]);
}

#[test]
fn nulls_sort_first_and_never_pass_a_comparison() {
    let t = DataSet {
        columns: vec!["v".to_string()],
        rows: vec![vec![Cell::Int(3)], vec![Cell::Null], vec![Cell::Int(8)]],
    };
    let q = sql(vec![col("v")], None, vec![("v", false)], None, None);
    let out = execute(&q, &t).unwrap();
    assert_eq!(out.rows, vec![vec![Cell::Null], vec![Cell::Int(3)], vec![Cell::Int(8)]]);

    let q = sql(vec![col("v")], None, vec![("v", true)], None, None);
    let out = execute(&q, &t).unwrap();
    assert_eq!(out.rows, vec![vec![Cell::Null], vec![Cell::Int(8)], vec![Cell::Int(3)]]);

    let q = sql(vec![col("v")], Some(gt("v", "0")), vec![], None, None);
    let out = execute(&q, &t).unwrap();
    assert_eq!(out.rows, vec![vec![Cell::Int(3)], vec![Cell::Int(8)]]);
}

#[test]
fn text_compares_lexicographically() {
    let t = DataSet {
        columns: vec!["s".to_string()],
        rows: vec![vec![text("pear")], vec![text("apple")], vec![text("app")], vec![text("b")]],
    };
    let q = sql(vec![col("s")], None, vec![("s", false)], None, None);
    let out = execute(&q, &t).unwrap();
    assert_eq!(out.rows, vec![vec![text("app")], vec![text("apple")], vec![text("b")], vec![text("pear")]]);

    let cond = Expr::BinaryOp {
        left: Box::new(ident("s")),
        op: BinaryOperator::Eq,
        right: Box::new(Expr::Value(Value::SingleQuotedString("b".to_string()))),
    };
    let q = sql(vec![col("s")], Some(cond), vec![], None, None);
    assert_eq!(execute(&q, &t).unwrap().rows, vec![vec![text("b")]]);
}

#[test]
fn logic_operators_combine_conditions() {
    let t = numbers(6);
    let cond = Expr::BinaryOp {
        left: Box::new(gt("a", "1")),
        op: BinaryOperator::And,
        right: Box::new(Expr::Not(Box::new(Expr::Nested(Box::new(gt("a", "3")))))),
    };
    let q = sql(vec![col("a")], Some(cond), vec![], None, None);
    assert_eq!(execute(&q, &t).unwrap().rows, vec![vec![Cell::Int(2)], vec![Cell::Int(3)]]);
}

#[test]
fn wildcard_and_alias_projection() {
    let q = sql(
        vec![
            SelectItem::ExprWithAlias { expr: ident("new_deaths"), alias: "deaths".to_string() },
            SelectItem::Wildcard,
        ],
        None,
        vec![],
        None,
        Some(1),
    );
    let out = execute(&q, &covid()).unwrap();
    assert_eq!(out.columns, vec!["deaths".to_string(), "location".to_string(), "new_deaths".to_string()]);
    assert_eq!(out.rows, vec![vec![Cell::Int(10), text("A"), Cell::Int(10)]]);
}

#[test]
fn missing_column_in_filter() {
    let q = sql(vec![col("location")], Some(gt("nope", "1")), vec![], None, None);
    let err = execute(&q, &covid()).unwrap_err();
    assert_eq!(err, ExecError::ColumnNotFound(Stage::Filter, "nope".to_string()));
    assert_eq!(err.message(), "column not found in filter: nope");
}

#[test]
fn missing_column_in_sort() {
    let q = sql(vec![col("location")], None, vec![("nope", false)], None, None);
    assert_eq!(
        execute(&q, &covid()).unwrap_err(),
        ExecError::ColumnNotFound(Stage::Sort, "nope".to_string())
    );
}

#[test]
fn missing_column_in_projection() {
    let q = sql(vec![col("nope")], None, vec![], None, None);
    assert_eq!(
        execute(&q, &covid()).unwrap_err(),
        ExecError::ColumnNotFound(Stage::Project, "nope".to_string())
    );
}

#[test]
fn missing_column_is_reported_on_an_empty_table() {
    let t = DataSet { columns: vec!["a".to_string()], rows: vec![] };
    let q = sql(vec![col("a")], Some(gt("b", "1")), vec![], None, None);
    assert_eq!(
        execute(&q, &t).unwrap_err(),
        ExecError::ColumnNotFound(Stage::Filter, "b".to_string())
    );
}

#[test]
fn unsupported_expressions_are_refused() {
    let q = sql(vec![col("location")], Some(Expr::Other("f(x)".to_string())), vec![], None, None);
    assert_eq!(execute(&q, &covid()).unwrap_err(), ExecError::UnsupportedExpression(Stage::Filter));
    let q = sql(vec![SelectItem::UnnamedExpr(Expr::Other("f(x)".to_string()))], None, vec![], None, None);
    assert_eq!(execute(&q, &covid()).unwrap_err(), ExecError::UnsupportedExpression(Stage::Project));
    let q = sql(vec![SelectItem::UnnamedExpr(gt("nope", "1"))], None, vec![], None, None);
    assert_eq!(
        execute(&q, &covid()).unwrap_err(),
        ExecError::ColumnNotFound(Stage::Project, "nope".to_string())
    );
}

#[test]
fn computed_projection_items() {
    let q = sql(
        vec![
            col("location"),
            SelectItem::UnnamedExpr(gt("new_deaths", "5")),
            SelectItem::ExprWithAlias { expr: num("1"), alias: "one".to_string() },
        ],
        None,
        vec![],
        None,
        None,
    );
    let out = execute(&q, &covid()).unwrap();
    assert_eq!(
        out.columns,
        vec!["location".to_string(), "new_deaths > 5".to_string(), "one".to_string()]
    );
    assert_eq!(
        out.rows,
        vec![
            vec![text("A"), Cell::Bool(true), Cell::Int(1)],
            vec![text("B"), Cell::Bool(false), Cell::Int(1)],
            vec![text("C"), Cell::Bool(true), Cell::Int(1)],
        ]
    );
}

#[test]
fn exactly_one_statement_is_planned() {
    assert_eq!(plan_query(&vec![]).unwrap_err(), QueryError::StatementCount);
    let two = vec![Statement::Other("INSERT".to_string()), Statement::Other("DELETE".to_string())];
    let err = plan_query(&two).unwrap_err();
    assert_eq!(err, QueryError::StatementCount);
    assert_eq!(err.message(), "only a single statement is supported");
    let conv = QueryError::Convert(ConvertError::NoDataSource);
    assert_eq!(conv.message(), "no data source");
    assert_eq!(
        plan_query(&vec![Statement::Other("INSERT".to_string())]).unwrap_err(),
        QueryError::Convert(ConvertError::UnsupportedStatement("INSERT".to_string()))
    );
}
