use orin_sql::convert::{
    parse_count, BinaryOperator, ConvertError, Expr, Join, Limit, Offset, OrderBy, OrderByExpr,
    Query, Select, SelectItem, SetExpr, Source, Sql, Statement, TableFactor, TableWithJoins, Value,
};

fn ident(s: &str) -> Expr {
    Expr::Identifier(s.to_string())
}

fn number(s: &str) -> Expr {
    Expr::Value(Value::Number(s.to_string()))
}

fn table(name: &str) -> TableWithJoins {
    TableWithJoins {
        relation: TableFactor::Table { name: vec![name.to_string()] },
        joins: vec![],
    }
}

fn order(e: Expr, asc: Option<bool>) -> OrderByExpr {
    OrderByExpr { expr: e, asc }
}

fn select_stmt(
    from: Vec<TableWithJoins>,
    selection: Option<Expr>,
    order_by: Vec<OrderByExpr>,
    limit: Option<Expr>,
    offset: Option<Expr>,
) -> Statement {
    Statement::Query(Box::new(Query {
        body: SetExpr::Select(Box::new(Select {
            projection: vec![SelectItem::UnnamedExpr(ident("location"))],
            from,
            selection,
        })),
        order_by,
        limit,
        offset,
    }))
}

#[test]
fn converts_a_full_select() {
    let cond = Expr::BinaryOp {
        left: Box::new(ident("new_deaths")),
        op: BinaryOperator::Gt,
        right: Box::new(number("500")),
    };
    let stmt = select_stmt(
        vec![table("https://example.com/covid.csv")],
        Some(cond),
        vec![order(ident("new_cases"), Some(false)), order(ident("location"), None)],
        Some(number("6")),
        Some(number("5")),
    );
    let sql = Sql::try_from(&stmt).unwrap();
    assert_eq!(sql.source, "https://example.com/covid.csv");
    assert_eq!(
        sql.order_by,
        vec![("new_cases".to_string(), true), ("location".to_string(), false)]
    );
    assert_eq!(sql.limit, Some(6));
    assert_eq!(sql.offset, Some(5));
    assert_eq!(sql.selection.len(), 1);
    assert!(matches!(&sql.selection[0], SelectItem::UnnamedExpr(Expr::Identifier(n)) if n == "location"));
    assert!(matches!(
        &sql.condition,
        Some(Expr::BinaryOp { op: BinaryOperator::Gt, .. })
    ));
}

#[test]
fn order_by_direction_defaults_to_ascending() {
    let stmt = select_stmt(
        vec![table("t")],
        None,
        vec![order(ident("a"), None), order(ident("b"), Some(true)), order(ident("c"), Some(false))],
        None,
        None,
    );
    let sql = Sql::try_from(&stmt).unwrap();
    assert_eq!(
        sql.order_by,
        vec![("a".to_string(), false), ("b".to_string(), false), ("c".to_string(), true)]
    );
    assert!(sql.condition.is_none());
    assert_eq!(sql.limit, None);
    assert_eq!(sql.offset, None);
}

#[test]
fn two_sources_are_refused() {
    let stmt = select_stmt(vec![table("a"), table("b")], None, vec![], None, None);
    assert_eq!(Sql::try_from(&stmt).unwrap_err(), ConvertError::MultipleDataSources);
}

#[test]
fn joins_are_refused() {
    let mut t = table("a");
    t.joins.push(Join { relation: TableFactor::Table { name: vec!["b".to_string()] } });
    let stmt = select_stmt(vec![t], None, vec![], None, None);
    let err = Sql::try_from(&stmt).unwrap_err();
    assert_eq!(err, ConvertError::JoinsNotSupported);
    assert_eq!(err.message(), "joins not supported");
}

#[test]
fn missing_source_is_refused() {
    let stmt = select_stmt(vec![], None, vec![], None, None);
    assert_eq!(Sql::try_from(&stmt).unwrap_err(), ConvertError::NoDataSource);
}

#[test]
fn derived_relation_is_refused() {
    let t = TableWithJoins { relation: TableFactor::Other, joins: vec![] };
    let stmt = select_stmt(vec![t], None, vec![], None, None);
    assert_eq!(Sql::try_from(&stmt).unwrap_err(), ConvertError::UnsupportedRelation);
}

#[test]
fn other_statement_kinds_are_refused() {
    let stmt = Statement::Other("INSERT".to_string());
    let err = Sql::try_from(&stmt).unwrap_err();
    assert_eq!(err, ConvertError::UnsupportedStatement("INSERT".to_string()));
    assert_eq!(err.message(), "unsupported statement kind: INSERT");
}

#[test]
fn set_operations_are_refused() {
    let stmt = Statement::Query(Box::new(Query {
        body: SetExpr::Other,
        order_by: vec![],
        limit: None,
        offset: None,
    }));
    assert_eq!(Sql::try_from(&stmt).unwrap_err(), ConvertError::UnsupportedQueryShape);
}

#[test]
fn computed_order_by_is_refused() {
    let e = Expr::BinaryOp {
        left: Box::new(ident("a")),
        op: BinaryOperator::Gt,
        right: Box::new(number("1")),
    };
    let stmt = select_stmt(
        vec![table("t")],
        None,
        vec![order(ident("b"), None), order(e, None)],
        None,
        None,
    );
    let err = Sql::try_from(&stmt).unwrap_err();
    let expected = Expr::BinaryOp {
        left: Box::new(ident("a")),
        op: BinaryOperator::Gt,
        right: Box::new(number("1")),
    };
    assert_eq!(err, ConvertError::UnsupportedOrderBy(expected));
    assert_eq!(err.message(), "unsupported order-by expression: a > 1");
}

#[test]
fn order_by_message_names_nested_expressions() {
    let e = Expr::Not(Box::new(Expr::Nested(Box::new(Expr::BinaryOp {
        left: Box::new(ident("name")),
        op: BinaryOperator::Eq,
        right: Box::new(Expr::Value(Value::SingleQuotedString("x".to_string()))),
    }))));
    let err = OrderBy(order(e, Some(true))).key().unwrap_err();
    assert_eq!(err.message(), "unsupported order-by expression: NOT (name = 'x')");
    let f = Expr::Other("f(a)".to_string());
    let err = OrderBy(order(f, None)).key().unwrap_err();
    assert_eq!(err.message(), "unsupported order-by expression: f(a)");
}

#[test]
fn dotted_table_name_is_refused() {
    let t = TableWithJoins {
        relation: TableFactor::Table { name: vec!["schema".to_string(), "t".to_string()] },
        joins: vec![],
    };
    let stmt = select_stmt(vec![t], None, vec![], None, None);
    let err = Sql::try_from(&stmt).unwrap_err();
    assert_eq!(err, ConvertError::UnsupportedRelation);
    assert_eq!(
        err.message(),
        "unsupported data source: only a plain, undotted table name is supported"
    );
}

#[test]
fn non_numeric_limit_and_offset_are_absent() {
    let stmt = select_stmt(
        vec![table("t")],
        None,
        vec![],
        Some(ident("abc")),
        Some(number("1.5")),
    );
    let sql = Sql::try_from(&stmt).unwrap();
    assert_eq!(sql.limit, None);
    assert_eq!(sql.offset, None);
}

#[test]
fn offset_and_limit_pieces() {
    assert_eq!(Offset(number("10")).rows(), Some(10));
    assert_eq!(Offset(number("x1")).rows(), None);
    assert_eq!(Limit(number("50")).rows(), Some(50));
    assert_eq!(Limit(Expr::Value(Value::Null)).rows(), None);
}

#[test]
fn source_and_order_by_pieces() {
    assert_eq!(Source(vec![table("data.csv")]).table_name(), Ok("data.csv".to_string()));
    assert_eq!(Source(vec![]).table_name(), Err(ConvertError::NoDataSource));
    assert_eq!(OrderBy(order(ident("a"), Some(false))).key(), Ok(("a".to_string(), true)));
    assert_eq!(
        OrderBy(order(number("1"), None)).key(),
        Err(ConvertError::UnsupportedOrderBy(number("1")))
    );
}

#[test]
fn counts_parse_as_decimal() {
    assert_eq!(parse_count("0"), Some(0));
    assert_eq!(parse_count("0042"), Some(42));
    assert_eq!(parse_count("18446744073709551615"), Some(usize::MAX));
    assert_eq!(parse_count("18446744073709551616"), None);
    assert_eq!(parse_count(""), None);
    assert_eq!(parse_count("-1"), None);
    assert_eq!(parse_count("12a"), None);
}
