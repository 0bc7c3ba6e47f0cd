//! Statements in the shape a SQL parser produces them, and their conversion into a
//! query descriptor ([`Sql`]).
use vstd::prelude::*;
use vstd::string::*;

verus! {

/// A literal value.
#[derive(Debug, PartialEq, Eq)]
pub enum Value {
    /// A numeric literal, as written.
    Number(String),
    SingleQuotedString(String),
    Boolean(bool),
    Null,
}

/// The binary operators a filter can use.
#[derive(Debug, Clone, Copy, PartialEq, Eq, Structural)]
pub enum BinaryOperator {
    Gt,
    Lt,
    GtEq,
    LtEq,
    Eq,
    NotEq,
    And,
    Or,
}

/// An expression tree.
#[derive(Debug, PartialEq, Eq)]
pub enum Expr {
    /// A bare column name.
    Identifier(String),
    Value(Value),
    BinaryOp { left: Box<Expr>, op: BinaryOperator, right: Box<Expr> },
    Not(Box<Expr>),
    Nested(Box<Expr>),
    /// Any other expression, kept as its source text.
    Other(String),
}

/// One item of a SELECT list.
#[derive(Debug)]
pub enum SelectItem {
    UnnamedExpr(Expr),
    ExprWithAlias { expr: Expr, alias: String },
    /// `*`: every column of the table.
    Wildcard,
}

/// A relation in a FROM clause.
#[derive(Debug)]
pub enum TableFactor {
    /// A named table; `name` holds the parts of a dotted name.
    Table { name: Vec<String> },
    /// A sub-query, a table function or another relation that is not a plain name.
    Other,
}

#[derive(Debug)]
pub struct Join {
    pub relation: TableFactor,
}

#[derive(Debug)]
pub struct TableWithJoins {
    pub relation: TableFactor,
    pub joins: Vec<Join>,
}

/// An item of an ORDER BY clause; `asc` is `None` when no direction was written.
#[derive(Debug)]
pub struct OrderByExpr {
    pub expr: Expr,
    pub asc: Option<bool>,
}

#[derive(Debug)]
pub struct Select {
    pub projection: Vec<SelectItem>,
    pub from: Vec<TableWithJoins>,
    pub selection: Option<Expr>,
}

/// The body of a query.
#[derive(Debug)]
pub enum SetExpr {
    Select(Box<Select>),
    /// UNION, INTERSECT, EXCEPT, VALUES and the like.
    Other,
}

#[derive(Debug)]
pub struct Query {
    pub body: SetExpr,
    pub order_by: Vec<OrderByExpr>,
    pub limit: Option<Expr>,
    pub offset: Option<Expr>,
}

/// A parsed statement.
#[derive(Debug)]
pub enum Statement {
    Query(Box<Query>),
    /// Any other statement; holds its kind (`INSERT`, `CREATE TABLE`, ...).
    Other(String),
}

/// Why a statement cannot become a query descriptor.
#[derive(Debug, PartialEq, Eq)]
pub enum ConvertError {
    /// Not a query; holds the statement's kind.
    UnsupportedStatement(String),
    /// A query whose body is not a plain SELECT.
    UnsupportedQueryShape,
    /// The FROM clause names no relation.
    NoDataSource,
    /// The FROM clause names more than one relation.
    MultipleDataSources,
    /// The FROM clause holds a join.
    JoinsNotSupported,
    /// The relation is not a plain table name, or its name has more than one part.
    UnsupportedRelation,
    /// An ORDER BY item that is not a bare column name; holds that expression.
    UnsupportedOrderBy(Expr),
}

/// The text of a binary operator.
pub open spec fn op_text(op: BinaryOperator) -> Seq<char> {
    match op {
        BinaryOperator::Gt => ">"@,
        BinaryOperator::Lt => "<"@,
        BinaryOperator::GtEq => ">="@,
        BinaryOperator::LtEq => "<="@,
        BinaryOperator::Eq => "="@,
        BinaryOperator::NotEq => "<>"@,
        BinaryOperator::And => "AND"@,
        BinaryOperator::Or => "OR"@,
    }
}

/// The text of a literal, as SQL writes it.
pub open spec fn value_text(v: Value) -> Seq<char> {
    match v {
        Value::Number(s) => s@,
        Value::SingleQuotedString(s) => "'"@ + s@ + "'"@,
        Value::Boolean(b) => if b {
            "true"@
        } else {
            "false"@
        },
        Value::Null => "NULL"@,
    }
}

/// The text of an expression, as SQL writes it.
pub open spec fn expr_text(e: Expr) -> Seq<char>
    decreases e,
{
    match e {
        Expr::Identifier(n) => n@,
        Expr::Value(v) => value_text(v),
        Expr::BinaryOp { left, op, right } => expr_text(*left) + " "@ + op_text(op) + " "@
            + expr_text(*right),
        Expr::Not(x) => "NOT "@ + expr_text(*x),
        Expr::Nested(x) => "("@ + expr_text(*x) + ")"@,
        Expr::Other(s) => s@,
    }
}

/// The message of a conversion error, naming the construct that was refused.
pub open spec fn convert_error_text(e: ConvertError) -> Seq<char> {
    match e {
        ConvertError::UnsupportedStatement(kind) => "unsupported statement kind: "@ + kind@,
        ConvertError::UnsupportedQueryShape =>
            "unsupported query shape: only a plain SELECT is supported"@,
        ConvertError::NoDataSource => "no data source"@,
        ConvertError::MultipleDataSources => "only one data source supported"@,
        ConvertError::JoinsNotSupported => "joins not supported"@,
        ConvertError::UnsupportedRelation =>
            "unsupported data source: only a plain, undotted table name is supported"@,
        ConvertError::UnsupportedOrderBy(e) => "unsupported order-by expression: "@ + expr_text(
            e,
        ),
    }
}

impl Value {
    /// The literal as SQL writes it.
    pub fn to_text(&self) -> (r: String)
        ensures
            r@ == value_text(*self),
    {
        match self {
            Value::Number(s) => s.clone(),
            Value::SingleQuotedString(s) => {
                let mut m = String::from_str("'");
                m.append(s.as_str());
                m.append("'");
                m
            },
            Value::Boolean(b) => if *b {
                String::from_str("true")
            } else {
                String::from_str("false")
            },
            Value::Null => String::from_str("NULL"),
        }
    }
}

impl BinaryOperator {
    /// The operator as SQL writes it.
    pub fn text(&self) -> (r: &'static str)
        ensures
            r@ == op_text(*self),
    {
        match self {
            BinaryOperator::Gt => ">",
            BinaryOperator::Lt => "<",
            BinaryOperator::GtEq => ">=",
            BinaryOperator::LtEq => "<=",
            BinaryOperator::Eq => "=",
            BinaryOperator::NotEq => "<>",
            BinaryOperator::And => "AND",
            BinaryOperator::Or => "OR",
        }
    }
}

impl Expr {
    /// The expression as SQL writes it.
    pub fn to_text(&self) -> (r: String)
        ensures
            r@ == expr_text(*self),
        decreases self,
    {
        match self {
            Expr::Identifier(n) => n.clone(),
            Expr::Value(v) => v.to_text(),
            Expr::BinaryOp { left, op, right } => {
                let mut m = left.to_text();
                m.append(" ");
                m.append(op.text());
                m.append(" ");
                let r = right.to_text();
                m.append(r.as_str());
                m
            },
            Expr::Not(x) => {
                let mut m = String::from_str("NOT ");
                let t = x.to_text();
                m.append(t.as_str());
                m
            },
            Expr::Nested(x) => {
                let mut m = String::from_str("(");
                let t = x.to_text();
                m.append(t.as_str());
                m.append(")");
                m
            },
            Expr::Other(s) => s.clone(),
        }
    }
}

impl ConvertError {
    /// A human-readable message naming the construct that was refused.
    pub fn message(&self) -> (r: String)
        ensures
            r@ == convert_error_text(*self),
    {
        match self {
            ConvertError::UnsupportedStatement(kind) => {
                let mut m = String::from_str("unsupported statement kind: ");
                m.append(kind.as_str());
                m
            },
            ConvertError::UnsupportedQueryShape => String::from_str(
                "unsupported query shape: only a plain SELECT is supported",
            ),
            ConvertError::NoDataSource => String::from_str("no data source"),
            ConvertError::MultipleDataSources => String::from_str(
                "only one data source supported",
            ),
            ConvertError::JoinsNotSupported => String::from_str("joins not supported"),
            ConvertError::UnsupportedRelation => String::from_str(
                "unsupported data source: only a plain, undotted table name is supported",
            ),
            ConvertError::UnsupportedOrderBy(e) => {
                let mut m = String::from_str("unsupported order-by expression: ");
                let t = e.to_text();
                m.append(t.as_str());
                m
            },
        }
    }
}

/// The OFFSET of a query.
#[derive(Debug)]
pub struct Offset(pub Expr);

/// The FROM clause of a query.
#[derive(Debug)]
pub struct Source(pub Vec<TableWithJoins>);

/// One ORDER BY item.
#[derive(Debug)]
pub struct OrderBy(pub OrderByExpr);

/// The LIMIT of a query.
#[derive(Debug)]
pub struct Limit(pub Expr);

/// The WHERE clause of a query.
#[derive(Debug)]
pub struct Condition(pub Option<Expr>);

/// One item of a SELECT list.
#[derive(Debug)]
pub struct Projection(pub SelectItem);

/// The query descriptor: everything needed to run a SELECT against one source.
#[derive(Debug)]
pub struct Sql {
    /// Items to keep in the result, in output order.
    pub selection: Vec<SelectItem>,
    /// The row filter; `None` keeps every row.
    pub condition: Option<Expr>,
    /// Where to load the table from.
    pub source: String,
    /// Sort keys, primary first: the column name and whether it sorts descending.
    pub order_by: Vec<(String, bool)>,
    /// Rows to skip; `None` skips none.
    pub offset: Option<usize>,
    /// Most rows to keep; `None` keeps all.
    pub limit: Option<usize>,
}

// ---------------------------------------------------------------------------
// Numeric literals

pub open spec fn is_digit(c: char) -> bool {
    '0' <= c && c <= '9'
}

pub open spec fn all_digits(s: Seq<char>) -> bool {
    forall|i: int| 0 <= i < s.len() ==> is_digit(#[trigger] s[i])
}

/// The value of a string of decimal digits.
pub open spec fn decimal_value(s: Seq<char>) -> nat
    decreases s.len(),
{
    if s.len() == 0 {
        0
    } else {
        decimal_value(s.drop_last()) * 10 + (s.last() as nat - '0' as nat) as nat
    }
}

/// The count a numeric literal denotes, when it is a non-empty run of decimal digits
/// whose value fits in `usize`; `None` otherwise.
pub open spec fn literal_count(s: Seq<char>) -> Option<usize> {
    if s.len() > 0 && all_digits(s) && decimal_value(s) <= usize::MAX {
        Some(decimal_value(s) as usize)
    } else {
        None
    }
}

/// The count an OFFSET or LIMIT expression gives: that of a numeric literal, and
/// `None` (the field's default) for anything else.
pub open spec fn expr_count(e: Expr) -> Option<usize> {
    match e {
        Expr::Value(Value::Number(v)) => literal_count(v@),
        _ => None,
    }
}

proof fn lemma_decimal_value_grows(s: Seq<char>, i: int)
    requires
        0 <= i <= s.len(),
    ensures
        decimal_value(s.subrange(0, i)) <= decimal_value(s),
    decreases s.len() - i,
{
    if i < s.len() {
        lemma_decimal_value_grows(s, i + 1);
        assert(s.subrange(0, i + 1).drop_last() =~= s.subrange(0, i));
        assert(decimal_value(s.subrange(0, i)) <= decimal_value(s.subrange(0, i)) * 10)
            by (nonlinear_arith);
    } else {
        assert(s.subrange(0, i) =~= s);
    }
}

/// Reads a run of decimal digits as a count.
pub fn parse_count(s: &str) -> (r: Option<usize>)
    ensures
        r == literal_count(s@),
{
    let len = s.unicode_len();
    if len == 0 {
        return None;
    }
    let mut value: usize = 0;
    let mut i: usize = 0;
    while i < len
        invariant
            len == s@.len(),
            0 <= i <= len,
            all_digits(s@.subrange(0, i as int)),
            value as nat == decimal_value(s@.subrange(0, i as int)),
        decreases len - i,
    {
        let c = s.get_char(i);
        assert(s@.subrange(0, i + 1).drop_last() =~= s@.subrange(0, i as int));
        if !('0' <= c && c <= '9') {
            assert(!all_digits(s@));
            return None;
        }
        let d = (c as u32 - '0' as u32) as usize;
        if value > (usize::MAX - d) / 10 {
            proof {
                assert(value * 10 + d > usize::MAX) by (nonlinear_arith)
                    requires
                        value > (usize::MAX - d) / 10,
                        d <= 9,
                ;
                lemma_decimal_value_grows(s@, i + 1);
            }
            return None;
        }
        value = value * 10 + d;
        i = i + 1;
    }
    assert(s@.subrange(0, len as int) =~= s@);
    Some(value)
}

// ---------------------------------------------------------------------------
// Pieces of a statement

/// The table a FROM clause names, or why it names none that can be used.
pub open spec fn source_of(from: Seq<TableWithJoins>) -> Result<String, ConvertError> {
    if from.len() == 0 {
        Err(ConvertError::NoDataSource)
    } else if from.len() > 1 {
        Err(ConvertError::MultipleDataSources)
    } else if from[0].joins@.len() > 0 {
        Err(ConvertError::JoinsNotSupported)
    } else {
        match from[0].relation {
            TableFactor::Table { name } => if name@.len() == 0 {
                Err(ConvertError::NoDataSource)
            } else if name@.len() > 1 {
                Err(ConvertError::UnsupportedRelation)
            } else {
                Ok(name@[0])
            },
            TableFactor::Other => Err(ConvertError::UnsupportedRelation),
        }
    }
}

/// The sort key of an ORDER BY item: its column name, and whether it sorts descending
/// (ascending when no direction was written).
pub open spec fn order_key_of(o: OrderByExpr) -> Result<(String, bool), ConvertError> {
    match o.expr {
        Expr::Identifier(name) => Ok((name, o.asc == Some(false))),
        _ => Err(ConvertError::UnsupportedOrderBy(o.expr)),
    }
}

/// The sort keys of an ORDER BY clause, or the error of its first unsupported item.
pub open spec fn order_keys_of(items: Seq<OrderByExpr>) -> Result<Seq<(String, bool)>, ConvertError>
    decreases items.len(),
{
    if items.len() == 0 {
        Ok(Seq::empty())
    } else {
        match order_keys_of(items.drop_last()) {
            Err(e) => Err(e),
            Ok(keys) => match order_key_of(items.last()) {
                Err(e) => Err(e),
                Ok(k) => Ok(keys.push(k)),
            },
        }
    }
}

pub open spec fn opt_expr_count(e: Option<Expr>) -> Option<usize> {
    match e {
        Some(x) => expr_count(x),
        None => None,
    }
}

/// Why a statement cannot be converted, or `None` when it can.
pub open spec fn conversion_error(stmt: Statement) -> Option<ConvertError> {
    match stmt {
        Statement::Other(kind) => Some(ConvertError::UnsupportedStatement(kind)),
        Statement::Query(q) => match q.body {
            SetExpr::Other => Some(ConvertError::UnsupportedQueryShape),
            SetExpr::Select(sel) => match source_of(sel.from@) {
                Err(e) => Some(e),
                Ok(_) => match order_keys_of(q.order_by@) {
                    Err(e) => Some(e),
                    Ok(_) => None,
                },
            },
        },
    }
}

/// The descriptor `sql` is the one `stmt` converts to: it keeps the SELECT list and the
/// WHERE clause as they are, takes the one table name as source, the ORDER BY items as
/// sort keys, and the numeric OFFSET and LIMIT literals.
pub open spec fn converts_to(stmt: Statement, sql: Sql) -> bool {
    match stmt {
        Statement::Query(q) => match q.body {
            SetExpr::Select(sel) => {
                &&& sql.selection@ == sel.projection@
                &&& sql.condition == sel.selection
                &&& source_of(sel.from@) == Ok::<String, ConvertError>(sql.source)
                &&& order_keys_of(q.order_by@) == Ok::<Seq<(String, bool)>, ConvertError>(
                    sql.order_by@,
                )
                &&& sql.offset == opt_expr_count(q.offset)
                &&& sql.limit == opt_expr_count(q.limit)
            },
            SetExpr::Other => false,
        },
        Statement::Other(_) => false,
    }
}

// ---------------------------------------------------------------------------
// Copies

impl Value {
    pub fn copy(&self) -> (r: Value)
        ensures
            r == *self,
    {
        match self {
            Value::Number(s) => Value::Number(s.clone()),
            Value::SingleQuotedString(s) => Value::SingleQuotedString(s.clone()),
            Value::Boolean(b) => Value::Boolean(*b),
            Value::Null => Value::Null,
        }
    }
}

impl Expr {
    pub fn copy(&self) -> (r: Expr)
        ensures
            r == *self,
        decreases self,
    {
        match self {
            Expr::Identifier(s) => Expr::Identifier(s.clone()),
            Expr::Value(v) => Expr::Value(v.copy()),
            Expr::BinaryOp { left, op, right } => {
                let l = left.copy();
                let r = right.copy();
                Expr::BinaryOp { left: Box::new(l), op: *op, right: Box::new(r) }
            },
            Expr::Not(e) => Expr::Not(Box::new(e.copy())),
            Expr::Nested(e) => Expr::Nested(Box::new(e.copy())),
            Expr::Other(s) => Expr::Other(s.clone()),
        }
    }
}

impl SelectItem {
    pub fn copy(&self) -> (r: SelectItem)
        ensures
            r == *self,
    {
        match self {
            SelectItem::UnnamedExpr(e) => SelectItem::UnnamedExpr(e.copy()),
            SelectItem::ExprWithAlias { expr, alias } => SelectItem::ExprWithAlias {
                expr: expr.copy(),
                alias: alias.clone(),
            },
            SelectItem::Wildcard => SelectItem::Wildcard,
        }
    }
}

pub fn copy_option_expr(e: &Option<Expr>) -> (r: Option<Expr>)
    ensures
        r == *e,
{
    match e {
        Some(x) => Some(x.copy()),
        None => None,
    }
}

// ---------------------------------------------------------------------------
// Conversion

impl Offset {
    /// Rows to skip: the value of a numeric literal; `None` for anything else.
    pub fn rows(&self) -> (r: Option<usize>)
        ensures
            r == expr_count(self.0),
    {
        count_of(&self.0)
    }
}

impl Limit {
    /// Most rows to keep: the value of a numeric literal; `None` for anything else.
    pub fn rows(&self) -> (r: Option<usize>)
        ensures
            r == expr_count(self.0),
    {
        count_of(&self.0)
    }
}

fn count_of(e: &Expr) -> (r: Option<usize>)
    ensures
        r == expr_count(*e),
{
    match e {
        Expr::Value(Value::Number(v)) => parse_count(v.as_str()),
        _ => None,
    }
}

fn opt_count_of(e: &Option<Expr>) -> (r: Option<usize>)
    ensures
        r == opt_expr_count(*e),
{
    match e {
        Some(x) => count_of(x),
        None => None,
    }
}

impl Source {
    /// The single table this FROM clause names.
    pub fn table_name(&self) -> (r: Result<String, ConvertError>)
        ensures
            r == source_of(self.0@),
    {
        table_name_of(&self.0)
    }
}

impl OrderBy {
    /// The column name and descending flag of this ORDER BY item.
    pub fn key(&self) -> (r: Result<(String, bool), ConvertError>)
        ensures
            r == order_key_of(self.0),
    {
        order_key(&self.0)
    }
}

fn order_key(o: &OrderByExpr) -> (r: Result<(String, bool), ConvertError>)
    ensures
        r == order_key_of(*o),
{
    match &o.expr {
        Expr::Identifier(name) => {
            let desc = match o.asc {
                Some(asc) => !asc,
                None => false,
            };
            Ok((name.clone(), desc))
        },
        e => Err(ConvertError::UnsupportedOrderBy(e.copy())),
    }
}

fn order_keys(items: &Vec<OrderByExpr>) -> (r: Result<Vec<(String, bool)>, ConvertError>)
    ensures
        match r {
            Ok(keys) => order_keys_of(items@) == Ok::<Seq<(String, bool)>, ConvertError>(keys@),
            Err(e) => order_keys_of(items@) == Err::<Seq<(String, bool)>, ConvertError>(e),
        },
{
    let mut keys: Vec<(String, bool)> = Vec::new();
    let mut i: usize = 0;
    while i < items.len()
        invariant
            0 <= i <= items@.len(),
            order_keys_of(items@.subrange(0, i as int)) == Ok::<
                Seq<(String, bool)>,
                ConvertError,
            >(keys@),
        decreases items@.len() - i,
    {
        assert(items@.subrange(0, i + 1).drop_last() =~= items@.subrange(0, i as int));
        let k = order_key(&items[i]);
        match k {
            Ok(k) => keys.push(k),
            Err(e) => {
                proof {
                    lemma_order_keys_err_prefix(items@, i as int + 1);
                }
                return Err(e);
            },
        }
        i = i + 1;
    }
    assert(items@.subrange(0, items@.len() as int) =~= items@);
    Ok(keys)
}

proof fn lemma_order_keys_err_prefix(items: Seq<OrderByExpr>, i: int)
    requires
        0 <= i <= items.len(),
        order_keys_of(items.subrange(0, i)) is Err,
    ensures
        order_keys_of(items) == order_keys_of(items.subrange(0, i)),
    decreases items.len() - i,
{
    if i < items.len() {
        assert(items.subrange(0, i + 1).drop_last() =~= items.subrange(0, i));
        lemma_order_keys_err_prefix(items, i + 1);
    } else {
        assert(items.subrange(0, i) =~= items);
    }
}

impl Sql {
    /// Converts one parsed statement into a query descriptor.
    ///
    /// Fails when the statement is not a plain single-table SELECT, or an ORDER BY
    /// item is not a bare column name. OFFSET and LIMIT that are not numeric literals
    /// are taken as absent.
    pub fn try_from(stmt: &Statement) -> (r: Result<Sql, ConvertError>)
        ensures
            match r {
                Ok(sql) => conversion_error(*stmt) is None && converts_to(*stmt, sql),
                Err(e) => conversion_error(*stmt) == Some(e),
            },
    {
        let q = match stmt {
            Statement::Query(q) => q,
            Statement::Other(kind) => {
                return Err(ConvertError::UnsupportedStatement(kind.clone()));
            },
        };
        let sel = match &q.body {
            SetExpr::Select(sel) => sel,
            SetExpr::Other => {
                return Err(ConvertError::UnsupportedQueryShape);
            },
        };
        let source = match table_name_of(&sel.from) {
            Ok(s) => s,
            Err(e) => {
                return Err(e);
            },
        };
        let order_by = match order_keys(&q.order_by) {
            Ok(k) => k,
            Err(e) => {
                return Err(e);
            },
        };
        let mut selection: Vec<SelectItem> = Vec::new();
        let mut i: usize = 0;
        while i < sel.projection.len()
            invariant
                0 <= i <= sel.projection@.len(),
                selection@ == sel.projection@.subrange(0, i as int),
            decreases sel.projection@.len() - i,
        {
            selection.push(sel.projection[i].copy());
            i = i + 1;
        }
        assert(selection@ =~= sel.projection@);
        Ok(Sql {
            selection,
            condition: copy_option_expr(&sel.selection),
            source,
            order_by,
            offset: opt_count_of(&q.offset),
            limit: opt_count_of(&q.limit),
        })
    }
}

fn table_name_of(from: &Vec<TableWithJoins>) -> (r: Result<String, ConvertError>)
    ensures
        r == source_of(from@),
{
    if from.len() == 0 {
        return Err(ConvertError::NoDataSource);
    }
    if from.len() > 1 {
        return Err(ConvertError::MultipleDataSources);
    }
    let table = &from[0];
    if table.joins.len() > 0 {
        return Err(ConvertError::JoinsNotSupported);
    }
    match &table.relation {
        TableFactor::Table { name } => if name.len() == 0 {
            Err(ConvertError::NoDataSource)
        } else if name.len() > 1 {
            Err(ConvertError::UnsupportedRelation)
        } else {
            Ok(name[0].clone())
        },
        TableFactor::Other => Err(ConvertError::UnsupportedRelation),
    }
}

// ---------------------------------------------------------------------------
// Laws

/// A SELECT whose FROM clause names more than one relation, or holds a join, is refused:
/// with "only one data source supported" or "joins not supported", and never converted.
pub proof fn lemma_many_sources_or_joins_refused(stmt: Statement)
    requires
        stmt matches Statement::Query(q) && q.body matches SetExpr::Select(sel) && (sel.from@.len()
            > 1 || exists|k: int|
            0 <= k < sel.from@.len() && (#[trigger] sel.from@[k]).joins@.len() > 0),
    ensures
        conversion_error(stmt) == Some(
            if (stmt->Query_0).body->Select_0.from@.len() > 1 {
                ConvertError::MultipleDataSources
            } else {
                ConvertError::JoinsNotSupported
            },
        ),
{
}

/// ORDER BY items that are all bare column names convert one for one, in order, each
/// keeping its column name and direction; an item with no direction sorts ascending.
pub proof fn lemma_order_by_names_kept(items: Seq<OrderByExpr>)
    requires
        forall|i: int| 0 <= i < items.len() ==> (#[trigger] items[i]).expr is Identifier,
    ensures
        order_keys_of(items) matches Ok(keys) && keys.len() == items.len() && forall|i: int|
            0 <= i < items.len() ==> (#[trigger] keys[i]) == (
                items[i].expr->Identifier_0,
                items[i].asc == Some(false),
            ),
        forall|i: int|
            0 <= i < items.len() && (#[trigger] items[i]).asc is None ==> order_keys_of(
                items,
            )->Ok_0[i].1 == false,
    decreases items.len(),
{
    if items.len() > 0 {
        let d = items.drop_last();
        assert forall|i: int| 0 <= i < d.len() implies (#[trigger] d[i]).expr is Identifier by {
            assert(d[i] == items[i]);
        }
        lemma_order_by_names_kept(d);
        let keys = order_keys_of(items)->Ok_0;
        let rest = order_keys_of(d)->Ok_0;
        assert(items[items.len() - 1] == items.last());
        assert forall|i: int| 0 <= i < items.len() implies (#[trigger] keys[i]) == (
            items[i].expr->Identifier_0,
            items[i].asc == Some(false),
        ) by {
            if i < d.len() {
                assert(keys[i] == rest[i]);
                assert(d[i] == items[i]);
            }
        }
    }
}

} // verus!
