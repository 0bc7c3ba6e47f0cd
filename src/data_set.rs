//! Tables, and the execution of a query descriptor against one: filter, then sort,
//! then slice, then project.
use vstd::prelude::*;
use vstd::string::*;

use crate::convert::{
    expr_text, conversion_error, convert_error_text, converts_to, literal_count, parse_count, BinaryOperator, ConvertError, Expr,
    SelectItem, Sql, Statement, Value,
};

verus! {

/// One value of a table.
#[derive(Debug, PartialEq, Eq)]
pub enum Cell {
    Null,
    Bool(bool),
    Int(i64),
    Text(String),
}

/// The execution stage that found an error.
#[derive(Debug, Clone, Copy, PartialEq, Eq, Structural)]
pub enum Stage {
    Filter,
    Sort,
    Project,
}

/// Why a descriptor cannot be executed against a table.
#[derive(Debug, PartialEq, Eq)]
pub enum ExecError {
    /// A stage names a column the table does not have.
    ColumnNotFound(Stage, String),
    /// A stage holds an expression it cannot evaluate.
    UnsupportedExpression(Stage),
}

pub open spec fn stage_name(s: Stage) -> Seq<char> {
    match s {
        Stage::Filter => "filter"@,
        Stage::Sort => "sort"@,
        Stage::Project => "projection"@,
    }
}

impl Stage {
    pub fn name(&self) -> (r: &'static str)
        ensures
            r@ == stage_name(*self),
    {
        match self {
            Stage::Filter => "filter",
            Stage::Sort => "sort",
            Stage::Project => "projection",
        }
    }
}

impl ExecError {
    /// A human-readable message naming the stage and, where there is one, the column.
    pub fn message(&self) -> (r: String)
        ensures
            match self {
                ExecError::ColumnNotFound(stage, column) => r@ == "column not found in "@
                    + stage_name(*stage) + ": "@ + column@,
                ExecError::UnsupportedExpression(stage) => r@ == "unsupported expression in "@
                    + stage_name(*stage),
            },
    {
        match self {
            ExecError::ColumnNotFound(stage, column) => {
                let mut m = String::from_str("column not found in ");
                m.append(stage.name());
                m.append(": ");
                m.append(column.as_str());
                m
            },
            ExecError::UnsupportedExpression(stage) => {
                let mut m = String::from_str("unsupported expression in ");
                m.append(stage.name());
                m
            },
        }
    }
}

/// A table: named columns and rows of cells, one cell per column.
#[derive(Debug)]
pub struct DataSet {
    pub columns: Vec<String>,
    pub rows: Vec<Vec<Cell>>,
}

pub open spec fn rows_model(rows: Seq<Vec<Cell>>) -> Seq<Seq<Cell>> {
    rows.map_values(|r: Vec<Cell>| r@)
}

impl DataSet {
    /// Every row has one cell per column.
    pub open spec fn wf(&self) -> bool {
        forall|i: int| 0 <= i < self.rows@.len() ==> (#[trigger] self.rows@[i])@.len()
            == self.columns@.len()
    }

    pub open spec fn column_names(&self) -> Seq<Seq<char>> {
        self.columns@.map_values(|c: String| c@)
    }

    pub open spec fn row_seq(&self) -> Seq<Seq<Cell>> {
        rows_model(self.rows@)
    }
}

// ---------------------------------------------------------------------------
// Columns and values

/// The index of the first column at or after `i` named `name`.
pub open spec fn find_column_from(cols: Seq<String>, name: Seq<char>, i: nat) -> Option<nat>
    decreases cols.len() - i,
{
    if i >= cols.len() {
        None
    } else if cols[i as int]@ == name {
        Some(i)
    } else {
        find_column_from(cols, name, i + 1)
    }
}

/// The index of the first column named `name`.
pub open spec fn find_column(cols: Seq<String>, name: Seq<char>) -> Option<nat> {
    find_column_from(cols, name, 0)
}

proof fn lemma_find_column_from_bound(cols: Seq<String>, name: Seq<char>, i: nat)
    ensures
        find_column_from(cols, name, i) matches Some(k) ==> i <= k < cols.len()
            && cols[k as int]@ == name,
    decreases cols.len() - i,
{
    if i < cols.len() {
        lemma_find_column_from_bound(cols, name, i + 1);
    }
}

fn column_index(cols: &Vec<String>, name: &String) -> (r: Option<usize>)
    ensures
        match r {
            Some(i) => find_column(cols@, name@) == Some(i as nat) && i < cols@.len(),
            None => find_column(cols@, name@) is None,
        },
{
    let mut i: usize = 0;
    while i < cols.len()
        invariant
            0 <= i <= cols@.len(),
            find_column(cols@, name@) == find_column_from(cols@, name@, i as nat),
        decreases cols@.len() - i,
    {
        if cols[i] == *name {
            return Some(i);
        }
        i = i + 1;
    }
    None
}

/// Lexicographic order of two strings: negative, zero or positive.
pub open spec fn text_cmp(a: Seq<char>, b: Seq<char>) -> int
    decreases a.len(),
{
    if a.len() == 0 {
        if b.len() == 0 {
            0
        } else {
            -1
        }
    } else if b.len() == 0 {
        1
    } else if (a[0] as u32) < (b[0] as u32) {
        -1
    } else if (a[0] as u32) > (b[0] as u32) {
        1
    } else {
        text_cmp(a.drop_first(), b.drop_first())
    }
}

pub open spec fn cell_rank(c: Cell) -> int {
    match c {
        Cell::Null => 0,
        Cell::Bool(_) => 1,
        Cell::Int(_) => 2,
        Cell::Text(_) => 3,
    }
}

pub open spec fn sign(a: int, b: int) -> int {
    if a < b {
        -1
    } else if a > b {
        1
    } else {
        0
    }
}

/// The order of cells: nulls first, then booleans, integers and strings, each by value.
pub open spec fn cell_cmp(a: Cell, b: Cell) -> int {
    match (a, b) {
        (Cell::Bool(x), Cell::Bool(y)) => sign(if x { 1 } else { 0 }, if y { 1 } else { 0 }),
        (Cell::Int(x), Cell::Int(y)) => sign(x as int, y as int),
        (Cell::Text(x), Cell::Text(y)) => text_cmp(x@, y@),
        _ => sign(cell_rank(a), cell_rank(b)),
    }
}

/// The cell a literal denotes; a number too large for `i64` is null.
pub open spec fn literal_cell(v: Value) -> Cell {
    match v {
        Value::Number(s) => match literal_count(s@) {
            Some(n) => if n <= i64::MAX {
                Cell::Int(n as i64)
            } else {
                Cell::Null
            },
            None => Cell::Null,
        },
        Value::SingleQuotedString(s) => Cell::Text(s),
        Value::Boolean(b) => Cell::Bool(b),
        Value::Null => Cell::Null,
    }
}

/// A binary operator on two cells. Comparisons of a null or of cells of different
/// kinds, and logic on cells that are not booleans, give null.
pub open spec fn apply_op(op: BinaryOperator, a: Cell, b: Cell) -> Cell {
    match op {
        BinaryOperator::And => match (a, b) {
            (Cell::Bool(x), Cell::Bool(y)) => Cell::Bool(x && y),
            _ => Cell::Null,
        },
        BinaryOperator::Or => match (a, b) {
            (Cell::Bool(x), Cell::Bool(y)) => Cell::Bool(x || y),
            _ => Cell::Null,
        },
        _ => if a is Null || b is Null || cell_rank(a) != cell_rank(b) {
            Cell::Null
        } else {
            let c = cell_cmp(a, b);
            Cell::Bool(
                match op {
                    BinaryOperator::Gt => c > 0,
                    BinaryOperator::Lt => c < 0,
                    BinaryOperator::GtEq => c >= 0,
                    BinaryOperator::LtEq => c <= 0,
                    BinaryOperator::Eq => c == 0,
                    _ => c != 0,
                },
            )
        },
    }
}

/// The value of `e` on a row of a table with columns `cols`.
pub open spec fn eval(e: Expr, cols: Seq<String>, row: Seq<Cell>) -> Cell
    decreases e,
{
    match e {
        Expr::Identifier(n) => match find_column(cols, n@) {
            Some(i) => if i < row.len() {
                row[i as int]
            } else {
                Cell::Null
            },
            None => Cell::Null,
        },
        Expr::Value(v) => literal_cell(v),
        Expr::BinaryOp { left, op, right } => apply_op(
            op,
            eval(*left, cols, row),
            eval(*right, cols, row),
        ),
        Expr::Not(x) => match eval(*x, cols, row) {
            Cell::Bool(b) => Cell::Bool(!b),
            _ => Cell::Null,
        },
        Expr::Nested(x) => eval(*x, cols, row),
        Expr::Other(_) => Cell::Null,
    }
}

/// The first problem with `e` on a table with columns `cols`, leftmost first: a column
/// it names that the table lacks, or a sub-expression that cannot be evaluated.
pub open spec fn expr_error(e: Expr, cols: Seq<String>, stage: Stage) -> Option<ExecError>
    decreases e,
{
    match e {
        Expr::Identifier(n) => if find_column(cols, n@) is Some {
            None
        } else {
            Some(ExecError::ColumnNotFound(stage, n))
        },
        Expr::Value(_) => None,
        Expr::BinaryOp { left, op, right } => match expr_error(*left, cols, stage) {
            Some(x) => Some(x),
            None => expr_error(*right, cols, stage),
        },
        Expr::Not(x) => expr_error(*x, cols, stage),
        Expr::Nested(x) => expr_error(*x, cols, stage),
        Expr::Other(_) => Some(ExecError::UnsupportedExpression(stage)),
    }
}

impl Cell {
    pub fn copy(&self) -> (r: Cell)
        ensures
            r == *self,
    {
        match self {
            Cell::Null => Cell::Null,
            Cell::Bool(b) => Cell::Bool(*b),
            Cell::Int(i) => Cell::Int(*i),
            Cell::Text(s) => Cell::Text(s.clone()),
        }
    }
}

fn copy_row(row: &Vec<Cell>) -> (r: Vec<Cell>)
    ensures
        r@ == row@,
{
    let mut out: Vec<Cell> = Vec::new();
    let mut i: usize = 0;
    while i < row.len()
        invariant
            0 <= i <= row@.len(),
            out@ == row@.subrange(0, i as int),
        decreases row@.len() - i,
    {
        out.push(row[i].copy());
        i = i + 1;
    }
    assert(out@ =~= row@);
    out
}

fn compare_text(a: &String, b: &String) -> (r: i8)
    ensures
        r as int == text_cmp(a@, b@),
        -1 <= r <= 1,
{
    let la = a.as_str().unicode_len();
    let lb = b.as_str().unicode_len();
    let mut i: usize = 0;
    assert(a@.subrange(0, la as int) =~= a@);
    assert(b@.subrange(0, lb as int) =~= b@);
    while i < la && i < lb
        invariant
            la == a@.len(),
            lb == b@.len(),
            0 <= i <= la,
            i <= lb,
            text_cmp(a@, b@) == text_cmp(
                a@.subrange(i as int, la as int),
                b@.subrange(i as int, lb as int),
            ),
        decreases la - i,
    {
        let ca = a.as_str().get_char(i);
        let cb = b.as_str().get_char(i);
        assert(a@.subrange(i as int, la as int).drop_first() =~= a@.subrange(
            i + 1,
            la as int,
        ));
        assert(b@.subrange(i as int, lb as int).drop_first() =~= b@.subrange(
            i + 1,
            lb as int,
        ));
        if (ca as u32) < (cb as u32) {
            return -1;
        }
        if (ca as u32) > (cb as u32) {
            return 1;
        }
        i = i + 1;
    }
    if i == la {
        if i == lb {
            0
        } else {
            -1
        }
    } else {
        1
    }
}

fn rank(c: &Cell) -> (r: u8)
    ensures
        r as int == cell_rank(*c),
{
    match c {
        Cell::Null => 0,
        Cell::Bool(_) => 1,
        Cell::Int(_) => 2,
        Cell::Text(_) => 3,
    }
}

fn compare_cells(a: &Cell, b: &Cell) -> (r: i8)
    ensures
        r as int == cell_cmp(*a, *b),
        -1 <= r <= 1,
{
    match (a, b) {
        (Cell::Bool(x), Cell::Bool(y)) => {
            if *x == *y {
                0
            } else if *y {
                -1
            } else {
                1
            }
        },
        (Cell::Int(x), Cell::Int(y)) => {
            if *x < *y {
                -1
            } else if *x > *y {
                1
            } else {
                0
            }
        },
        (Cell::Text(x), Cell::Text(y)) => compare_text(x, y),
        _ => {
            let ra = rank(a);
            let rb = rank(b);
            if ra < rb {
                -1
            } else if ra > rb {
                1
            } else {
                0
            }
        },
    }
}

fn cell_of_literal(v: &Value) -> (r: Cell)
    ensures
        r == literal_cell(*v),
{
    match v {
        Value::Number(s) => match parse_count(s.as_str()) {
            Some(n) => if (n as u64) <= (i64::MAX as u64) {
                Cell::Int(n as i64)
            } else {
                Cell::Null
            },
            None => Cell::Null,
        },
        Value::SingleQuotedString(s) => Cell::Text(s.clone()),
        Value::Boolean(b) => Cell::Bool(*b),
        Value::Null => Cell::Null,
    }
}

fn apply(op: BinaryOperator, a: Cell, b: Cell) -> (r: Cell)
    ensures
        r == apply_op(op, a, b),
{
    match op {
        BinaryOperator::And => match (a, b) {
            (Cell::Bool(x), Cell::Bool(y)) => Cell::Bool(x && y),
            _ => Cell::Null,
        },
        BinaryOperator::Or => match (a, b) {
            (Cell::Bool(x), Cell::Bool(y)) => Cell::Bool(x || y),
            _ => Cell::Null,
        },
        _ => {
            if matches!(a, Cell::Null) || matches!(b, Cell::Null) || rank(&a) != rank(&b) {
                Cell::Null
            } else {
                let c = compare_cells(&a, &b);
                let t = match op {
                    BinaryOperator::Gt => c > 0,
                    BinaryOperator::Lt => c < 0,
                    BinaryOperator::GtEq => c >= 0,
                    BinaryOperator::LtEq => c <= 0,
                    BinaryOperator::Eq => c == 0,
                    _ => c != 0,
                };
                Cell::Bool(t)
            }
        },
    }
}

/// Evaluates `e` on one row of a table with columns `cols`.
pub fn evaluate(e: &Expr, cols: &Vec<String>, row: &Vec<Cell>) -> (r: Cell)
    ensures
        r == eval(*e, cols@, row@),
    decreases e,
{
    match e {
        Expr::Identifier(n) => match column_index(cols, n) {
            Some(i) => if i < row.len() {
                row[i].copy()
            } else {
                Cell::Null
            },
            None => Cell::Null,
        },
        Expr::Value(v) => cell_of_literal(v),
        Expr::BinaryOp { left, op, right } => {
            let l = evaluate(left, cols, row);
            let r = evaluate(right, cols, row);
            apply(*op, l, r)
        },
        Expr::Not(x) => match evaluate(x, cols, row) {
            Cell::Bool(b) => Cell::Bool(!b),
            _ => Cell::Null,
        },
        Expr::Nested(x) => evaluate(x, cols, row),
        Expr::Other(_) => Cell::Null,
    }
}

/// The first problem with `e` on a table with columns `cols`, if any.
pub fn check_expr(e: &Expr, cols: &Vec<String>, stage: Stage) -> (r: Option<ExecError>)
    ensures
        r == expr_error(*e, cols@, stage),
    decreases e,
{
    match e {
        Expr::Identifier(n) => match column_index(cols, n) {
            Some(_) => None,
            None => Some(ExecError::ColumnNotFound(stage, n.clone())),
        },
        Expr::Value(_) => None,
        Expr::BinaryOp { left, op, right } => match check_expr(left, cols, stage) {
            Some(x) => Some(x),
            None => check_expr(right, cols, stage),
        },
        Expr::Not(x) => check_expr(x, cols, stage),
        Expr::Nested(x) => check_expr(x, cols, stage),
        Expr::Other(_) => Some(ExecError::UnsupportedExpression(stage)),
    }
}

// ---------------------------------------------------------------------------
// Filter

/// The rows on which `cond` is true, in their order.
pub open spec fn keep_rows(cond: Expr, cols: Seq<String>, rows: Seq<Seq<Cell>>) -> Seq<Seq<Cell>>
    decreases rows.len(),
{
    if rows.len() == 0 {
        Seq::empty()
    } else {
        let rest = keep_rows(cond, cols, rows.drop_last());
        if eval(cond, cols, rows.last()) == Cell::Bool(true) {
            rest.push(rows.last())
        } else {
            rest
        }
    }
}

fn filter_rows(cond: &Expr, cols: &Vec<String>, rows: &Vec<Vec<Cell>>) -> (r: Vec<Vec<Cell>>)
    ensures
        rows_model(r@) == keep_rows(*cond, cols@, rows_model(rows@)),
{
    let mut out: Vec<Vec<Cell>> = Vec::new();
    let mut i: usize = 0;
    while i < rows.len()
        invariant
            0 <= i <= rows@.len(),
            rows_model(out@) == keep_rows(
                *cond,
                cols@,
                rows_model(rows@).subrange(0, i as int),
            ),
        decreases rows@.len() - i,
    {
        let ghost before = out@;
        assert(rows_model(rows@).subrange(0, i + 1).drop_last() =~= rows_model(rows@).subrange(
            0,
            i as int,
        ));
        assert(rows_model(rows@).subrange(0, i + 1).last() == rows@[i as int]@);
        if matches!(evaluate(cond, cols, &rows[i]), Cell::Bool(true)) {
            out.push(copy_row(&rows[i]));
            assert(rows_model(out@) =~= rows_model(before).push(rows@[i as int]@));
        }
        i = i + 1;
    }
    assert(rows_model(rows@).subrange(0, rows@.len() as int) =~= rows_model(rows@));
    out
}

// ---------------------------------------------------------------------------
// Sort

/// The sort keys as column indices, or the first key naming a missing column.
pub open spec fn resolve_keys(keys: Seq<(String, bool)>, cols: Seq<String>) -> Result<
    Seq<(usize, bool)>,
    ExecError,
>
    decreases keys.len(),
{
    if keys.len() == 0 {
        Ok(Seq::empty())
    } else {
        match resolve_keys(keys.drop_last(), cols) {
            Err(e) => Err(e),
            Ok(ks) => match find_column(cols, keys.last().0@) {
                Some(i) => Ok(ks.push((i as usize, keys.last().1))),
                None => Err(ExecError::ColumnNotFound(Stage::Sort, keys.last().0)),
            },
        }
    }
}

/// How cell `a` orders against cell `b` under one sort key: by value, reversed when
/// the key is descending; nulls come first in either direction.
pub open spec fn key_cmp(a: Cell, b: Cell, desc: bool) -> int {
    if a is Null || b is Null {
        cell_cmp(a, b)
    } else if desc {
        -cell_cmp(a, b)
    } else {
        cell_cmp(a, b)
    }
}

/// How row `a` orders against row `b` under `keys`: the first key on which they differ
/// decides, as `key_cmp` orders its cells; zero when they agree on every key.
pub open spec fn row_cmp(a: Seq<Cell>, b: Seq<Cell>, keys: Seq<(usize, bool)>) -> int
    decreases keys.len(),
{
    if keys.len() == 0 {
        0
    } else {
        let k = keys[0].0 as int;
        let c = if k < a.len() && k < b.len() {
            key_cmp(a[k], b[k], keys[0].1)
        } else {
            0
        };
        if c != 0 {
            c
        } else {
            row_cmp(a, b, keys.drop_first())
        }
    }
}

/// `s` with `r` placed after every row that does not order after it.
pub open spec fn insert_row(s: Seq<Seq<Cell>>, r: Seq<Cell>, keys: Seq<(usize, bool)>) -> Seq<
    Seq<Cell>,
>
    decreases s.len(),
{
    if s.len() == 0 {
        seq![r]
    } else if row_cmp(r, s.last(), keys) < 0 {
        insert_row(s.drop_last(), r, keys).push(s.last())
    } else {
        s.push(r)
    }
}

/// The rows in the order of `keys`; rows that agree on every key keep their order
/// (a stable sort).
pub open spec fn sort_rows(rows: Seq<Seq<Cell>>, keys: Seq<(usize, bool)>) -> Seq<Seq<Cell>>
    decreases rows.len(),
{
    if rows.len() == 0 {
        Seq::empty()
    } else {
        insert_row(sort_rows(rows.drop_last(), keys), rows.last(), keys)
    }
}

fn sort_keys(keys: &Vec<(String, bool)>, cols: &Vec<String>) -> (r: Result<
    Vec<(usize, bool)>,
    ExecError,
>)
    ensures
        match r {
            Ok(ks) => resolve_keys(keys@, cols@) == Ok::<Seq<(usize, bool)>, ExecError>(ks@),
            Err(e) => resolve_keys(keys@, cols@) == Err::<Seq<(usize, bool)>, ExecError>(e),
        },
{
    let mut out: Vec<(usize, bool)> = Vec::new();
    let mut i: usize = 0;
    while i < keys.len()
        invariant
            0 <= i <= keys@.len(),
            resolve_keys(keys@.subrange(0, i as int), cols@) == Ok::<
                Seq<(usize, bool)>,
                ExecError,
            >(out@),
        decreases keys@.len() - i,
    {
        assert(keys@.subrange(0, i + 1).drop_last() =~= keys@.subrange(0, i as int));
        match column_index(cols, &keys[i].0) {
            Some(c) => out.push((c, keys[i].1)),
            None => {
                proof {
                    lemma_resolve_keys_err_prefix(keys@, cols@, i as int + 1);
                }
                return Err(ExecError::ColumnNotFound(Stage::Sort, keys[i].0.clone()));
            },
        }
        i = i + 1;
    }
    assert(keys@.subrange(0, keys@.len() as int) =~= keys@);
    Ok(out)
}

proof fn lemma_resolve_keys_err_prefix(keys: Seq<(String, bool)>, cols: Seq<String>, i: int)
    requires
        0 <= i <= keys.len(),
        resolve_keys(keys.subrange(0, i), cols) is Err,
    ensures
        resolve_keys(keys, cols) == resolve_keys(keys.subrange(0, i), cols),
    decreases keys.len() - i,
{
    if i < keys.len() {
        assert(keys.subrange(0, i + 1).drop_last() =~= keys.subrange(0, i));
        lemma_resolve_keys_err_prefix(keys, cols, i + 1);
    } else {
        assert(keys.subrange(0, i) =~= keys);
    }
}

fn compare_rows(a: &Vec<Cell>, b: &Vec<Cell>, keys: &Vec<(usize, bool)>) -> (r: i8)
    ensures
        r as int == row_cmp(a@, b@, keys@),
        -1 <= r <= 1,
{
    let mut j: usize = 0;
    assert(keys@.subrange(0, keys@.len() as int) =~= keys@);
    while j < keys.len()
        invariant
            0 <= j <= keys@.len(),
            row_cmp(a@, b@, keys@) == row_cmp(a@, b@, keys@.subrange(j as int, keys@.len() as int)),
        decreases keys@.len() - j,
    {
        let (k, desc) = keys[j];
        assert(keys@.subrange(j as int, keys@.len() as int).drop_first() =~= keys@.subrange(
            j + 1,
            keys@.len() as int,
        ));
        let c: i8 = if k < a.len() && k < b.len() {
            let c = compare_cells(&a[k], &b[k]);
            if desc && !matches!(a[k], Cell::Null) && !matches!(b[k], Cell::Null) {
                -c
            } else {
                c
            }
        } else {
            0
        };
        if c != 0 {
            return c;
        }
        j = j + 1;
    }
    0
}

proof fn lemma_insert_row_at(s: Seq<Seq<Cell>>, r: Seq<Cell>, keys: Seq<(usize, bool)>, j: int)
    requires
        0 <= j <= s.len(),
        j == 0 || row_cmp(r, s[j - 1], keys) >= 0,
        forall|k: int| j <= k < s.len() ==> row_cmp(r, #[trigger] s[k], keys) < 0,
    ensures
        insert_row(s, r, keys) == s.subrange(0, j).push(r) + s.subrange(j, s.len() as int),
    decreases s.len() - j,
{
    if j == s.len() {
        if s.len() == 0 {
            assert(s.subrange(0, j).push(r) + s.subrange(j, s.len() as int) =~= seq![r]);
        } else {
            assert(s.subrange(0, j) =~= s);
            assert(s.subrange(0, j).push(r) + s.subrange(j, s.len() as int) =~= s.push(r));
        }
    } else {
        let t = s.drop_last();
        assert(row_cmp(r, s.last(), keys) < 0);
        assert forall|k: int| j <= k < t.len() implies row_cmp(r, #[trigger] t[k], keys) < 0 by {
            assert(t[k] == s[k]);
        }
        lemma_insert_row_at(t, r, keys, j);
        assert(t.subrange(0, j).push(r) + t.subrange(j, t.len() as int) + seq![s.last()]
            =~= s.subrange(0, j).push(r) + s.subrange(j, s.len() as int));
        assert(insert_row(t, r, keys).push(s.last()) =~= insert_row(t, r, keys) + seq![s.last()]);
    }
}

fn sort_by_keys(rows: &Vec<Vec<Cell>>, keys: &Vec<(usize, bool)>) -> (r: Vec<Vec<Cell>>)
    ensures
        rows_model(r@) == sort_rows(rows_model(rows@), keys@),
{
    let mut out: Vec<Vec<Cell>> = Vec::new();
    let mut i: usize = 0;
    while i < rows.len()
        invariant
            0 <= i <= rows@.len(),
            out@.len() == i,
            rows_model(out@) == sort_rows(rows_model(rows@).subrange(0, i as int), keys@),
        decreases rows@.len() - i,
    {
        let row = copy_row(&rows[i]);
        let ghost s = rows_model(out@);
        let mut j: usize = out.len();
        while j > 0 && compare_rows(&row, &out[j - 1], keys) < 0
            invariant
                0 <= j <= out@.len(),
                s == rows_model(out@),
                forall|k: int| j <= k < out@.len() ==> row_cmp(row@, #[trigger] s[k], keys@) < 0,
            decreases j,
        {
            j = j - 1;
        }
        proof {
            lemma_insert_row_at(s, row@, keys@, j as int);
            assert(rows_model(rows@).subrange(0, i + 1).drop_last() =~= rows_model(rows@).subrange(
                0,
                i as int,
            ));
            assert(rows_model(rows@).subrange(0, i + 1).last() == row@);
        }
        out.insert(j, row);
        assert(rows_model(out@) =~= s.subrange(0, j as int).push(row@) + s.subrange(
            j as int,
            s.len() as int,
        ));
        i = i + 1;
    }
    assert(rows_model(rows@).subrange(0, rows@.len() as int) =~= rows_model(rows@));
    out
}

// ---------------------------------------------------------------------------
// Slice

/// Where a slice starts: `offset` rows in (none when absent), and no later than the end.
pub open spec fn slice_start(len: nat, offset: Option<usize>) -> nat {
    match offset {
        Some(o) => if o <= len {
            o as nat
        } else {
            len
        },
        None => 0,
    }
}

/// Where a slice ends: `limit` rows after its start (all when absent), and no later
/// than the end.
pub open spec fn slice_end(len: nat, offset: Option<usize>, limit: Option<usize>) -> nat {
    let start = slice_start(len, offset);
    match limit {
        Some(l) => if l <= len - start {
            (start + l) as nat
        } else {
            len
        },
        None => len,
    }
}

/// The rows that skipping `offset` and keeping up to `limit` leaves.
pub open spec fn slice_rows(rows: Seq<Seq<Cell>>, offset: Option<usize>, limit: Option<usize>) -> Seq<
    Seq<Cell>,
> {
    rows.subrange(
        slice_start(rows.len(), offset) as int,
        slice_end(rows.len(), offset, limit) as int,
    )
}

fn take_slice(rows: &Vec<Vec<Cell>>, offset: Option<usize>, limit: Option<usize>) -> (r: Vec<
    Vec<Cell>,
>)
    ensures
        rows_model(r@) == slice_rows(rows_model(rows@), offset, limit),
{
    let len = rows.len();
    let start: usize = match offset {
        Some(o) => if o <= len {
            o
        } else {
            len
        },
        None => 0,
    };
    let end: usize = match limit {
        Some(l) => if l <= len - start {
            start + l
        } else {
            len
        },
        None => len,
    };
    let mut out: Vec<Vec<Cell>> = Vec::new();
    let mut i: usize = start;
    while i < end
        invariant
            start <= i <= end <= len == rows@.len(),
            rows_model(out@) == rows_model(rows@).subrange(start as int, i as int),
        decreases end - i,
    {
        let ghost before = out@;
        out.push(copy_row(&rows[i]));
        assert(rows_model(out@) =~= rows_model(before).push(rows@[i as int]@));
        assert(rows_model(out@) =~= rows_model(rows@).subrange(start as int, i + 1));
        i = i + 1;
    }
    out
}

// ---------------------------------------------------------------------------
// Projection

/// Where an output column's cells come from: a column of the table, or an expression
/// computed on each row.
#[derive(Debug)]
pub enum PlanSource {
    Column(usize),
    Computed(Expr),
}

impl PlanSource {
    pub fn copy(&self) -> (r: PlanSource)
        ensures
            r == *self,
    {
        match self {
            PlanSource::Column(i) => PlanSource::Column(*i),
            PlanSource::Computed(e) => PlanSource::Computed(e.copy()),
        }
    }
}

/// The output column of an expression item named `name`: a bare column name reads that
/// column; any other expression is computed, once every column it names is found.
pub open spec fn expr_column(e: Expr, name: Seq<char>, cols: Seq<String>) -> Result<
    Seq<(Seq<char>, PlanSource)>,
    ExecError,
> {
    match e {
        Expr::Identifier(n) => match find_column(cols, n@) {
            Some(i) => Ok(seq![(name, PlanSource::Column(i as usize))]),
            None => Err(ExecError::ColumnNotFound(Stage::Project, n)),
        },
        _ => match expr_error(e, cols, Stage::Project) {
            Some(err) => Err(err),
            None => Ok(seq![(name, PlanSource::Computed(e))]),
        },
    }
}

/// The output columns one SELECT item gives, each with its name and where its cells
/// come from. An expression without an alias is named by its text.
pub open spec fn item_columns(item: SelectItem, cols: Seq<String>) -> Result<
    Seq<(Seq<char>, PlanSource)>,
    ExecError,
> {
    match item {
        SelectItem::Wildcard => Ok(
            Seq::new(cols.len(), |i: int| (cols[i]@, PlanSource::Column(i as usize))),
        ),
        SelectItem::UnnamedExpr(e) => expr_column(e, expr_text(e), cols),
        SelectItem::ExprWithAlias { expr, alias } => expr_column(expr, alias@, cols),
    }
}

/// The output columns of a SELECT list, in order, or the error of its first bad item.
pub open spec fn projection_plan(items: Seq<SelectItem>, cols: Seq<String>) -> Result<
    Seq<(Seq<char>, PlanSource)>,
    ExecError,
>
    decreases items.len(),
{
    if items.len() == 0 {
        Ok(Seq::empty())
    } else {
        match projection_plan(items.drop_last(), cols) {
            Err(e) => Err(e),
            Ok(p) => match item_columns(items.last(), cols) {
                Err(e) => Err(e),
                Ok(q) => Ok(p + q),
            },
        }
    }
}

pub open spec fn plan_view(plan: Seq<(String, PlanSource)>) -> Seq<(Seq<char>, PlanSource)> {
    plan.map_values(|p: (String, PlanSource)| (p.0@, p.1))
}

pub open spec fn plan_names(plan: Seq<(Seq<char>, PlanSource)>) -> Seq<Seq<char>> {
    plan.map_values(|p: (Seq<char>, PlanSource)| p.0)
}

pub open spec fn output_cell(row: Seq<Cell>, cols: Seq<String>, src: PlanSource) -> Cell {
    match src {
        PlanSource::Column(i) => row[i as int],
        PlanSource::Computed(e) => eval(e, cols, row),
    }
}

pub open spec fn project_row(row: Seq<Cell>, cols: Seq<String>, plan: Seq<(Seq<char>, PlanSource)>) -> Seq<Cell> {
    plan.map_values(|p: (Seq<char>, PlanSource)| output_cell(row, cols, p.1))
}

pub open spec fn project_rows(
    rows: Seq<Seq<Cell>>,
    cols: Seq<String>,
    plan: Seq<(Seq<char>, PlanSource)>,
) -> Seq<Seq<Cell>> {
    rows.map_values(|r: Seq<Cell>| project_row(r, cols, plan))
}

pub open spec fn columns_in_range(plan: Seq<(Seq<char>, PlanSource)>, width: nat) -> bool {
    forall|k: int| 0 <= k < plan.len() ==> ((#[trigger] plan[k]).1 matches PlanSource::Column(i)
        ==> i < width)
}

proof fn lemma_find_column_some(cols: Seq<String>, name: Seq<char>)
    ensures
        find_column(cols, name) matches Some(k) ==> k < cols.len() && cols[k as int]@ == name,
{
    lemma_find_column_from_bound(cols, name, 0);
}

fn single_column(name: String, src: PlanSource) -> (r: Vec<(String, PlanSource)>)
    ensures
        plan_view(r@) == seq![(name@, src)],
{
    let mut v: Vec<(String, PlanSource)> = Vec::new();
    let ghost g = (name@, src);
    v.push((name, src));
    assert(plan_view(v@) =~= seq![g]);
    v
}

fn expr_plan(e: &Expr, name: String, cols: &Vec<String>) -> (r: Result<
    Vec<(String, PlanSource)>,
    ExecError,
>)
    ensures
        match r {
            Ok(p) => expr_column(*e, name@, cols@) == Ok::<
                Seq<(Seq<char>, PlanSource)>,
                ExecError,
            >(plan_view(p@)),
            Err(err) => expr_column(*e, name@, cols@) == Err::<
                Seq<(Seq<char>, PlanSource)>,
                ExecError,
            >(err),
        },
{
    match e {
        Expr::Identifier(n) => match column_index(cols, n) {
            Some(i) => Ok(single_column(name, PlanSource::Column(i))),
            None => Err(ExecError::ColumnNotFound(Stage::Project, n.clone())),
        },
        _ => match check_expr(e, cols, Stage::Project) {
            Some(err) => Err(err),
            None => Ok(single_column(name, PlanSource::Computed(e.copy()))),
        },
    }
}

fn item_plan(item: &SelectItem, cols: &Vec<String>) -> (r: Result<
    Vec<(String, PlanSource)>,
    ExecError,
>)
    ensures
        match r {
            Ok(p) => item_columns(*item, cols@) == Ok::<
                Seq<(Seq<char>, PlanSource)>,
                ExecError,
            >(plan_view(p@)),
            Err(e) => item_columns(*item, cols@) == Err::<
                Seq<(Seq<char>, PlanSource)>,
                ExecError,
            >(e),
        },
{
    match item {
        SelectItem::Wildcard => {
            let mut out: Vec<(String, PlanSource)> = Vec::new();
            let mut i: usize = 0;
            assert(plan_view(out@) =~= Seq::new(
                0,
                |k: int| (cols@[k]@, PlanSource::Column(k as usize)),
            ));
            while i < cols.len()
                invariant
                    0 <= i <= cols@.len(),
                    plan_view(out@) == Seq::new(
                        i as nat,
                        |k: int| (cols@[k]@, PlanSource::Column(k as usize)),
                    ),
                decreases cols@.len() - i,
            {
                let ghost before = out@;
                out.push((cols[i].clone(), PlanSource::Column(i)));
                assert(plan_view(out@) =~= plan_view(before).push(
                    (cols@[i as int]@, PlanSource::Column(i)),
                ));
                assert(plan_view(out@) =~= Seq::new(
                    (i + 1) as nat,
                    |k: int| (cols@[k]@, PlanSource::Column(k as usize)),
                ));
                i = i + 1;
            }
            let ghost expect = Seq::new(
                cols@.len(),
                |k: int| (cols@[k]@, PlanSource::Column(k as usize)),
            );
            assert(plan_view(out@) =~= expect);
            Ok(out)
        },
        SelectItem::UnnamedExpr(e) => expr_plan(e, e.to_text(), cols),
        SelectItem::ExprWithAlias { expr, alias } => expr_plan(expr, alias.clone(), cols),
    }
}

proof fn lemma_item_columns_in_range(item: SelectItem, cols: Seq<String>)
    ensures
        item_columns(item, cols) matches Ok(q) ==> columns_in_range(q, cols.len()),
{
    match item {
        SelectItem::UnnamedExpr(Expr::Identifier(n)) => lemma_find_column_some(cols, n@),
        SelectItem::ExprWithAlias { expr: Expr::Identifier(n), alias } => lemma_find_column_some(
            cols,
            n@,
        ),
        _ => {},
    }
}

proof fn lemma_projection_plan_in_range(items: Seq<SelectItem>, cols: Seq<String>)
    ensures
        projection_plan(items, cols) matches Ok(p) ==> columns_in_range(p, cols.len()),
    decreases items.len(),
{
    if items.len() > 0 {
        lemma_projection_plan_in_range(items.drop_last(), cols);
        lemma_item_columns_in_range(items.last(), cols);
        if let Ok(p) = projection_plan(items, cols) {
            let a = projection_plan(items.drop_last(), cols)->Ok_0;
            let b = item_columns(items.last(), cols)->Ok_0;
            assert(p == a + b);
            assert forall|k: int| 0 <= k < p.len() implies ((#[trigger] p[k]).1 matches PlanSource::Column(i)
                ==> i < cols.len()) by {
                if k < a.len() {
                    assert(p[k] == a[k]);
                } else {
                    assert(p[k] == b[k - a.len()]);
                }
            }
        }
    }
}

fn plan_projection(items: &Vec<SelectItem>, cols: &Vec<String>) -> (r: Result<
    Vec<(String, PlanSource)>,
    ExecError,
>)
    ensures
        match r {
            Ok(p) => projection_plan(items@, cols@) == Ok::<
                Seq<(Seq<char>, PlanSource)>,
                ExecError,
            >(plan_view(p@)),
            Err(e) => projection_plan(items@, cols@) == Err::<
                Seq<(Seq<char>, PlanSource)>,
                ExecError,
            >(e),
        },
{
    let mut out: Vec<(String, PlanSource)> = Vec::new();
    let mut i: usize = 0;
    assert(plan_view(out@) =~= Seq::empty());
    assert(items@.subrange(0, 0) =~= Seq::empty());
    while i < items.len()
        invariant
            0 <= i <= items@.len(),
            projection_plan(items@.subrange(0, i as int), cols@) == Ok::<
                Seq<(Seq<char>, PlanSource)>,
                ExecError,
            >(plan_view(out@)),
        decreases items@.len() - i,
    {
        assert(items@.subrange(0, i + 1).drop_last() =~= items@.subrange(0, i as int));
        match item_plan(&items[i], cols) {
            Ok(mut q) => {
                let ghost before = out@;
                let ghost qs = q@;
                out.append(&mut q);
                assert(out@ =~= before + qs);
                assert(plan_view(out@) =~= plan_view(before) + plan_view(qs));
            },
            Err(e) => {
                proof {
                    lemma_projection_plan_err_prefix(items@, cols@, i as int + 1);
                }
                return Err(e);
            },
        }
        i = i + 1;
    }
    assert(items@.subrange(0, items@.len() as int) =~= items@);
    Ok(out)
}

proof fn lemma_projection_plan_err_prefix(items: Seq<SelectItem>, cols: Seq<String>, i: int)
    requires
        0 <= i <= items.len(),
        projection_plan(items.subrange(0, i), cols) is Err,
    ensures
        projection_plan(items, cols) == projection_plan(items.subrange(0, i), cols),
    decreases items.len() - i,
{
    if i < items.len() {
        assert(items.subrange(0, i + 1).drop_last() =~= items.subrange(0, i));
        lemma_projection_plan_err_prefix(items, cols, i + 1);
    } else {
        assert(items.subrange(0, i) =~= items);
    }
}

fn project(rows: &Vec<Vec<Cell>>, cols: &Vec<String>, plan: &Vec<(String, PlanSource)>) -> (r: Vec<
    Vec<Cell>,
>)
    requires
        forall|i: int| 0 <= i < rows@.len() ==> (#[trigger] rows@[i])@.len() == cols@.len(),
        columns_in_range(plan_view(plan@), cols@.len()),
    ensures
        rows_model(r@) == project_rows(rows_model(rows@), cols@, plan_view(plan@)),
{
    let ghost pv = plan_view(plan@);
    let mut out: Vec<Vec<Cell>> = Vec::new();
    let mut i: usize = 0;
    while i < rows.len()
        invariant
            0 <= i <= rows@.len(),
            pv == plan_view(plan@),
            forall|i: int| 0 <= i < rows@.len() ==> (#[trigger] rows@[i])@.len() == cols@.len(),
            columns_in_range(pv, cols@.len()),
            rows_model(out@) == project_rows(rows_model(rows@).subrange(0, i as int), cols@, pv),
        decreases rows@.len() - i,
    {
        let row = &rows[i];
        let mut cells: Vec<Cell> = Vec::new();
        let mut j: usize = 0;
        while j < plan.len()
            invariant
                0 <= j <= plan@.len(),
                pv == plan_view(plan@),
                row@.len() == cols@.len(),
                columns_in_range(pv, cols@.len()),
                cells@ == project_row(row@, cols@, pv).subrange(0, j as int),
            decreases plan@.len() - j,
        {
            assert(pv[j as int] == (plan@[j as int].0@, plan@[j as int].1));
            let c = match &plan[j].1 {
                PlanSource::Column(k) => row[*k].copy(),
                PlanSource::Computed(e) => evaluate(e, cols, row),
            };
            cells.push(c);
            assert(cells@ =~= project_row(row@, cols@, pv).subrange(0, j + 1));
            j = j + 1;
        }
        assert(cells@ =~= project_row(row@, cols@, pv));
        let ghost before = out@;
        out.push(cells);
        assert(rows_model(out@) =~= rows_model(before).push(project_row(row@, cols@, pv)));
        assert(rows_model(rows@).subrange(0, i + 1) =~= rows_model(rows@).subrange(0, i as int).push(row@));
        assert(rows_model(out@) =~= project_rows(rows_model(rows@).subrange(0, i + 1), cols@, pv));
        i = i + 1;
    }
    assert(rows_model(rows@).subrange(0, rows@.len() as int) =~= rows_model(rows@));
    out
}

// ---------------------------------------------------------------------------
// Execution

/// The condition's first problem on a table with columns `cols`, if there is one.
pub open spec fn condition_error(cond: Option<Expr>, cols: Seq<String>) -> Option<ExecError> {
    match cond {
        Some(c) => expr_error(c, cols, Stage::Filter),
        None => None,
    }
}

/// The rows the condition keeps; all of them when there is none.
pub open spec fn filtered(cond: Option<Expr>, cols: Seq<String>, rows: Seq<Seq<Cell>>) -> Seq<
    Seq<Cell>,
> {
    match cond {
        Some(c) => keep_rows(c, cols, rows),
        None => rows,
    }
}

/// The result of running `sql` on a table with columns `cols` and rows `rows`: its
/// column names and rows. The filter and the sort see every column of the table; the
/// rows are filtered, then sorted, then sliced, and only then projected.
pub open spec fn run_query(sql: Sql, cols: Seq<String>, rows: Seq<Seq<Cell>>) -> Result<
    (Seq<Seq<char>>, Seq<Seq<Cell>>),
    ExecError,
> {
    match condition_error(sql.condition, cols) {
        Some(e) => Err(e),
        None => match resolve_keys(sql.order_by@, cols) {
            Err(e) => Err(e),
            Ok(keys) => match projection_plan(sql.selection@, cols) {
                Err(e) => Err(e),
                Ok(plan) => Ok(
                    (
                        plan_names(plan),
                        project_rows(
                            slice_rows(
                                sort_rows(filtered(sql.condition, cols, rows), keys),
                                sql.offset,
                                sql.limit,
                            ),
                            cols,
                            plan,
                        ),
                    ),
                ),
            },
        },
    }
}

/// `r` is what running `sql` on `table` gives.
pub open spec fn executes_to(sql: Sql, table: DataSet, r: Result<DataSet, ExecError>) -> bool {
    match r {
        Ok(out) => run_query(sql, table.columns@, table.row_seq()) == Ok::<
            (Seq<Seq<char>>, Seq<Seq<Cell>>),
            ExecError,
        >((out.column_names(), out.row_seq())),
        Err(e) => run_query(sql, table.columns@, table.row_seq()) == Err::<
            (Seq<Seq<char>>, Seq<Seq<Cell>>),
            ExecError,
        >(e),
    }
}

proof fn lemma_keep_rows_width(cond: Expr, cols: Seq<String>, rows: Seq<Seq<Cell>>, w: nat)
    requires
        forall|i: int| 0 <= i < rows.len() ==> (#[trigger] rows[i]).len() == w,
    ensures
        forall|i: int|
            0 <= i < keep_rows(cond, cols, rows).len() ==> (#[trigger] keep_rows(
                cond,
                cols,
                rows,
            )[i]).len() == w,
    decreases rows.len(),
{
    if rows.len() > 0 {
        let d = rows.drop_last();
        assert forall|i: int| 0 <= i < d.len() implies (#[trigger] d[i]).len() == w by {
            assert(d[i] == rows[i]);
        }
        lemma_keep_rows_width(cond, cols, d, w);
        let rest = keep_rows(cond, cols, d);
        let res = keep_rows(cond, cols, rows);
        assert(rows[rows.len() - 1] == rows.last());
        assert forall|i: int| 0 <= i < res.len() implies (#[trigger] res[i]).len() == w by {
            if i < rest.len() {
                assert(res[i] == rest[i]);
            }
        }
    }
}

proof fn lemma_insert_row_width(s: Seq<Seq<Cell>>, r: Seq<Cell>, keys: Seq<(usize, bool)>, w: nat)
    requires
        forall|i: int| 0 <= i < s.len() ==> (#[trigger] s[i]).len() == w,
        r.len() == w,
    ensures
        forall|i: int|
            0 <= i < insert_row(s, r, keys).len() ==> (#[trigger] insert_row(s, r, keys)[i]).len()
                == w,
    decreases s.len(),
{
    let res = insert_row(s, r, keys);
    if s.len() > 0 {
        let d = s.drop_last();
        assert forall|i: int| 0 <= i < d.len() implies (#[trigger] d[i]).len() == w by {
            assert(d[i] == s[i]);
        }
        lemma_insert_row_width(d, r, keys, w);
        let rest = insert_row(d, r, keys);
        assert(s[s.len() - 1] == s.last());
        assert forall|i: int| 0 <= i < res.len() implies (#[trigger] res[i]).len() == w by {
            if row_cmp(r, s.last(), keys) < 0 {
                if i < rest.len() {
                    assert(res[i] == rest[i]);
                }
            } else {
                if i < s.len() {
                    assert(res[i] == s[i]);
                }
            }
        }
    } else {
        assert(res =~= seq![r]);
        assert forall|i: int| 0 <= i < res.len() implies (#[trigger] res[i]).len() == w by {
            assert(res[i] == r);
        }
    }
}

proof fn lemma_sort_rows_width(rows: Seq<Seq<Cell>>, keys: Seq<(usize, bool)>, w: nat)
    requires
        forall|i: int| 0 <= i < rows.len() ==> (#[trigger] rows[i]).len() == w,
    ensures
        forall|i: int|
            0 <= i < sort_rows(rows, keys).len() ==> (#[trigger] sort_rows(rows, keys)[i]).len()
                == w,
    decreases rows.len(),
{
    if rows.len() > 0 {
        let d = rows.drop_last();
        assert forall|i: int| 0 <= i < d.len() implies (#[trigger] d[i]).len() == w by {
            assert(d[i] == rows[i]);
        }
        lemma_sort_rows_width(d, keys, w);
        assert(rows[rows.len() - 1] == rows.last());
        lemma_insert_row_width(sort_rows(rows.drop_last(), keys), rows.last(), keys, w);
    }
}

/// Runs a query descriptor against a table: filter, sort, slice, then project.
/// The table is only read; the result is a new table.
pub fn execute(sql: &Sql, table: &DataSet) -> (r: Result<DataSet, ExecError>)
    requires
        table.wf(),
    ensures
        executes_to(*sql, *table, r),
        r matches Ok(out) ==> out.wf(),
{
    let cols = &table.columns;
    let ghost w = cols@.len();
    let ghost model = table.row_seq();
    assert forall|i: int| 0 <= i < model.len() implies (#[trigger] model[i]).len() == w by {
        assert(model[i] == table.rows@[i]@);
    }
    let rows = match &sql.condition {
        Some(c) => {
            if let Some(e) = check_expr(c, cols, Stage::Filter) {
                return Err(e);
            }
            filter_rows(c, cols, &table.rows)
        },
        None => {
            let mut all: Vec<Vec<Cell>> = Vec::new();
            let mut i: usize = 0;
            while i < table.rows.len()
                invariant
                    0 <= i <= table.rows@.len(),
                    rows_model(all@) == model.subrange(0, i as int),
                    model == table.row_seq(),
                decreases table.rows@.len() - i,
            {
                let ghost before = all@;
                all.push(copy_row(&table.rows[i]));
                assert(rows_model(all@) =~= rows_model(before).push(table.rows@[i as int]@));
                assert(rows_model(all@) =~= model.subrange(0, i + 1));
                i = i + 1;
            }
            assert(model.subrange(0, model.len() as int) =~= model);
            all
        },
    };
    let keys = match sort_keys(&sql.order_by, cols) {
        Ok(k) => k,
        Err(e) => {
            return Err(e);
        },
    };
    let sorted = sort_by_keys(&rows, &keys);
    let sliced = take_slice(&sorted, sql.offset, sql.limit);
    let plan = match plan_projection(&sql.selection, cols) {
        Ok(p) => p,
        Err(e) => {
            return Err(e);
        },
    };
    proof {
        if sql.condition is Some {
            lemma_keep_rows_width(sql.condition->0, cols@, model, w);
        }
        let f = filtered(sql.condition, cols@, model);
        lemma_sort_rows_width(f, keys@, w);
        let sm = rows_model(sorted@);
        let st = slice_start(sm.len(), sql.offset) as int;
        let en = slice_end(sm.len(), sql.offset, sql.limit) as int;
        assert(rows_model(sliced@) == sm.subrange(st, en));
        assert(sliced@.len() == en - st);
        assert forall|i: int| 0 <= i < sliced@.len() implies (#[trigger] sliced@[i])@.len() == w by {
            assert(rows_model(sliced@)[i] == sliced@[i]@);
            assert(rows_model(sliced@)[i] == sm[st + i]);
            assert(sm[st + i] == sorted@[st + i]@);
        }
        lemma_projection_plan_in_range(sql.selection@, cols@);
    }
    let out_rows = project(&sliced, cols, &plan);
    let ghost pv = plan_view(plan@);
    let mut names: Vec<String> = Vec::new();
    let mut j: usize = 0;
    while j < plan.len()
        invariant
            0 <= j <= plan@.len(),
            pv == plan_view(plan@),
            names@.map_values(|c: String| c@) == plan_names(pv).subrange(0, j as int),
        decreases plan@.len() - j,
    {
        let ghost before = names@;
        names.push(plan[j].0.clone());
        assert(pv[j as int] == (plan@[j as int].0@, plan@[j as int].1));
        assert(names@.map_values(|c: String| c@) =~= before.map_values(|c: String| c@).push(
            plan@[j as int].0@,
        ));
        assert(names@.map_values(|c: String| c@) =~= plan_names(pv).subrange(0, j + 1));
        j = j + 1;
    }
    assert(names@.map_values(|c: String| c@) =~= plan_names(pv));
    let out = DataSet { columns: names, rows: out_rows };
    assert forall|i: int| 0 <= i < out.rows@.len() implies (#[trigger] out.rows@[i])@.len()
        == out.columns@.len() by {
        let pr = project_rows(rows_model(sliced@), cols@, pv);
        assert(rows_model(out_rows@) == pr);
        assert(rows_model(out_rows@).len() == out_rows@.len());
        assert(pr.len() == rows_model(sliced@).len());
        assert(out.row_seq()[i] == out.rows@[i]@);
        assert(pr[i] == project_row(rows_model(sliced@)[i], cols@, pv));
    }
    Ok(out)
}

/// Why a query text's statements cannot be run.
#[derive(Debug, PartialEq, Eq)]
pub enum QueryError {
    /// The text holds no statement, or more than one.
    StatementCount,
    /// The one statement cannot be converted.
    Convert(ConvertError),
}

impl QueryError {
    pub fn message(&self) -> (r: String)
        ensures
            *self == QueryError::StatementCount ==> r@ == "only a single statement is supported"@,
            *self matches QueryError::Convert(e) ==> r@ == convert_error_text(e),
    {
        match self {
            QueryError::StatementCount => String::from_str("only a single statement is supported"),
            QueryError::Convert(e) => e.message(),
        }
    }
}

/// The descriptor of a query text's parsed statements: there must be exactly one, and
/// it must convert.
pub fn plan_query(statements: &Vec<Statement>) -> (r: Result<Sql, QueryError>)
    ensures
        statements@.len() != 1 ==> r == Err::<Sql, QueryError>(QueryError::StatementCount),
        statements@.len() == 1 ==> match r {
            Ok(sql) => conversion_error(statements@[0]) is None && converts_to(
                statements@[0],
                sql,
            ),
            Err(e) => conversion_error(statements@[0]) matches Some(c) && e
                == QueryError::Convert(c),
        },
{
    if statements.len() != 1 {
        return Err(QueryError::StatementCount);
    }
    match Sql::try_from(&statements[0]) {
        Ok(sql) => Ok(sql),
        Err(e) => Err(QueryError::Convert(e)),
    }
}

// ---------------------------------------------------------------------------
// Laws

/// `LIMIT m OFFSET n` keeps rows `[n, n + m)` of the rows it is given, cut at their end;
/// an offset at or past the end leaves no rows, which is no error.
pub proof fn lemma_slice_window(rows: Seq<Seq<Cell>>, n: usize, m: usize)
    ensures
        n <= rows.len() && n + m <= rows.len() ==> slice_rows(rows, Some(n), Some(m))
            == rows.subrange(n as int, n + m),
        n <= rows.len() && n + m > rows.len() ==> slice_rows(rows, Some(n), Some(m))
            == rows.subrange(n as int, rows.len() as int),
        n >= rows.len() ==> slice_rows(rows, Some(n), Some(m)).len() == 0,
        slice_rows(rows, None, None) == rows,
{
    assert(rows.subrange(0, rows.len() as int) =~= rows);
}

/// Running one descriptor twice against one table gives the same result: the same
/// columns and rows, or the same error.
pub proof fn lemma_execution_repeatable(
    sql: Sql,
    table: DataSet,
    first: Result<DataSet, ExecError>,
    second: Result<DataSet, ExecError>,
)
    requires
        executes_to(sql, table, first),
        executes_to(sql, table, second),
    ensures
        first is Ok <==> second is Ok,
        first matches Ok(a) ==> second matches Ok(b) && a.column_names() == b.column_names()
            && a.row_seq() == b.row_seq(),
        first matches Err(e) ==> second == Err::<DataSet, ExecError>(e),
{
}

/// The filter and the sort read the table's columns, not the projected ones: when the
/// condition, the sort keys and the SELECT list name only columns the table has, the
/// query runs, whatever the SELECT list leaves out, and its columns are exactly those of
/// the SELECT list.
pub proof fn lemma_unprojected_columns_usable(sql: Sql, cols: Seq<String>, rows: Seq<Seq<Cell>>)
    requires
        condition_error(sql.condition, cols) is None,
        resolve_keys(sql.order_by@, cols) is Ok,
        projection_plan(sql.selection@, cols) is Ok,
    ensures
        run_query(sql, cols, rows) matches Ok(res) && res.0 == plan_names(
            projection_plan(sql.selection@, cols)->Ok_0,
        ) && res.1 == project_rows(
            slice_rows(
                sort_rows(
                    filtered(sql.condition, cols, rows),
                    resolve_keys(sql.order_by@, cols)->Ok_0,
                ),
                sql.offset,
                sql.limit,
            ),
            cols,
            projection_plan(sql.selection@, cols)->Ok_0,
        ),
{
}

/// Each row orders no later than the next under `keys`.
pub open spec fn rows_sorted(s: Seq<Seq<Cell>>, keys: Seq<(usize, bool)>) -> bool {
    forall|i: int| 0 <= i && i + 1 < s.len() ==> row_cmp(#[trigger] s[i], s[i + 1], keys) <= 0
}

proof fn lemma_text_cmp_antisymmetric(a: Seq<char>, b: Seq<char>)
    ensures
        text_cmp(a, b) == -text_cmp(b, a),
    decreases a.len(),
{
    if a.len() > 0 && b.len() > 0 && (a[0] as u32) == (b[0] as u32) {
        lemma_text_cmp_antisymmetric(a.drop_first(), b.drop_first());
    }
}

proof fn lemma_cell_cmp_antisymmetric(a: Cell, b: Cell)
    ensures
        cell_cmp(a, b) == -cell_cmp(b, a),
{
    if let (Cell::Text(x), Cell::Text(y)) = (a, b) {
        lemma_text_cmp_antisymmetric(x@, y@);
    }
}

proof fn lemma_row_cmp_antisymmetric(a: Seq<Cell>, b: Seq<Cell>, keys: Seq<(usize, bool)>)
    ensures
        row_cmp(a, b, keys) == -row_cmp(b, a, keys),
    decreases keys.len(),
{
    if keys.len() > 0 {
        let k = keys[0].0 as int;
        if k < a.len() && k < b.len() {
            lemma_cell_cmp_antisymmetric(a[k], b[k]);
        }
        lemma_row_cmp_antisymmetric(a, b, keys.drop_first());
    }
}

proof fn lemma_insert_row_sorted(s: Seq<Seq<Cell>>, r: Seq<Cell>, keys: Seq<(usize, bool)>)
    requires
        rows_sorted(s, keys),
    ensures
        rows_sorted(insert_row(s, r, keys), keys),
        insert_row(s, r, keys).len() == s.len() + 1,
        insert_row(s, r, keys).last() == r || (s.len() > 0 && insert_row(s, r, keys).last()
            == s.last()),
        insert_row(s, r, keys).to_multiset() == s.to_multiset().insert(r),
    decreases s.len(),
{
    broadcast use vstd::seq_lib::group_to_multiset_ensures;

    let res = insert_row(s, r, keys);
    if s.len() == 0 {
        assert(res =~= Seq::<Seq<Cell>>::empty().push(r));
    } else {
        let d = s.drop_last();
        assert(s =~= d.push(s.last()));
        if row_cmp(r, s.last(), keys) < 0 {
            assert forall|i: int| 0 <= i && i + 1 < d.len() implies row_cmp(
                #[trigger] d[i],
                d[i + 1],
                keys,
            ) <= 0 by {
                assert(d[i] == s[i] && d[i + 1] == s[i + 1]);
            }
            lemma_insert_row_sorted(d, r, keys);
            let t = insert_row(d, r, keys);
            assert(res == t.push(s.last()));
            if t.last() != r {
                assert(d.last() == s[s.len() - 2]);
                assert(row_cmp(s[s.len() - 2], s[s.len() - 1], keys) <= 0);
            }
            assert forall|i: int| 0 <= i && i + 1 < res.len() implies row_cmp(
                #[trigger] res[i],
                res[i + 1],
                keys,
            ) <= 0 by {
                if i + 1 < t.len() {
                    assert(res[i] == t[i] && res[i + 1] == t[i + 1]);
                } else {
                    assert(res[i] == t.last());
                }
            }
        } else {
            lemma_row_cmp_antisymmetric(r, s.last(), keys);
            assert forall|i: int| 0 <= i && i + 1 < res.len() implies row_cmp(
                #[trigger] res[i],
                res[i + 1],
                keys,
            ) <= 0 by {
                if i + 1 < s.len() {
                    assert(res[i] == s[i] && res[i + 1] == s[i + 1]);
                } else {
                    assert(res[i] == s.last());
                }
            }
        }
    }
}

/// The sort puts every row no later than the next under the keys, and keeps each row
/// as often as it occurs.
pub proof fn lemma_sort_orders_rows(rows: Seq<Seq<Cell>>, keys: Seq<(usize, bool)>)
    ensures
        rows_sorted(sort_rows(rows, keys), keys),
        sort_rows(rows, keys).to_multiset() == rows.to_multiset(),
    decreases rows.len(),
{
    broadcast use vstd::seq_lib::group_to_multiset_ensures;

    if rows.len() == 0 {
        assert(sort_rows(rows, keys) =~= rows);
    } else {
        let d = rows.drop_last();
        lemma_sort_orders_rows(d, keys);
        lemma_insert_row_sorted(sort_rows(d, keys), rows.last(), keys);
        assert(rows =~= d.push(rows.last()));
    }
}

/// With no sort keys the rows keep their order.
pub proof fn lemma_sort_without_keys(rows: Seq<Seq<Cell>>)
    ensures
        sort_rows(rows, Seq::empty()) == rows,
    decreases rows.len(),
{
    if rows.len() > 0 {
        lemma_sort_without_keys(rows.drop_last());
        assert(rows =~= rows.drop_last().push(rows.last()));
    } else {
        assert(sort_rows(rows, Seq::empty()) =~= rows);
    }
}

/// Rows already in key order come out of the sort as they went in, ties included.
pub proof fn lemma_sort_keeps_ordered_rows(rows: Seq<Seq<Cell>>, keys: Seq<(usize, bool)>)
    requires
        rows_sorted(rows, keys),
    ensures
        sort_rows(rows, keys) == rows,
    decreases rows.len(),
{
    if rows.len() == 0 {
        assert(sort_rows(rows, keys) =~= rows);
    } else {
        let d = rows.drop_last();
        assert forall|i: int| 0 <= i && i + 1 < d.len() implies row_cmp(
            #[trigger] d[i],
            d[i + 1],
            keys,
        ) <= 0 by {
            assert(d[i] == rows[i] && d[i + 1] == rows[i + 1]);
        }
        lemma_sort_keeps_ordered_rows(d, keys);
        assert(rows =~= d.push(rows.last()));
        if d.len() > 0 {
            assert(d.last() == rows[rows.len() - 2]);
            assert(row_cmp(rows[rows.len() - 2], rows[rows.len() - 1], keys) <= 0);
            lemma_row_cmp_antisymmetric(rows.last(), d.last(), keys);
        } else {
            assert(insert_row(d, rows.last(), keys) =~= rows);
        }
    }
}

/// The rows of `s` that tie with `x` on every key, in their order in `s`.
pub open spec fn ties_with(s: Seq<Seq<Cell>>, x: Seq<Cell>, keys: Seq<(usize, bool)>) -> Seq<
    Seq<Cell>,
>
    decreases s.len(),
{
    if s.len() == 0 {
        Seq::empty()
    } else {
        let rest = ties_with(s.drop_last(), x, keys);
        if row_cmp(s.last(), x, keys) == 0 {
            rest.push(s.last())
        } else {
            rest
        }
    }
}

proof fn lemma_text_tie_transitive(a: Seq<char>, b: Seq<char>, c: Seq<char>)
    requires
        text_cmp(a, b) == 0,
        text_cmp(b, c) == 0,
    ensures
        text_cmp(a, c) == 0,
    decreases a.len(),
{
    if a.len() > 0 && b.len() > 0 && c.len() > 0 {
        lemma_text_tie_transitive(a.drop_first(), b.drop_first(), c.drop_first());
    }
}

proof fn lemma_cell_cmp_zero_transitive(a: Cell, b: Cell, c: Cell)
    requires
        cell_cmp(a, b) == 0,
        cell_cmp(b, c) == 0,
    ensures
        cell_cmp(a, c) == 0,
{
    match (a, b, c) {
        (Cell::Text(x), Cell::Text(y), Cell::Text(z)) => {
            lemma_text_tie_transitive(x@, y@, z@);
        },
        _ => {},
    }
}

proof fn lemma_row_tie_transitive(a: Seq<Cell>, b: Seq<Cell>, c: Seq<Cell>, keys: Seq<(usize, bool)>)
    requires
        a.len() == b.len() == c.len(),
        row_cmp(a, b, keys) == 0,
        row_cmp(b, c, keys) == 0,
    ensures
        row_cmp(a, c, keys) == 0,
    decreases keys.len(),
{
    if keys.len() > 0 {
        let k = keys[0].0 as int;
        if k < a.len() {
            lemma_cell_cmp_zero_transitive(a[k], b[k], c[k]);
        }
        lemma_row_tie_transitive(a, b, c, keys.drop_first());
    }
}

proof fn lemma_insert_row_ties(
    s: Seq<Seq<Cell>>,
    r: Seq<Cell>,
    x: Seq<Cell>,
    keys: Seq<(usize, bool)>,
)
    requires
        forall|i: int| 0 <= i < s.len() ==> (#[trigger] s[i]).len() == x.len(),
        r.len() == x.len(),
    ensures
        ties_with(insert_row(s, r, keys), x, keys) == if row_cmp(r, x, keys) == 0 {
            ties_with(s, x, keys).push(r)
        } else {
            ties_with(s, x, keys)
        },
    decreases s.len(),
{
    let res = insert_row(s, r, keys);
    if s.len() == 0 {
        assert(res == seq![r]);
        assert(res.drop_last() =~= s);
        assert(res.last() == r);
        assert(ties_with(s, x, keys) == Seq::<Seq<Cell>>::empty());
    } else if row_cmp(r, s.last(), keys) < 0 {
        let d = s.drop_last();
        assert forall|i: int| 0 <= i < d.len() implies (#[trigger] d[i]).len() == x.len() by {
            assert(d[i] == s[i]);
        }
        lemma_insert_row_ties(d, r, x, keys);
        let t = insert_row(d, r, keys);
        assert(res == t.push(s.last()));
        assert(res.drop_last() =~= t);
        assert(res.last() == s.last());
        assert(s[s.len() - 1] == s.last());
        if row_cmp(r, x, keys) == 0 && row_cmp(s.last(), x, keys) == 0 {
            lemma_row_cmp_antisymmetric(s.last(), x, keys);
            lemma_row_tie_transitive(r, x, s.last(), keys);
        }
    } else {
        assert(res == s.push(r));
        assert(res.drop_last() =~= s);
        assert(res.last() == r);
    }
}

/// The sort is stable: for any row `x`, the rows that tie with `x` on every key come out
/// in the order they went in.
pub proof fn lemma_sort_is_stable(rows: Seq<Seq<Cell>>, x: Seq<Cell>, keys: Seq<(usize, bool)>)
    requires
        forall|i: int| 0 <= i < rows.len() ==> (#[trigger] rows[i]).len() == x.len(),
    ensures
        ties_with(sort_rows(rows, keys), x, keys) == ties_with(rows, x, keys),
    decreases rows.len(),
{
    if rows.len() > 0 {
        let d = rows.drop_last();
        assert forall|i: int| 0 <= i < d.len() implies (#[trigger] d[i]).len() == x.len() by {
            assert(d[i] == rows[i]);
        }
        lemma_sort_is_stable(d, x, keys);
        lemma_sort_rows_width(d, keys, x.len());
        assert(rows[rows.len() - 1] == rows.last());
        lemma_insert_row_ties(sort_rows(d, keys), rows.last(), x, keys);
    }
}

/// A query with `LIMIT m OFFSET n` returns rows `[n, n + m)` of the filtered and sorted
/// rows, cut at their end, each projected. Whether it fails depends only on the columns
/// its WHERE, ORDER BY and SELECT name, never on the offset or the limit: an offset past
/// the end gives an empty result with the projected columns.
pub proof fn lemma_query_slice_window(
    sql: Sql,
    cols: Seq<String>,
    rows: Seq<Seq<Cell>>,
    n: usize,
    m: usize,
)
    requires
        sql.offset == Some(n),
        sql.limit == Some(m),
    ensures
        run_query(sql, cols, rows) is Ok <==> (condition_error(sql.condition, cols) is None
            && resolve_keys(sql.order_by@, cols) is Ok && projection_plan(sql.selection@, cols) is Ok),
        run_query(sql, cols, rows) matches Ok(res) ==> {
            let sorted = sort_rows(
                filtered(sql.condition, cols, rows),
                resolve_keys(sql.order_by@, cols)->Ok_0,
            );
            let plan = projection_plan(sql.selection@, cols)->Ok_0;
            let lo = if n <= sorted.len() {
                n as int
            } else {
                sorted.len() as int
            };
            let hi = if n + m <= sorted.len() {
                n + m
            } else {
                sorted.len() as int
            };
            &&& res.0 == plan_names(plan)
            &&& res.1 == project_rows(sorted.subrange(lo, hi), cols, plan)
            &&& (n >= sorted.len() ==> res.1.len() == 0)
        },
{
    if let Ok(res) = run_query(sql, cols, rows) {
        let sorted = sort_rows(
            filtered(sql.condition, cols, rows),
            resolve_keys(sql.order_by@, cols)->Ok_0,
        );
        lemma_slice_window(sorted, n, m);
    }
}

} // verus!
