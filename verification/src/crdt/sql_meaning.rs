//! What the SQL that is written here means.
//!
//! Conditions, assignments and column lists are trees. A tree has a text, which
//! is what stands in a statement, and a meaning on rows. The laws say of a
//! statement which tree its text is, and what the tree does. A value is compared
//! as it is held: what SQLite makes of a value when a column of another type
//! takes it is left out.

use crate::crdt::columns::TABLE_CRDT_CONFIGS;
use crate::crdt::value::SqlView;
use crate::numeral::digits_value;
use crate::text::first_index;
use crate::text::joined;
use vstd::prelude::*;

verus! {

/// What a condition is held against: the row in question, the new and the old
/// row of the event that fired a trigger, the bound values, and what is stored
/// of the switch that turns triggers off.
pub struct Scene {
    pub row: Map<Seq<char>, SqlView>,
    pub new: Map<Seq<char>, SqlView>,
    pub old: Map<Seq<char>, SqlView>,
    pub params: Seq<SqlView>,
    pub switch: Option<Seq<char>>,
}

/// The scene of a statement outside a trigger.
pub open spec fn scene(row: Map<Seq<char>, SqlView>, params: Seq<SqlView>) -> Scene {
    Scene { row, new: Map::empty(), old: Map::empty(), params, switch: None }
}

/// Texts as they are bound.
pub open spec fn text_params(params: Seq<Seq<char>>) -> Seq<SqlView> {
    params.map_values(|p: Seq<char>| SqlView::Text(p))
}

/// A value of SQL.
pub enum Expr {
    /// A column by its quoted name.
    Column(Seq<char>),
    /// A column by its bare name.
    Bare(Seq<char>),
    /// A column of the event's new row, quoted.
    New(Seq<char>),
    /// A column of the event's new row, bare.
    NewBare(Seq<char>),
    /// A column of the event's old row, quoted.
    Old(Seq<char>),
    /// The next bound value.
    Mark,
    /// The first bound value.
    First,
    /// A text.
    Literal(Seq<char>),
    /// Where a character first stands in a text, counted from one; zero where it
    /// does not.
    Instr(Box<Expr>, char),
    /// One less.
    Pred(Box<Expr>),
    /// That many characters from the start of a text.
    Prefix(Box<Expr>, Box<Expr>),
    /// A text read as an integer.
    Cast(Box<Expr>),
}

/// A name between double quotes.
pub open spec fn quoted(name: Seq<char>) -> Seq<char> {
    "\""@ + name + "\""@
}

/// How a value is written.
pub open spec fn expr_text(e: Expr) -> Seq<char>
    decreases e,
{
    match e {
        Expr::Column(c) => quoted(c),
        Expr::Bare(c) => c,
        Expr::New(c) => "NEW."@ + quoted(c),
        Expr::NewBare(c) => "NEW."@ + c,
        Expr::Old(c) => "OLD."@ + quoted(c),
        Expr::Mark => "?"@,
        Expr::First => "?1"@,
        Expr::Literal(s) => "'"@ + s + "'"@,
        Expr::Instr(a, c) => "instr("@ + expr_text(*a) + ", '"@ + seq![c] + "')"@,
        Expr::Pred(a) => expr_text(*a) + " - 1"@,
        Expr::Prefix(a, n) => "substr("@ + expr_text(*a) + ", 1, "@ + expr_text(*n) + ")"@,
        Expr::Cast(a) => "CAST("@ + expr_text(*a) + " AS INTEGER)"@,
    }
}

/// A decimal digit.
pub open spec fn is_digit(c: char) -> bool {
    '0' <= c <= '9'
}

/// Number of digits that a text starts with.
pub open spec fn digit_run(s: Seq<char>) -> nat
    decreases s.len(),
{
    if s.len() > 0 && is_digit(s[0]) {
        1 + digit_run(s.drop_first())
    } else {
        0
    }
}

/// The number that the digits at the start of a text stand for.
pub open spec fn leading_number(s: Seq<char>) -> int {
    digits_value(s.take(digit_run(s) as int), 10)->Some_0 as int
}

/// The integer at the start of a text, with its sign; zero where there is none.
pub open spec fn leading_integer(s: Seq<char>) -> int {
    if s.len() > 0 && s[0] == '-' {
        -leading_number(s.drop_first())
    } else if s.len() > 0 && s[0] == '+' {
        leading_number(s.drop_first())
    } else {
        leading_number(s)
    }
}

/// The nearest integer of 64 bits.
pub open spec fn clamped(i: int) -> i64 {
    if i > i64::MAX {
        i64::MAX
    } else if i < i64::MIN {
        i64::MIN
    } else {
        i as i64
    }
}

/// The value of an expression. `at` bound values have been taken before it.
pub open spec fn value(e: Expr, s: Scene, at: nat) -> SqlView
    decreases e,
{
    match e {
        Expr::Column(c) => s.row[c],
        Expr::Bare(c) => s.row[c],
        Expr::New(c) => s.new[c],
        Expr::NewBare(c) => s.new[c],
        Expr::Old(c) => s.old[c],
        Expr::Mark => s.params[at as int],
        Expr::First => s.params[0],
        Expr::Literal(t) => SqlView::Text(t),
        Expr::Instr(a, c) => match value(*a, s, at) {
            SqlView::Text(t) => SqlView::Integer(
                if first_index(t, c) < t.len() {
                    (first_index(t, c) + 1) as i64
                } else {
                    0
                },
            ),
            _ => SqlView::Null,
        },
        Expr::Pred(a) => match value(*a, s, at) {
            SqlView::Integer(i) => SqlView::Integer((i - 1) as i64),
            _ => SqlView::Null,
        },
        Expr::Prefix(a, n) => match (value(*a, s, at), value(*n, s, at)) {
            (SqlView::Text(t), SqlView::Integer(i)) => SqlView::Text(
                if i <= 0 {
                    Seq::empty()
                } else if i >= t.len() {
                    t
                } else {
                    t.take(i as int)
                },
            ),
            _ => SqlView::Null,
        },
        Expr::Cast(a) => match value(*a, s, at) {
            SqlView::Text(t) => SqlView::Integer(clamped(leading_integer(t))),
            SqlView::Integer(i) => SqlView::Integer(i),
            _ => SqlView::Null,
        },
    }
}

/// One condition.
pub enum Cond {
    Equals(Expr, Expr),
    Less(Expr, Expr),
    IsNull(Expr),
    NotNull(Expr),
    /// The two differ; nulls are alike.
    IsNot(Expr, Expr),
    /// Triggers are not turned off: nothing is stored of the switch, or that it
    /// is on.
    SwitchedOn,
}

/// How a condition is written.
pub open spec fn cond_text(c: Cond) -> Seq<char> {
    match c {
        Cond::Equals(a, b) => expr_text(a) + " = "@ + expr_text(b),
        Cond::Less(a, b) => expr_text(a) + " < "@ + expr_text(b),
        Cond::IsNull(a) => expr_text(a) + " IS NULL"@,
        Cond::NotNull(a) => expr_text(a) + " IS NOT NULL"@,
        Cond::IsNot(a, b) => expr_text(a) + " IS NOT "@ + expr_text(b),
        Cond::SwitchedOn => "COALESCE((SELECT value FROM "@ + TABLE_CRDT_CONFIGS@
            + " WHERE key = 'triggers_enabled'), '1') = '1'"@,
    }
}

/// Bound values that a condition takes.
pub open spec fn taken(c: Cond) -> nat {
    match c {
        Cond::Equals(_, Expr::Mark) => 1,
        _ => 0,
    }
}

/// Whether a condition holds. Nothing equals null, and nothing is less than it.
pub open spec fn holds(c: Cond, s: Scene, at: nat) -> bool {
    match c {
        Cond::Equals(a, b) => !(value(a, s, at) is Null) && value(a, s, at) == value(b, s, at),
        Cond::Less(a, b) => match (value(a, s, at), value(b, s, at)) {
            (SqlView::Integer(x), SqlView::Integer(y)) => x < y,
            _ => false,
        },
        Cond::IsNull(a) => value(a, s, at) is Null,
        Cond::NotNull(a) => !(value(a, s, at) is Null),
        Cond::IsNot(a, b) => value(a, s, at) != value(b, s, at),
        Cond::SwitchedOn => s.switch matches Some(stored) ==> stored == "1"@,
    }
}

/// The texts of some conditions.
pub open spec fn cond_texts(cs: Seq<Cond>) -> Seq<Seq<char>> {
    cs.map_values(|c: Cond| cond_text(c))
}

/// How it is written that all conditions hold.
pub open spec fn all_text(cs: Seq<Cond>) -> Seq<char> {
    joined(cond_texts(cs), " AND "@)
}

/// How it is written that one of the conditions holds.
pub open spec fn any_text(cs: Seq<Cond>) -> Seq<char> {
    joined(cond_texts(cs), " OR "@)
}

/// Bound values that some conditions take.
pub open spec fn taken_by(cs: Seq<Cond>) -> nat
    decreases cs.len(),
{
    if cs.len() == 0 {
        0
    } else {
        taken_by(cs.drop_last()) + taken(cs.last())
    }
}

/// All conditions hold; each takes its bound values behind those of the one
/// before.
pub open spec fn all_hold(cs: Seq<Cond>, s: Scene) -> bool {
    forall|i: int| 0 <= i < cs.len() ==> #[trigger] cond_holds(cs, i, s)
}

/// One of the conditions holds.
pub open spec fn any_holds(cs: Seq<Cond>, s: Scene) -> bool {
    exists|i: int| 0 <= i < cs.len() && #[trigger] cond_holds(cs, i, s)
}

/// The condition at a position holds.
pub open spec fn cond_holds(cs: Seq<Cond>, i: int, s: Scene) -> bool {
    holds(cs[i], s, taken_by(cs.take(i)))
}

/// A list of quoted names.
pub open spec fn name_list(names: Seq<Seq<char>>) -> Seq<char> {
    joined(names.map_values(|n: Seq<char>| quoted(n)), ", "@)
}

/// A list of placeholders.
pub open spec fn mark_list(n: nat) -> Seq<char> {
    joined(Seq::new(n, |i: int| expr_text(Expr::Mark)), ", "@)
}

/// An INSERT of one row of bound values.
pub open spec fn insert_text(table: Seq<char>, columns: Seq<Seq<char>>) -> Seq<char> {
    "INSERT INTO "@ + quoted(table) + " ("@ + name_list(columns) + ") VALUES ("@ + mark_list(
        columns.len(),
    ) + ")"@
}

/// The row that an INSERT of these columns and values leaves: each column with
/// the value at its position.
pub open spec fn inserted(columns: Seq<Seq<char>>, values: Seq<SqlView>) -> Map<Seq<char>, SqlView>
    decreases columns.len(),
{
    if columns.len() == 0 {
        Map::empty()
    } else {
        inserted(columns.drop_last(), values).insert(columns.last(), values[columns.len() - 1])
    }
}

/// Every column of an INSERT that names none twice holds the value at its
/// position.
pub proof fn lemma_inserted(columns: Seq<Seq<char>>, values: Seq<SqlView>, i: int)
    requires
        columns.no_duplicates(),
        0 <= i < columns.len(),
    ensures
        inserted(columns, values).dom().contains(columns[i]),
        inserted(columns, values)[columns[i]] == values[i],
    decreases columns.len(),
{
    if i < columns.len() - 1 {
        let rest = columns.drop_last();
        assert(rest[i] == columns[i]);
        assert(columns[i] != columns[columns.len() - 1]);
        lemma_inserted(rest, values, i);
    }
}

/// The column that an assignment sets.
pub open spec fn target(e: Expr) -> Seq<char> {
    match e {
        Expr::Column(c) => c,
        Expr::Bare(c) => c,
        _ => Seq::empty(),
    }
}

/// The columns that some assignments set.
pub open spec fn targets(es: Seq<Expr>) -> Seq<Seq<char>> {
    es.map_values(|e: Expr| target(e))
}

/// Assignments of bound values.
pub open spec fn set_text(es: Seq<Expr>) -> Seq<char> {
    joined(es.map_values(|e: Expr| expr_text(e) + " = "@ + expr_text(Expr::Mark)), ", "@)
}

/// An UPDATE of the rows where all conditions hold.
pub open spec fn update_text(table: Seq<char>, es: Seq<Expr>, cs: Seq<Cond>) -> Seq<char> {
    "UPDATE "@ + quoted(table) + " SET "@ + set_text(es) + " WHERE "@ + all_text(cs)
}

/// The row with the bound values in the columns that are set.
pub open spec fn assigned(
    row: Map<Seq<char>, SqlView>,
    columns: Seq<Seq<char>>,
    values: Seq<SqlView>,
) -> Map<Seq<char>, SqlView>
    decreases columns.len(),
{
    if columns.len() == 0 {
        row
    } else {
        assigned(row, columns.drop_last(), values).insert(
            columns.last(),
            values[columns.len() - 1],
        )
    }
}

/// What becomes of a row: it is set where all conditions hold, which take the
/// bound values behind those of the assignments, and stays otherwise.
pub open spec fn updated_row(
    row: Map<Seq<char>, SqlView>,
    es: Seq<Expr>,
    cs: Seq<Cond>,
    params: Seq<SqlView>,
) -> Map<Seq<char>, SqlView> {
    if all_hold(cs, scene(row, params.skip(es.len() as int))) {
        assigned(row, targets(es), params)
    } else {
        row
    }
}

/// Assignments that set no column twice give each its value.
pub proof fn lemma_assigned(
    row: Map<Seq<char>, SqlView>,
    columns: Seq<Seq<char>>,
    values: Seq<SqlView>,
    i: int,
)
    requires
        columns.no_duplicates(),
        0 <= i < columns.len(),
    ensures
        assigned(row, columns, values)[columns[i]] == values[i],
    decreases columns.len(),
{
    if i < columns.len() - 1 {
        let rest = columns.drop_last();
        assert(rest[i] == columns[i]);
        assert(columns[i] != columns[columns.len() - 1]);
        lemma_assigned(row, rest, values, i);
    }
}

/// Assignments leave every other column alone.
pub proof fn lemma_not_assigned(
    row: Map<Seq<char>, SqlView>,
    columns: Seq<Seq<char>>,
    values: Seq<SqlView>,
    name: Seq<char>,
)
    requires
        !columns.contains(name),
    ensures
        assigned(row, columns, values)[name] == row[name],
        assigned(row, columns, values).dom().contains(name) == row.dom().contains(name),
    decreases columns.len(),
{
    if columns.len() > 0 {
        let rest = columns.drop_last();
        assert(columns[columns.len() - 1] != name);
        if rest.contains(name) {
            let k = choose|k: int| 0 <= k < rest.len() && rest[k] == name;
            assert(columns[k] == name);
        }
        lemma_not_assigned(row, rest, values, name);
    }
}

/// Columns by their quoted names.
pub open spec fn column_exprs(names: Seq<Seq<char>>) -> Seq<Expr> {
    names.map_values(|n: Seq<char>| Expr::Column(n))
}

/// A SELECT of bare or quoted columns from the rows where all conditions hold.
pub open spec fn select_text(es: Seq<Expr>, table: Seq<char>, cs: Seq<Cond>) -> Seq<char> {
    let from = "SELECT "@ + joined(es.map_values(|e: Expr| expr_text(e)), ", "@) + " FROM "@
        + quoted(table);
    if cs.len() == 0 {
        from
    } else {
        from + " WHERE "@ + all_text(cs)
    }
}

/// A DELETE of the rows where all conditions hold.
pub open spec fn delete_text(table: Seq<char>, cs: Seq<Cond>) -> Seq<char> {
    "DELETE FROM "@ + quoted(table) + " WHERE "@ + all_text(cs)
}

} // verus!
