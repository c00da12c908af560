//! What a scan sends of a row, and what it reads to send it.

use crate::crdt::columns::COLUMN_HLCS_COLUMN;
use crate::crdt::columns::COLUMN_SIGS_COLUMN;
use crate::crdt::columns::HLC_TIMESTAMP_COLUMN;
use crate::crdt::hlc::hlc_before;
use crate::crdt::hlc::is_from_node;
use crate::crdt::scanner::change::ChangeView;
use crate::crdt::scanner::emit::column_changes;
use crate::crdt::scanner::emit::column_hlc;
use crate::crdt::scanner::emit::key_members;
use crate::crdt::scanner::emit::row_changes;
use crate::crdt::scanner::emit::text_member;
use crate::crdt::scanner::plan::filter_predicate;
use crate::crdt::scanner::plan::scan_plan;
use crate::crdt::scanner::plan::scan_predicates;
use crate::crdt::scanner::plan::select_names;
use crate::crdt::scanner::plan::FiltersView;
use crate::crdt::scanner::plan::ScanPlanView;
use crate::crdt::schema::data_names;
use crate::crdt::schema::has_column;
use crate::crdt::schema::pk_names;
use crate::crdt::schema::ColumnView;
use crate::crdt::sql_meaning::all_hold;
use crate::crdt::sql_meaning::column_exprs;
use crate::crdt::sql_meaning::cond_holds;
use crate::crdt::sql_meaning::cond_text;
use crate::crdt::sql_meaning::cond_texts;
use crate::crdt::sql_meaning::expr_text;
use crate::crdt::sql_meaning::scene;
use crate::crdt::sql_meaning::select_text;
use crate::crdt::sql_meaning::text_params;
use crate::crdt::sql_meaning::Cond;
use crate::crdt::sql_meaning::Expr;
use crate::crdt::value::SqlView;
use crate::json::json_object;
use crate::json::json_string_map;
use crate::json::member;
use crate::json::object_text;
use crate::json::JsonView;
use crate::text::wrapped_each;
use vstd::prelude::*;

verus! {

/// The column has a timestamp of its own that is not empty.
pub open spec fn has_own(hlcs: Seq<(Seq<char>, Seq<char>)>, column: Seq<char>) -> bool {
    exists|j: int|
        0 <= j < hlcs.len() && (#[trigger] hlcs[j]).0 == column && hlcs[j].1.len() > 0
}

/// `hlc` is the timestamp that the column is sent under: its own, or the row's
/// where it has none. An empty text is no timestamp.
pub open spec fn sent_under(
    hlcs: Seq<(Seq<char>, Seq<char>)>,
    row_hlc: Option<Seq<char>>,
    column: Seq<char>,
    hlc: Seq<char>,
) -> bool {
    &&& hlc.len() > 0
    &&& if has_own(hlcs, column) {
        exists|j: int| 0 <= j < hlcs.len() && #[trigger] hlcs[j] == (column, hlc)
    } else {
        row_hlc == Some(hlc)
    }
}

/// The change of the data column at `k` goes out as `c`.
pub open spec fn goes_out(
    plan: ScanPlanView,
    cells: Seq<JsonView>,
    hlcs: Seq<(Seq<char>, Seq<char>)>,
    sigs: Seq<(Seq<char>, JsonView)>,
    row_hlc: Option<Seq<char>>,
    after: Option<Seq<char>>,
    device: Seq<char>,
    origin: Option<u128>,
    k: int,
    c: ChangeView,
) -> bool {
    &&& 0 <= k < plan.data.len()
    &&& sent_under(hlcs, row_hlc, plan.data[k], c.hlc_timestamp)
    &&& after matches Some(cursor) ==> hlc_before(cursor, c.hlc_timestamp)
    &&& origin matches Some(node) ==> is_from_node(c.hlc_timestamp, node as nat)
    &&& c.table_name == plan.table_name
    &&& c.column_name == plan.data[k]
    &&& c.value == cells[plan.pks.len() + k]
    &&& c.device_id == device
    &&& c.sig == member(sigs, plan.data[k])
    &&& exists|key: Seq<(Seq<char>, JsonView)>|
        {
            &&& c.row_pks == #[trigger] object_text(key)
            &&& key.len() == plan.pks.len()
            &&& forall|i: int|
                0 <= i < key.len() ==> (#[trigger] key[i]).0 == plan.pks[i] && key[i].1 == cells[i]
        }
}

/// No column has two timestamps.
pub open spec fn one_each(hlcs: Seq<(Seq<char>, Seq<char>)>) -> bool {
    forall|i: int, j: int|
        #![trigger hlcs[i], hlcs[j]]
        0 <= i < j < hlcs.len() ==> hlcs[i].0 != hlcs[j].0
}

proof fn lemma_text_member(hlcs: Seq<(Seq<char>, Seq<char>)>, column: Seq<char>)
    requires
        one_each(hlcs),
    ensures
        match text_member(hlcs, column) {
            Some(h) => exists|j: int| 0 <= j < hlcs.len() && #[trigger] hlcs[j] == (column, h),
            None => forall|j: int| 0 <= j < hlcs.len() ==> (#[trigger] hlcs[j]).0 != column,
        },
    decreases hlcs.len(),
{
    if hlcs.len() > 0 {
        let rest = hlcs.drop_last();
        let n = hlcs.len() - 1;
        assert(hlcs[n] == hlcs.last());
        assert forall|i: int, j: int|
            #![trigger rest[i], rest[j]]
            0 <= i < j < rest.len() implies rest[i].0 != rest[j].0 by {
            assert(rest[i] == hlcs[i] && rest[j] == hlcs[j]);
        }
        if hlcs.last().0 != column {
            lemma_text_member(rest, column);
            match text_member(rest, column) {
                Some(h) => {
                    let j = choose|j: int| 0 <= j < rest.len() && #[trigger] rest[j] == (column, h);
                    assert(hlcs[j] == (column, h));
                },
                None => {
                    assert forall|j: int| 0 <= j < hlcs.len() implies (
                    #[trigger] hlcs[j]).0 != column by {
                        if j < n {
                            assert(rest[j] == hlcs[j]);
                        }
                    }
                },
            }
        } else {
            assert(hlcs[n] == (column, hlcs.last().1));
        }
    }
}

proof fn lemma_sent_under(
    hlcs: Seq<(Seq<char>, Seq<char>)>,
    row_hlc: Option<Seq<char>>,
    column: Seq<char>,
    hlc: Seq<char>,
)
    requires
        one_each(hlcs),
    ensures
        sent_under(hlcs, row_hlc, column, hlc) <==> column_hlc(hlcs, row_hlc, column) == Some(hlc),
{
    lemma_text_member(hlcs, column);
    match text_member(hlcs, column) {
        Some(h) => {
            let j = choose|j: int| 0 <= j < hlcs.len() && #[trigger] hlcs[j] == (column, h);
            assert forall|i: int| 0 <= i < hlcs.len() && (#[trigger] hlcs[i]).0 == column implies i
                == j by {
                if i < j {
                    assert(hlcs[i].0 != hlcs[j].0);
                } else if j < i {
                    assert(hlcs[j].0 != hlcs[i].0);
                }
            }
            if h.len() > 0 {
                assert(has_own(hlcs, column));
            } else {
                assert(!has_own(hlcs, column));
            }
        },
        None => {
            assert(!has_own(hlcs, column));
        },
    }
}

/// The positions of the data columns whose changes go out: they ascend, each
/// stands for the change at its place, and none is left out.
pub open spec fn sent_positions(
    plan: ScanPlanView,
    cells: Seq<JsonView>,
    hlcs: Seq<(Seq<char>, Seq<char>)>,
    sigs: Seq<(Seq<char>, JsonView)>,
    row_hlc: Option<Seq<char>>,
    after: Option<Seq<char>>,
    device: Seq<char>,
    origin: Option<u128>,
    n: nat,
    sent: Seq<ChangeView>,
    ks: Seq<int>,
) -> bool {
    &&& ks.len() == sent.len()
    &&& forall|i: int, j: int|
        #![trigger ks[i], ks[j]]
        0 <= i < j < ks.len() ==> ks[i] < ks[j]
    &&& forall|i: int|
        0 <= i < ks.len() ==> 0 <= #[trigger] ks[i] < n && goes_out(
            plan,
            cells,
            hlcs,
            sigs,
            row_hlc,
            after,
            device,
            origin,
            ks[i],
            sent[i],
        )
    &&& forall|k: int, c: ChangeView| #[trigger]
        goes_out(plan, cells, hlcs, sigs, row_hlc, after, device, origin, k, c) && k < n
            ==> ks.contains(k)
}

#[verifier::rlimit(60)]
#[verifier::spinoff_prover]
proof fn lemma_positions(
    plan: ScanPlanView,
    cells: Seq<JsonView>,
    hlcs: Seq<(Seq<char>, Seq<char>)>,
    sigs: Seq<(Seq<char>, JsonView)>,
    row_hlc: Option<Seq<char>>,
    after: Option<Seq<char>>,
    device: Seq<char>,
    origin: Option<u128>,
    n: nat,
) -> (ks: Seq<int>)
    requires
        one_each(hlcs),
        n <= plan.data.len(),
    ensures
        sent_positions(
            plan,
            cells,
            hlcs,
            sigs,
            row_hlc,
            after,
            device,
            origin,
            n,
            column_changes(plan, cells, hlcs, sigs, row_hlc, after, device, origin, n),
            ks,
        ),
    decreases n,
{
    let sent = column_changes(plan, cells, hlcs, sigs, row_hlc, after, device, origin, n);
    if n == 0 {
        Seq::empty()
    } else {
        let m = (n - 1) as nat;
        let before = lemma_positions(
            plan,
            cells,
            hlcs,
            sigs,
            row_hlc,
            after,
            device,
            origin,
            m,
        );
        let rest = column_changes(plan, cells, hlcs, sigs, row_hlc, after, device, origin, m);
        let k = n - 1;
        let column = plan.data[k];
        let pushed = sent.len() > rest.len();
        let ks = if pushed {
            before.push(k)
        } else {
            before
        };
        if pushed {
            let c = sent.last();
            lemma_sent_under(hlcs, row_hlc, column, c.hlc_timestamp);
            let key = key_members(plan.pks, cells);
            assert(c.row_pks == object_text(key));
            assert(goes_out(
                plan,
                cells,
                hlcs,
                sigs,
                row_hlc,
                after,
                device,
                origin,
                k,
                c,
            ));
        }
        assert forall|i: int| 0 <= i < ks.len() implies 0 <= #[trigger] ks[i] < n && goes_out(
            plan,
            cells,
            hlcs,
            sigs,
            row_hlc,
            after,
            device,
            origin,
            ks[i],
            sent[i],
        ) by {
            if i < before.len() {
                assert(ks[i] == before[i]);
                assert(sent[i] == rest[i]);
            }
        }
        assert forall|j: int, c: ChangeView| #[trigger]
            goes_out(plan, cells, hlcs, sigs, row_hlc, after, device, origin, j, c) && j
                < n implies ks.contains(j) by {
            if j < m {
                assert(before.contains(j));
                let at = choose|at: int| 0 <= at < before.len() && before[at] == j;
                assert(ks[at] == j);
            } else {
                lemma_sent_under(hlcs, row_hlc, column, c.hlc_timestamp);
                assert(pushed);
                assert(ks[ks.len() - 1] == j);
            }
        }
        ks
    }
}

/// A row whose timestamps and signatures have been read sends exactly the data
/// columns that are to be sent, in declaration order: each with a timestamp that
/// is newer than the cursor, where there is one, and of the wanted origin, where
/// there is one; under the key of the row, with the value and the signature of
/// the column.
pub proof fn lemma_row_sends_exactly_what_is_asked_for(
    plan: ScanPlanView,
    cells: Seq<JsonView>,
    hlcs: Seq<(Seq<char>, Seq<char>)>,
    sigs: Seq<(Seq<char>, JsonView)>,
    row_hlc: Option<Seq<char>>,
    after: Option<Seq<char>>,
    device: Seq<char>,
    origin: Option<u128>,
)
    requires
        one_each(hlcs),
    ensures
        exists|ks: Seq<int>| #[trigger]
            sent_positions(
                plan,
                cells,
                hlcs,
                sigs,
                row_hlc,
                after,
                device,
                origin,
                plan.data.len(),
                column_changes(
                    plan,
                    cells,
                    hlcs,
                    sigs,
                    row_hlc,
                    after,
                    device,
                    origin,
                    plan.data.len(),
                ),
                ks,
            ),
{
    let ks = lemma_positions(
        plan,
        cells,
        hlcs,
        sigs,
        row_hlc,
        after,
        device,
        origin,
        plan.data.len(),
    );
}

/// The column timestamps that a cell holds: those of its JSON object, none where
/// the cell holds no such object.
pub open spec fn cell_maps(cell: JsonView, hlcs: Seq<(Seq<char>, Seq<char>)>) -> bool {
    hlcs == if cell is Text && json_string_map(cell->Text_0) is Some {
        json_string_map(cell->Text_0)->Some_0
    } else {
        Seq::empty()
    }
}

/// The signatures that a cell holds.
pub open spec fn cell_signs(cell: JsonView, sigs: Seq<(Seq<char>, JsonView)>) -> bool {
    sigs == if cell is Text && json_object(cell->Text_0) is Some {
        json_object(cell->Text_0)->Some_0
    } else {
        Seq::empty()
    }
}

/// A scanned row sends nothing where rows are asked for by key and its own is not
/// among them. Otherwise it sends what its cells say: behind the key and the data
/// stand the row's timestamp, the column timestamps and, where the table has
/// them, the signatures.
pub proof fn lemma_scanned_row_sends_what_its_cells_say(
    plan: ScanPlanView,
    cells: Seq<JsonView>,
    after: Option<Seq<char>>,
    device: Seq<char>,
    f: FiltersView,
    hlcs: Seq<(Seq<char>, Seq<char>)>,
    sigs: Seq<(Seq<char>, JsonView)>,
    row_hlc: Option<Seq<char>>,
    key: Seq<(Seq<char>, JsonView)>,
)
    requires
        one_each(hlcs),
        key.len() == plan.pks.len(),
        forall|i: int|
            0 <= i < key.len() ==> (#[trigger] key[i]).0 == plan.pks[i] && key[i].1 == cells[i],
        cell_maps(cells[(plan.pks.len() + plan.data.len() + 1) as int], hlcs),
        plan.has_sigs ==> cell_signs(cells[(plan.pks.len() + plan.data.len() + 2) as int], sigs),
        !plan.has_sigs ==> sigs.len() == 0,
        row_hlc == match cells[(plan.pks.len() + plan.data.len()) as int] {
            JsonView::Text(t) => Some(t),
            _ => None,
        },
    ensures
        (f.row_pks matches Some(list) && !list.contains(object_text(key))) ==> row_changes(
            plan,
            cells,
            after,
            device,
            f,
        ).len() == 0,
        (f.row_pks matches Some(list) ==> list.contains(object_text(key))) ==> exists|
            ks: Seq<int>,
        | #[trigger]
            sent_positions(
                plan,
                cells,
                hlcs,
                sigs,
                row_hlc,
                after,
                device,
                f.origin_node,
                plan.data.len(),
                row_changes(plan, cells, after, device, f),
                ks,
            ),
{
    assert(key =~= key_members(plan.pks, cells));
    if !plan.has_sigs {
        assert(sigs =~= Seq::empty());
    }
    let ks = lemma_positions(
        plan,
        cells,
        hlcs,
        sigs,
        row_hlc,
        after,
        device,
        f.origin_node,
        plan.data.len(),
    );
    if f.row_pks matches Some(list) ==> list.contains(object_text(key)) {
        assert(sent_positions(
            plan,
            cells,
            hlcs,
            sigs,
            row_hlc,
            after,
            device,
            f.origin_node,
            plan.data.len(),
            row_changes(plan, cells, after, device, f),
            ks,
        ));
    }
}

/// The columns of a table that the cells of a scanned row stand for: the key, the
/// data, the row's timestamp, the column timestamps and, where there are any, the
/// signatures.
pub open spec fn cell_columns(schema: Seq<ColumnView>) -> Seq<Seq<char>> {
    pk_names(schema) + data_names(schema) + seq![HLC_TIMESTAMP_COLUMN@, COLUMN_HLCS_COLUMN@]
        + if has_column(schema, COLUMN_SIGS_COLUMN@) {
        seq![COLUMN_SIGS_COLUMN@]
    } else {
        Seq::empty()
    }
}

/// The query reads these columns, in this order, of exactly the rows whose filter
/// column holds the wanted text, where there is a filter, and of every row where
/// there is none.
pub open spec fn reads_wanted_rows(
    table: Seq<char>,
    names: Seq<Seq<char>>,
    cs: Seq<Cond>,
    f: FiltersView,
    sql: Seq<char>,
    params: Seq<SqlView>,
) -> bool {
    &&& select_text(column_exprs(names), table, cs) == sql
    &&& forall|row: Map<Seq<char>, SqlView>|
        {
            let read = #[trigger] all_hold(cs, scene(row, params));
            match f.column_eq {
                Some((column, text)) => read == (row[column] == SqlView::Text(text)),
                None => read,
            }
        }
}

/// The rows that a scan reads, and what it reads of them: the columns in the
/// order in which the cells stand, of exactly the rows whose filter column holds
/// the wanted text, where there is a filter, and of every row where there is
/// none. No row is left out for its timestamps.
#[verifier::rlimit(60)]
#[verifier::spinoff_prover]
pub proof fn lemma_scan_reads_every_wanted_row(
    table: Seq<char>,
    schema: Seq<ColumnView>,
    f: FiltersView,
)
    ensures
        ({
            let plan = scan_plan(table, schema, f);
            &&& plan.table_name == table && plan.pks == pk_names(schema) && plan.data == data_names(
                schema,
            )
            &&& plan.has_sigs == has_column(schema, COLUMN_SIGS_COLUMN@)
            &&& exists|cs: Seq<Cond>| #[trigger]
                reads_wanted_rows(
                    table,
                    cell_columns(schema),
                    cs,
                    f,
                    plan.sql,
                    text_params(plan.params),
                )
        }),
{
    let plan = scan_plan(table, schema, f);
    let with_sigs = has_column(schema, COLUMN_SIGS_COLUMN@);
    let names = cell_columns(schema);
    let es = column_exprs(names);
    let params = text_params(plan.params);
    let cs: Seq<Cond> = match f.column_eq {
        Some((column, _)) => seq![Cond::Equals(Expr::Column(column), Expr::First)],
        None => Seq::empty(),
    };
    reveal_strlit("\"");
    reveal_strlit("\" = ?1");
    reveal_strlit(" = ");
    reveal_strlit("?1");
    reveal_strlit(" FROM \"");
    reveal_strlit(" FROM ");
    assert(names =~= select_names(pk_names(schema), data_names(schema), with_sigs));
    assert(wrapped_each(names, "\""@, "\""@) =~= es.map_values(|e: Expr| expr_text(e)));
    if let Some((column, _)) = f.column_eq {
        assert(cond_text(cs[0]) =~= filter_predicate(column));
        assert(cond_texts(cs) =~= scan_predicates(f));
    }
    assert(select_text(es, table, cs) =~= plan.sql);
    assert forall|row: Map<Seq<char>, SqlView>|
        {
            let read = #[trigger] all_hold(cs, scene(row, params));
            match f.column_eq {
                Some((column, text)) => read == (row[column] == SqlView::Text(text)),
                None => read,
            }
        } by {
        let s = scene(row, params);
        if let Some((column, text)) = f.column_eq {
            assert(params[0] == SqlView::Text(text));
            assert(cond_holds(cs, 0, s) == (row[column] == SqlView::Text(text)));
            assert(all_hold(cs, s) ==> cond_holds(cs, 0, s));
        }
    }
    assert(reads_wanted_rows(table, names, cs, f, plan.sql, params));
}

} // verus!
