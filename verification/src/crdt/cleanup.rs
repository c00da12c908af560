//! How long deletes are remembered, and what the store holds.

use crate::crdt::apply::write::Statement;
use crate::crdt::apply::write::StatementView;
use crate::crdt::columns::DELETED_ROWS_TABLE;
use crate::crdt::columns::HLC_TIMESTAMP_COLUMN;
use crate::crdt::hlc::hlc_before;
use crate::crdt::hlc::hlc_is_newer;
use crate::crdt::hlc::lemma_full_timestamps_compare;
use crate::crdt::hlc::timestamp_value;
use crate::crdt::hlc::HlcTimestamp;
use crate::crdt::hlc::TimestampError;
use crate::crdt::sql_meaning::all_hold;
use crate::crdt::sql_meaning::all_text;
use crate::crdt::sql_meaning::clamped;
use crate::crdt::sql_meaning::cond_holds;
use crate::crdt::sql_meaning::cond_texts;
use crate::crdt::sql_meaning::delete_text;
use crate::crdt::sql_meaning::digit_run;
use crate::crdt::sql_meaning::expr_text;
use crate::crdt::sql_meaning::is_digit;
use crate::crdt::sql_meaning::leading_integer;
use crate::crdt::sql_meaning::quoted;
use crate::crdt::sql_meaning::scene;
use crate::crdt::sql_meaning::select_text;
use crate::crdt::sql_meaning::taken_by;
use crate::crdt::sql_meaning::value;
use crate::crdt::sql_meaning::Cond;
use crate::crdt::sql_meaning::Expr;
use crate::crdt::sql_meaning::Scene;
use crate::crdt::value::SqlValue;
use crate::crdt::value::SqlView;
use crate::error::DatabaseError;
use crate::numeral::digit_value;
use crate::numeral::digits_value;
use crate::numeral::numeral_digits;
use crate::numeral::numeral_value;
use crate::text::first_index;
use crate::text::joined;
use crate::text::lemma_first_index;
use crate::text::opt_text;
use crate::text::texts;
use vstd::prelude::*;

verus! {

/// Which entries of the delete log are pruned.
#[derive(Clone, Copy, Debug, PartialEq, Eq, Structural)]
pub enum RetentionPolicy {
    /// Those that are more than `days` older than the clock's last state.
    /// Nothing where the clock has no state yet.
    TimeBasedDays { days: u32 },
    /// Every entry with a timestamp.
    All,
}

/// What a pruning pass did.
#[derive(Clone, Debug, PartialEq, Eq)]
pub struct CleanupResult {
    pub rows_deleted: usize,
    /// The newest timestamp among the pruned entries.
    pub max_pruned_hlc: Option<String>,
}

/// What the store holds.
#[derive(Clone, Copy, Debug, PartialEq, Eq, Structural)]
pub struct CrdtStats {
    /// Rows in all managed tables.
    pub live_row_count: i64,
    /// Managed tables.
    pub crdt_table_count: i64,
    /// Entries of the delete log.
    pub delete_log_row_count: i64,
}

/// Nanoseconds in a day.
pub const NANOS_PER_DAY: u64 = 86_400_000_000_000;

/// The time before which entries are pruned: `days` before `current`, counted
/// in nanoseconds, not before the beginning of time. None where it does not fit
/// a signed integer.
pub open spec fn cutoff_time(current: nat, days: nat) -> Option<i64> {
    let cutoff = if current < days * NANOS_PER_DAY as nat {
        0int
    } else {
        current - days * NANOS_PER_DAY as nat
    };
    if cutoff <= i64::MAX {
        Some(cutoff as i64)
    } else {
        None
    }
}

/// The time before which entries are pruned.
pub fn compute_cutoff_hlc_num(current_hlc_num: u64, retention_days: u32) -> (r: Option<i64>)
    ensures
        r == cutoff_time(current_hlc_num as nat, retention_days as nat),
{
    assert(0 <= retention_days * NANOS_PER_DAY <= 4_294_967_295 * 86_400_000_000_000) by (
        nonlinear_arith)
        requires
            0 <= retention_days <= 4_294_967_295,
            NANOS_PER_DAY == 86_400_000_000_000,
    ;
    let window: u128 = retention_days as u128 * NANOS_PER_DAY as u128;
    let current: u128 = current_hlc_num as u128;
    let cutoff: u128 = if current < window {
        0
    } else {
        current - window
    };
    if cutoff <= i64::MAX as u128 {
        Some(cutoff as i64)
    } else {
        None
    }
}

/// Without a window everything older than the clock is pruned; a longer window
/// never prunes more; and nothing that is not older than the clock is ever
/// pruned.
pub proof fn lemma_longer_window_prunes_less(current: nat, shorter: nat, longer: nat)
    requires
        shorter <= longer,
        current <= i64::MAX,
    ensures
        cutoff_time(current, 0) == Some(current as i64),
        cutoff_time(current, longer) matches Some(l) && (cutoff_time(current, shorter) matches Some(
            s,
        ) && 0 <= l <= s <= current),
{
    assert(shorter * NANOS_PER_DAY as nat <= longer * NANOS_PER_DAY as nat) by (nonlinear_arith)
        requires
            shorter <= longer,
    ;
    assert(0 <= shorter * NANOS_PER_DAY as nat) by (nonlinear_arith);
}

/// The report of stored clock state that cannot be read.
pub open spec fn bad_state_reason(stored: Seq<char>, e: TimestampError) -> Seq<char> {
    "cleanup: invalid HLC in config '"@ + stored + "': "@ + e.spec_label()
}

/// The time before which a policy prunes, given the stored clock state. None
/// where the policy has no such time, the clock has no state or the time does
/// not fit.
pub fn compute_cutoff(policy: RetentionPolicy, stored: Option<&str>) -> (r: Result<
    Option<i64>,
    DatabaseError,
>)
    ensures
        match (policy, opt_text(stored)) {
            (RetentionPolicy::TimeBasedDays { days }, Some(s)) => match timestamp_value(s) {
                Ok(t) => r == Ok::<Option<i64>, DatabaseError>(
                    cutoff_time(t.time as nat, days as nat),
                ),
                Err(e) => r matches Err(DatabaseError::HlcError { reason }) && reason@
                    == bad_state_reason(s, e),
            },
            _ => r == Ok::<Option<i64>, DatabaseError>(None),
        },
{
    let days: u32 = match policy {
        RetentionPolicy::TimeBasedDays { days } => days,
        RetentionPolicy::All => {
            return Ok(None);
        },
    };
    match stored {
        Some(s) => match HlcTimestamp::parse(s) {
            Ok(t) => Ok(compute_cutoff_hlc_num(t.time, days)),
            Err(e) => {
                let mut reason = "cleanup: invalid HLC in config '".to_owned();
                reason.push_str(s);
                reason.push_str("': ");
                reason.push_str(e.label());
                Err(DatabaseError::HlcError { reason })
            },
        },
        None => Ok(None),
    }
}

/// The clock part of an entry's timestamp, as a number.
pub open spec fn time_part() -> Seq<char> {
    "CAST(substr("@ + HLC_TIMESTAMP_COLUMN@ + ", 1, instr("@ + HLC_TIMESTAMP_COLUMN@
        + ", '/') - 1) AS INTEGER)"@
}

fn write_time_part() -> (r: String)
    ensures
        r@ == time_part(),
{
    let mut s = "CAST(substr(".to_owned();
    s.push_str(HLC_TIMESTAMP_COLUMN);
    s.push_str(", 1, instr(");
    s.push_str(HLC_TIMESTAMP_COLUMN);
    s.push_str(", '/') - 1) AS INTEGER)");
    s
}

/// The entries that are pruned: those with a timestamp, and only older ones
/// where there is a cutoff.
pub open spec fn pruned_entries(with_cutoff: bool) -> Seq<char> {
    let stamped = " FROM \""@ + DELETED_ROWS_TABLE@ + "\" WHERE "@ + HLC_TIMESTAMP_COLUMN@
        + " IS NOT NULL"@;
    if with_cutoff {
        stamped + " AND "@ + time_part() + " < ?1"@
    } else {
        stamped
    }
}

fn write_pruned_entries(with_cutoff: bool) -> (r: String)
    ensures
        r@ == pruned_entries(with_cutoff),
{
    let mut s = " FROM \"".to_owned();
    s.push_str(DELETED_ROWS_TABLE);
    s.push_str("\" WHERE ");
    s.push_str(HLC_TIMESTAMP_COLUMN);
    s.push_str(" IS NOT NULL");
    if with_cutoff {
        s.push_str(" AND ");
        s.push_str(write_time_part().as_str());
        s.push_str(" < ?1");
    }
    s
}

/// What prunes the delete log: the query for the timestamps to be pruned, and the
/// delete. Both cover the same entries.
#[derive(Debug)]
pub struct PrunePlan {
    pub select_hlcs: Statement,
    pub delete: Statement,
}

/// What a [`PrunePlan`] stands for.
pub struct PrunePlanView {
    pub select_hlcs: StatementView,
    pub delete: StatementView,
}

impl View for PrunePlan {
    type V = PrunePlanView;

    open spec fn view(&self) -> PrunePlanView {
        PrunePlanView { select_hlcs: self.select_hlcs@, delete: self.delete@ }
    }
}

/// The plan for a policy and its cutoff, if anything is to be pruned.
pub open spec fn prune_plan(policy: RetentionPolicy, cutoff: Option<i64>) -> Option<PrunePlanView> {
    let by_time = policy is TimeBasedDays;
    let params = if by_time {
        seq![SqlView::Integer(cutoff->Some_0)]
    } else {
        Seq::empty()
    };
    if by_time && cutoff is None {
        None
    } else {
        Some(
            PrunePlanView {
                select_hlcs: StatementView {
                    sql: "SELECT "@ + HLC_TIMESTAMP_COLUMN@ + pruned_entries(by_time),
                    params,
                },
                delete: StatementView { sql: "DELETE"@ + pruned_entries(by_time), params },
            },
        )
    }
}

/// Plans a pruning pass, if anything is to be pruned.
pub fn plan_prune(policy: RetentionPolicy, cutoff: Option<i64>) -> (r: Option<PrunePlan>)
    ensures
        match (r, prune_plan(policy, cutoff)) {
            (Some(got), Some(want)) => got@ == want,
            (None, None) => true,
            _ => false,
        },
{
    let mut select_params: Vec<SqlValue> = Vec::new();
    let mut delete_params: Vec<SqlValue> = Vec::new();
    let by_time = match policy {
        RetentionPolicy::TimeBasedDays { .. } => match cutoff {
            Some(c) => {
                select_params.push(SqlValue::Integer(c));
                delete_params.push(SqlValue::Integer(c));
                true
            },
            None => {
                return None;
            },
        },
        RetentionPolicy::All => false,
    };
    let entries = write_pruned_entries(by_time);
    let mut select = "SELECT ".to_owned();
    select.push_str(HLC_TIMESTAMP_COLUMN);
    select.push_str(entries.as_str());
    let mut delete = "DELETE".to_owned();
    delete.push_str(entries.as_str());
    let plan = PrunePlan {
        select_hlcs: Statement { sql: select, params: select_params },
        delete: Statement { sql: delete, params: delete_params },
    };
    proof {
        let want = prune_plan(policy, cutoff)->Some_0;
        assert(plan@.select_hlcs.params =~= want.select_hlcs.params);
        assert(plan@.delete.params =~= want.delete.params);
    }
    Some(plan)
}

proof fn lemma_digit_run(s: Seq<char>)
    requires
        forall|i: int| 0 <= i < s.len() ==> is_digit(#[trigger] s[i]),
    ensures
        digit_run(s) == s.len(),
    decreases s.len(),
{
    if s.len() > 0 {
        let rest = s.drop_first();
        assert(is_digit(s[0]));
        assert forall|i: int| 0 <= i < rest.len() implies is_digit(#[trigger] rest[i]) by {
            assert(rest[i] == s[i + 1]);
        }
        lemma_digit_run(rest);
    }
}

proof fn lemma_all_digits(s: Seq<char>)
    requires
        digits_value(s, 10) is Some,
    ensures
        forall|i: int| 0 <= i < s.len() ==> is_digit(#[trigger] s[i]),
    decreases s.len(),
{
    if s.len() > 0 {
        let rest = s.drop_last();
        lemma_all_digits(rest);
        assert forall|i: int| 0 <= i < s.len() implies is_digit(#[trigger] s[i]) by {
            if i < rest.len() {
                assert(rest[i] == s[i]);
            } else {
                assert(digit_value(s.last(), 10) is Some);
            }
        }
    }
}

/// SQL reads a numeral as the number that it is.
proof fn lemma_numeral_is_read(s: Seq<char>, max: nat)
    requires
        numeral_value(s, 10, max) is Some,
    ensures
        s.len() > 0,
        leading_integer(s) == numeral_value(s, 10, max)->Some_0,
{
    let digits = numeral_digits(s);
    lemma_all_digits(digits);
    lemma_digit_run(digits);
    assert(is_digit(digits[0]));
    assert(digits.take(digits.len() as int) =~= digits);
}

/// The time of an entry, as SQL reads it.
spec fn time_expr() -> Expr {
    let hlc = Box::new(Expr::Bare(HLC_TIMESTAMP_COLUMN@));
    Expr::Cast(Box::new(Expr::Prefix(hlc, Box::new(Expr::Pred(Box::new(Expr::Instr(hlc, '/')))))))
}

spec fn prune_conds(by_time: bool) -> Seq<Cond> {
    let stamped = seq![Cond::NotNull(Expr::Bare(HLC_TIMESTAMP_COLUMN@))];
    if by_time {
        stamped.push(Cond::Less(time_expr(), Expr::First))
    } else {
        stamped
    }
}

proof fn lemma_prune_texts(policy: RetentionPolicy, cutoff: Option<i64>)
    requires
        prune_plan(policy, cutoff) is Some,
    ensures
        ({
            let plan = prune_plan(policy, cutoff)->Some_0;
            let cs = prune_conds(policy is TimeBasedDays);
            &&& plan.delete.sql == delete_text(DELETED_ROWS_TABLE@, cs)
            &&& plan.select_hlcs.sql == select_text(
                seq![Expr::Bare(HLC_TIMESTAMP_COLUMN@)],
                DELETED_ROWS_TABLE@,
                cs,
            )
        }),
{
    let plan = prune_plan(policy, cutoff)->Some_0;
    let by_time = policy is TimeBasedDays;
    let cs = prune_conds(by_time);
    let es = seq![Expr::Bare(HLC_TIMESTAMP_COLUMN@)];
    reveal_with_fuel(expr_text, 6);
    reveal_strlit("DELETE");
    reveal_strlit("DELETE FROM ");
    reveal_strlit("SELECT ");
    reveal_strlit(" FROM \"");
    reveal_strlit(" FROM ");
    reveal_strlit("\"");
    reveal_strlit("\" WHERE ");
    reveal_strlit(" WHERE ");
    reveal_strlit(" < ?1");
    reveal_strlit(" < ");
    reveal_strlit("?1");
    reveal_strlit("CAST(substr(");
    reveal_strlit("CAST(");
    reveal_strlit("substr(");
    reveal_strlit(", 1, instr(");
    reveal_strlit(", 1, ");
    reveal_strlit("instr(");
    reveal_strlit(", '/') - 1) AS INTEGER)");
    reveal_strlit(", '");
    reveal_strlit("')");
    reveal_strlit(" - 1");
    reveal_strlit(")");
    reveal_strlit(" AS INTEGER)");
    assert(expr_text(time_expr()) =~= time_part());
    let parts = cond_texts(cs);
    assert(parts[0] =~= HLC_TIMESTAMP_COLUMN@ + " IS NOT NULL"@);
    assert(parts.take(1) =~= seq![parts[0]]);
    if by_time {
        assert(parts[1] =~= time_part() + " < ?1"@);
        assert(parts.drop_last() =~= seq![parts[0]]);
        assert(joined(parts.drop_last(), " AND "@) == parts[0]);
        assert(all_text(cs) == parts[0] + " AND "@ + parts[1]);
    } else {
        assert(all_text(cs) == parts[0]);
    }
    assert(es.map_values(|e: Expr| expr_text(e))[0] == HLC_TIMESTAMP_COLUMN@);
    assert(plan.delete.sql =~= delete_text(DELETED_ROWS_TABLE@, cs));
    assert(plan.select_hlcs.sql =~= select_text(es, DELETED_ROWS_TABLE@, cs));
}

proof fn lemma_time_is_read(t: Seq<char>, s: Scene)
    requires
        s.row[HLC_TIMESTAMP_COLUMN@] == SqlView::Text(t),
        t.len() < i64::MAX,
        timestamp_value(t) is Ok,
    ensures
        value(time_expr(), s, 0) == SqlView::Integer(
            clamped(timestamp_value(t)->Ok_0.time as int),
        ),
{
    reveal_with_fuel(value, 6);
    lemma_first_index(t, '/');
    let i = first_index(t, '/');
    lemma_numeral_is_read(t.take(i as int), u64::MAX as nat);
    assert(i > 0);
}

/// The entries that a pruning pass takes: those that are more than `days` days
/// older than the clock, whose state is `now`. The time of an entry is the whole
/// number before its `/`. An entry without a timestamp stays.
#[verifier::rlimit(60)]
#[verifier::spinoff_prover]
pub proof fn lemma_prunes_exactly_what_is_older(
    days: u32,
    now: HlcTimestamp,
    cutoff: i64,
)
    requires
        cutoff_time(now.time as nat, days as nat) == Some(cutoff),
    ensures
        ({
            let plan = prune_plan(RetentionPolicy::TimeBasedDays { days }, Some(cutoff));
            &&& plan matches Some(p)
            &&& p.select_hlcs.params == p.delete.params
            &&& exists|cs: Seq<Cond>|
                {
                    &&& #[trigger] delete_text(DELETED_ROWS_TABLE@, cs) == p.delete.sql
                    &&& select_text(
                        seq![Expr::Bare(HLC_TIMESTAMP_COLUMN@)],
                        DELETED_ROWS_TABLE@,
                        cs,
                    ) == p.select_hlcs.sql
                    &&& forall|row: Map<Seq<char>, SqlView>|
                        {
                            let taken = #[trigger] all_hold(cs, scene(row, p.delete.params));
                            match row[HLC_TIMESTAMP_COLUMN@] {
                                SqlView::Null => !taken,
                                SqlView::Text(t) => t.len() < i64::MAX ==> (timestamp_value(
                                    t,
                                ) matches Ok(entry) ==> (taken <==> entry.time + days
                                    * 86_400_000_000_000 < now.time)),
                                _ => true,
                            }
                        }
                }
        }),
{
    let policy = RetentionPolicy::TimeBasedDays { days };
    let p = prune_plan(policy, Some(cutoff))->Some_0;
    let cs = prune_conds(true);
    lemma_prune_texts(policy, Some(cutoff));
    assert forall|row: Map<Seq<char>, SqlView>|
        {
            let taken = #[trigger] all_hold(cs, scene(row, p.delete.params));
            match row[HLC_TIMESTAMP_COLUMN@] {
                SqlView::Null => !taken,
                SqlView::Text(t) => t.len() < i64::MAX ==> (timestamp_value(t) matches Ok(entry)
                    ==> (taken <==> entry.time + days * 86_400_000_000_000 < now.time)),
                _ => true,
            }
        } by {
        let s = scene(row, p.delete.params);
        let taken = all_hold(cs, s);
        let nothing = Seq::<Cond>::empty();
        assert(cs.take(0) =~= nothing);
        assert(cs.take(1).drop_last() =~= nothing);
        assert(taken_by(cs.take(0)) == 0);
        assert(taken_by(cs.take(1)) == 0);
        assert(taken ==> cond_holds(cs, 0, s) && cond_holds(cs, 1, s));
        assert(cond_holds(cs, 0, s) == !(row[HLC_TIMESTAMP_COLUMN@] is Null));
        if let SqlView::Text(t) = row[HLC_TIMESTAMP_COLUMN@] {
            if t.len() < i64::MAX && timestamp_value(t) is Ok {
                lemma_time_is_read(t, s);
                assert(value(Expr::First, s, 0) == SqlView::Integer(cutoff));
                assert(cond_holds(cs, 1, s) == (timestamp_value(t)->Ok_0.time < cutoff));
                assert(taken == (cond_holds(cs, 0, s) && cond_holds(cs, 1, s)));
            }
        }
    }
    assert(delete_text(DELETED_ROWS_TABLE@, cs) == p.delete.sql);
}

/// Without a window every entry that has a timestamp is taken, whatever the
/// cutoff, and no other.
#[verifier::rlimit(60)]
#[verifier::spinoff_prover]
pub proof fn lemma_prunes_every_stamped_entry(cutoff: Option<i64>)
    ensures
        ({
            let plan = prune_plan(RetentionPolicy::All, cutoff);
            &&& plan matches Some(p)
            &&& p.select_hlcs.params == p.delete.params
            &&& exists|cs: Seq<Cond>|
                {
                    &&& #[trigger] delete_text(DELETED_ROWS_TABLE@, cs) == p.delete.sql
                    &&& select_text(
                        seq![Expr::Bare(HLC_TIMESTAMP_COLUMN@)],
                        DELETED_ROWS_TABLE@,
                        cs,
                    ) == p.select_hlcs.sql
                    &&& forall|row: Map<Seq<char>, SqlView>| #[trigger]
                        all_hold(cs, scene(row, p.delete.params)) <==> !(row[HLC_TIMESTAMP_COLUMN@]
                            is Null)
                }
        }),
{
    let p = prune_plan(RetentionPolicy::All, cutoff)->Some_0;
    let cs = prune_conds(false);
    lemma_prune_texts(RetentionPolicy::All, cutoff);
    assert forall|row: Map<Seq<char>, SqlView>| #[trigger]
        all_hold(cs, scene(row, p.delete.params)) <==> !(row[HLC_TIMESTAMP_COLUMN@] is Null) by {
        let s = scene(row, p.delete.params);
        assert(all_hold(cs, s) ==> cond_holds(cs, 0, s));
        assert(cond_holds(cs, 0, s) == !(row[HLC_TIMESTAMP_COLUMN@] is Null));
    }
    assert(delete_text(DELETED_ROWS_TABLE@, cs) == p.delete.sql);
}

/// `best` is one of the timestamps, and none of them is newer.
pub open spec fn is_newest_of(hlcs: Seq<Seq<char>>, best: Seq<char>) -> bool {
    hlcs.contains(best) && forall|i: int|
        0 <= i < hlcs.len() ==> !hlc_before(best, #[trigger] hlcs[i])
}

/// The newest of the timestamps that are pruned, if there are any.
pub fn newest_pruned(pruned: &[String]) -> (r: Option<String>)
    ensures
        match r {
            Some(best) => is_newest_of(texts(pruned@), best@),
            None => pruned@.len() == 0,
        },
{
    if pruned.len() == 0 {
        return None;
    }
    let ghost hlcs = texts(pruned@);
    let mut at: usize = 0;
    let mut i: usize = 1;
    while i < pruned.len()
        invariant
            0 <= at < i <= pruned.len(),
            hlcs == texts(pruned@),
            forall|j: int| 0 <= j < i ==> !hlc_before(hlcs[at as int], #[trigger] hlcs[j]),
        decreases pruned.len() - i,
    {
        assert(hlcs[i as int] == pruned@[i as int]@ && hlcs[at as int] == pruned@[at as int]@);
        if hlc_is_newer(pruned[i].as_str(), pruned[at].as_str()) {
            at = i;
        }
        i += 1;
    }
    assert(hlcs[at as int] == pruned@[at as int]@);
    Some(pruned[at].clone())
}

/// The query for the managed tables: those that carry a row timestamp, but for
/// the delete log, which is its parameter, and those that take no part in sync.
pub open spec fn managed_tables_query() -> Seq<char> {
    "SELECT m.name FROM sqlite_master m WHERE m.type = 'table' AND m.name NOT LIKE 'sqlite_%' AND m.name NOT LIKE '%_no_sync' AND m.name != ?1 AND EXISTS (SELECT 1 FROM pragma_table_info(m.name) WHERE name = '"@
        + HLC_TIMESTAMP_COLUMN@ + "')"@
}

/// The query for the managed tables; the name of the delete log is its
/// parameter.
pub fn managed_tables_sql() -> (r: String)
    ensures
        r@ == managed_tables_query(),
{
    let mut s =
        "SELECT m.name FROM sqlite_master m WHERE m.type = 'table' AND m.name NOT LIKE 'sqlite_%' AND m.name NOT LIKE '%_no_sync' AND m.name != ?1 AND EXISTS (SELECT 1 FROM pragma_table_info(m.name) WHERE name = '".to_owned();
    s.push_str(HLC_TIMESTAMP_COLUMN);
    s.push_str("')");
    s
}

/// The query for the number of rows in a table.
pub open spec fn count_query(table: Seq<char>) -> Seq<char> {
    "SELECT COUNT(*) FROM \""@ + table + "\""@
}

/// The query for the number of rows in a table.
pub fn count_rows_sql(table_name: &str) -> (r: String)
    ensures
        r@ == count_query(table_name@),
{
    let mut s = "SELECT COUNT(*) FROM \"".to_owned();
    s.push_str(table_name);
    s.push_str("\"");
    s
}

/// Sum of some counts.
pub open spec fn total(counts: Seq<i64>) -> int
    decreases counts.len(),
{
    if counts.len() == 0 {
        0
    } else {
        total(counts.drop_last()) + counts.last()
    }
}

proof fn lemma_total_grows(counts: Seq<i64>, n: int)
    requires
        0 <= n <= counts.len(),
        forall|i: int| 0 <= i < counts.len() ==> (#[trigger] counts[i]) >= 0,
    ensures
        0 <= total(counts.take(n)) <= total(counts),
    decreases counts.len(),
{
    if n == counts.len() {
        assert(counts.take(n) =~= counts);
        if n > 0 {
            let rest = counts.drop_last();
            assert forall|i: int| 0 <= i < rest.len() implies (#[trigger] rest[i]) >= 0 by {
                assert(rest[i] == counts[i]);
            }
            lemma_total_grows(rest, n - 1);
            assert(rest.take(n - 1) =~= rest);
            assert(counts.last() == counts[n - 1]);
        }
    } else {
        let rest = counts.drop_last();
        assert forall|i: int| 0 <= i < rest.len() implies (#[trigger] rest[i]) >= 0 by {
            assert(rest[i] == counts[i]);
        }
        lemma_total_grows(rest, n);
        assert(rest.take(n) =~= counts.take(n));
        assert(counts.last() == counts[counts.len() - 1]);
    }
}

/// The statistics, given the row count of each managed table and the length of
/// the delete log, if there is one.
pub fn sum_stats(counts: &[i64], delete_log: Option<i64>) -> (r: CrdtStats)
    requires
        forall|i: int| 0 <= i < counts@.len() ==> (#[trigger] counts@[i]) >= 0,
        total(counts@) <= i64::MAX,
        counts@.len() <= i64::MAX,
    ensures
        r.live_row_count == total(counts@),
        r.crdt_table_count == counts@.len(),
        r.delete_log_row_count == match delete_log {
            Some(n) => n,
            None => 0,
        },
{
    let mut live: i64 = 0;
    let mut i: usize = 0;
    assert(counts@.take(0) =~= Seq::<i64>::empty());
    while i < counts.len()
        invariant
            i <= counts.len(),
            forall|i: int| 0 <= i < counts@.len() ==> (#[trigger] counts@[i]) >= 0,
            total(counts@) <= i64::MAX,
            live == total(counts@.take(i as int)),
        decreases counts.len() - i,
    {
        proof {
            let next = counts@.take(i + 1);
            assert(next.drop_last() =~= counts@.take(i as int));
            lemma_total_grows(counts@, i + 1);
            lemma_total_grows(counts@, i as int);
        }
        live += counts[i];
        i += 1;
    }
    assert(counts@.take(i as int) =~= counts@);
    CrdtStats {
        live_row_count: live,
        crdt_table_count: counts.len() as i64,
        delete_log_row_count: match delete_log {
            Some(n) => n,
            None => 0,
        },
    }
}

/// The sum of the counts of two groups of tables is the sum of both, and that of
/// one table its count.
pub proof fn lemma_total_adds_up(a: Seq<i64>, b: Seq<i64>, one: i64)
    ensures
        total(a + b) == total(a) + total(b),
        total(seq![one]) == one,
        total(Seq::<i64>::empty()) == 0,
    decreases b.len(),
{
    assert(seq![one].drop_last() =~= Seq::<i64>::empty());
    assert(total(seq![one]) == total(Seq::<i64>::empty()) + one);
    if b.len() == 0 {
        assert(a + b =~= a);
    } else {
        lemma_total_adds_up(a, b.drop_last(), one);
        assert((a + b).drop_last() =~= a + b.drop_last());
        assert((a + b).last() == b.last());
    }
}

/// The newest of the pruned timestamps is one of them, and no other has a later
/// time.
pub proof fn lemma_pruned_horizon(hlcs: Seq<Seq<char>>, best: Seq<char>, i: int)
    requires
        is_newest_of(hlcs, best),
        0 <= i < hlcs.len(),
        timestamp_value(best) is Ok,
        timestamp_value(hlcs[i]) is Ok,
    ensures
        timestamp_value(hlcs[i])->Ok_0.time <= timestamp_value(best)->Ok_0.time,
        exists|k: int| 0 <= k < hlcs.len() && #[trigger] hlcs[k] == best,
{
    lemma_full_timestamps_compare(best, hlcs[i], 0);
    let k = choose|k: int| 0 <= k < hlcs.len() && hlcs[k] == best;
    assert(hlcs[k] == best);
}

/// Rows are counted in the table that is named.
pub proof fn lemma_rows_are_counted_in_the_table(table: Seq<char>)
    ensures
        count_query(table) == "SELECT COUNT(*) FROM "@ + quoted(table),
{
    reveal_strlit("SELECT COUNT(*) FROM \"");
    reveal_strlit("SELECT COUNT(*) FROM ");
    reveal_strlit("\"");
    assert(count_query(table) =~= "SELECT COUNT(*) FROM "@ + quoted(table));
}

/// The cutoff lies the kept days before the clock, or at the beginning of time
/// where the clock has not run that long. There is none exactly where it would not
/// fit a stored integer; and a pass by time is planned exactly where there is one.
pub proof fn lemma_when_there_is_a_cutoff(current: nat, days: u32)
    ensures
        ({
            let kept = days * 86_400_000_000_000;
            let cutoff = cutoff_time(current, days as nat);
            &&& cutoff is Some <==> current <= i64::MAX + kept
            &&& cutoff matches Some(c) ==> c == if current < kept {
                0
            } else {
                current - kept
            }
            &&& prune_plan(RetentionPolicy::TimeBasedDays { days }, cutoff) is Some
                <==> cutoff is Some
        }),
{
}

} // verus!
