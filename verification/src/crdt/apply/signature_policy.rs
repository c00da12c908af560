//! A policy that admits every column whose signature a provider accepts.

use crate::crdt::apply::batch::RowGroupView;
use crate::crdt::apply::policy::ApplyPolicy;
use crate::crdt::apply::policy_types::decision_views;
use crate::crdt::apply::policy_types::indexed_views;
use crate::crdt::apply::policy_types::ColumnDecision;
use crate::crdt::apply::policy_types::ConstraintDecision;
use crate::crdt::apply::policy_types::DecisionView;
use crate::crdt::apply::policy_types::IndexedChange;
use crate::crdt::apply::policy_types::IndexedView;
use crate::crdt::apply::policy_types::RowDecision;
use crate::crdt::apply::policy_types::RowInput;
use crate::crdt::apply::policy_types::RowWrite;
use crate::crdt::apply::policy_types::SignatureView;
use crate::crdt::apply::policy_types::SignatureWrite;
use crate::crdt::apply::preflight::first_refused;
use crate::crdt::apply::preflight::signature_passed;
use crate::crdt::apply::preflight::verify_all_signatures;
use crate::crdt::apply::replica::eligible_in;
use crate::crdt::apply::replica::verdicts_on;
use crate::crdt::apply::replica::Rules;
use crate::crdt::apply::report::ApplyOutcome;
use crate::crdt::apply::row::indices_in;
use crate::crdt::apply::write::signature_applied;
use crate::crdt::scanner::change::ChangeView;
use crate::crdt::scanner::change::ColumnChange;
use crate::crdt::value::sql_of_json;
use crate::crdt::value::value_of_json;
use crate::error::Error;
use crate::json::keys_ascend;
use crate::json::lemma_with_member;
use crate::json::lemma_without_member;
use crate::json::member;
use crate::json::JsonValue;
use crate::json::JsonView;
use crate::signature::SignatureProvider;
use std::marker::PhantomData;
use vstd::prelude::*;

verus! {

/// Admits every eligible column as it came. Signatures are verified once, for
/// the whole batch, before anything is written; what was stored as a column's
/// signature is replaced by what came with the change.
///
/// It takes part in transactions of any handle type `T`.
pub struct SignatureApplyPolicy<'a, P, T> {
    provider: &'a P,
    handle: PhantomData<T>,
}

impl<'a, P, T> SignatureApplyPolicy<'a, P, T> {
    /// Who verifies.
    pub closed spec fn asked(&self) -> &'a P {
        self.provider
    }

    /// A policy that asks `provider`.
    pub fn new(provider: &'a P) -> (r: Self)
        ensures
            r.asked() == provider,
    {
        SignatureApplyPolicy { provider, handle: PhantomData }
    }
}

/// The verdict on a change that may be written: its value as it decodes, and its
/// signature in place of the stored one.
pub open spec fn admits(c: ChangeView) -> DecisionView {
    DecisionView::Accept {
        value: sql_of_json(c.value),
        signature: SignatureView::Replace(c.sig),
    }
}

/// The verdict on an eligible change.
pub open spec fn admitted(c: IndexedView) -> DecisionView {
    admits(c.change)
}

/// The verdicts of this policy on a row depend on its changes alone.
pub proof fn lemma_verdicts_follow_changes(g: RowGroupView, rules: Rules)
    requires
        forall|c: ChangeView| #[trigger] (rules.verdict)(c) == admits(c),
    ensures
        admitted_all(g.changes, eligible_in(g, rules)) == verdicts_on(g, rules),
{
    assert(admitted_all(g.changes, eligible_in(g, rules)) =~= verdicts_on(g, rules));
}

/// The verdicts on the eligible changes, in order.
pub open spec fn admitted_all(
    changes: Seq<IndexedView>,
    eligible: Seq<usize>,
) -> Seq<DecisionView> {
    eligible.map_values(|i: usize| admitted(changes[i as int]))
}

/// Admits the eligible changes of a row.
pub fn admit_all(changes: &[IndexedChange], eligible: &[usize]) -> (r: Vec<ColumnDecision>)
    requires
        indices_in(eligible@, indexed_views(changes@)),
    ensures
        decision_views(r@) == admitted_all(indexed_views(changes@), eligible@),
{
    let mut out: Vec<ColumnDecision> = Vec::new();
    let mut i: usize = 0;
    while i < eligible.len()
        invariant
            i <= eligible.len(),
            out@.len() == i,
            indices_in(eligible@, indexed_views(changes@)),
            forall|j: int|
                0 <= j < i ==> (#[trigger] out@[j])@ == admitted(
                    changes@[eligible@[j] as int]@,
                ),
        decreases eligible.len() - i,
    {
        let at: usize = eligible[i];
        let change = &changes[at].change;
        let sig: Option<JsonValue> = match &change.sig {
            Some(v) => Some(v.copy()),
            None => None,
        };
        out.push(
            ColumnDecision::Accept {
                value: value_of_json(&change.value),
                signature: SignatureWrite::Replace(sig),
            },
        );
        i += 1;
    }
    assert(decision_views(out@) =~= admitted_all(indexed_views(changes@), eligible@));
    out
}

/// The provider may answer `verdict` when it looks at the whole batch.
pub open spec fn may_look<P: SignatureProvider>(
    provider: &P,
    changes: &[ColumnChange],
    verdict: Result<(), Error>,
) -> bool {
    call_ensures(P::on_before_apply, (provider, changes), verdict)
}

/// The provider let the whole batch pass.
pub open spec fn batch_passed<P: SignatureProvider>(
    provider: &P,
    changes: &[ColumnChange],
) -> bool {
    exists|verdict: Result<(), Error>|
        verdict is Ok && #[trigger] may_look(provider, changes, verdict)
}

impl<'a, T, P: SignatureProvider> ApplyPolicy<T> for SignatureApplyPolicy<'a, P, T> {
    /// The provider looks at the batch first, then at every signature in it. The
    /// error is the provider's, or names the first change that it refused.
    open spec fn preflighted(
        &self,
        after: &Self,
        changes: &[ColumnChange],
        r: Result<(), Error>,
    ) -> bool {
        &&& after.asked() == self.asked()
        &&& match r {
            Ok(_) => batch_passed(self.asked(), changes) && forall|i: int|
                0 <= i < changes@.len() ==> signature_passed(self.asked(), #[trigger] changes@[i]),
            Err(e) => {
                ||| may_look(self.asked(), changes, r)
                ||| batch_passed(self.asked(), changes) && first_refused(self.asked(), changes@, e)
            },
        }
    }

    fn preflight(&mut self, changes: &[ColumnChange]) -> (r: Result<(), Error>) {
        let looked = self.provider.on_before_apply(changes);
        assert(may_look(self.provider, changes, looked));
        match looked {
            Ok(()) => verify_all_signatures(changes, self.provider),
            Err(e) => Err(e),
        }
    }

    fn begin(&mut self, tx: &T, changes: &[ColumnChange]) -> (r: Result<(), Error>)
        ensures
            r is Ok,
            final(self).asked() == old(self).asked(),
    {
        Ok(())
    }

    fn prepare_row(&mut self, tx: &T, row: RowInput<'_>) -> (r: Result<RowDecision, Error>)
        ensures
            r matches Ok(RowDecision::Columns(d)) && decision_views(d@) == admitted_all(
                indexed_views(row.changes@),
                row.eligible_indices@,
            ),
            final(self).asked() == old(self).asked(),
    {
        Ok(RowDecision::Columns(admit_all(row.changes, row.eligible_indices)))
    }

    fn after_row(&mut self, tx: &T, written: RowWrite<'_>) -> (r: Result<(), Error>)
        ensures
            r is Ok,
            final(self).asked() == old(self).asked(),
    {
        Ok(())
    }

    fn on_insert_constraint(&mut self, tx: &T, attempted: RowWrite<'_>, code: i32) -> (r: Result<
        ConstraintDecision,
        Error,
    >)
        ensures
            r matches Ok(ConstraintDecision::Abort),
            final(self).asked() == old(self).asked(),
    {
        Ok(ConstraintDecision::Abort)
    }

    fn before_commit(
        &mut self,
        tx: &T,
        changes: &[ColumnChange],
        outcome: &ApplyOutcome,
    ) -> (r: Result<(), Error>)
        ensures
            r is Ok,
            final(self).asked() == old(self).asked(),
    {
        Ok(())
    }
}

/// What is admitted is written as it came: its value, and its signature in place
/// of the one that was stored. A change without a signature leaves the column
/// without one.
pub proof fn lemma_admitted_as_it_came(
    c: ChangeView,
    map: Seq<(Seq<char>, JsonView)>,
    other: Seq<char>,
)
    requires
        keys_ascend(map),
    ensures
        admits(c) matches DecisionView::Accept { value, signature } && {
            let after = signature_applied(map, c.column_name, signature);
            &&& value == sql_of_json(c.value)
            &&& member(after, c.column_name) == c.sig
            &&& other != c.column_name ==> member(after, other) == member(map, other)
        },
{
    match c.sig {
        Some(sig) => {
            lemma_with_member(map, c.column_name, sig, other);
        },
        None => {
            lemma_without_member(map, c.column_name, other);
        },
    }
}

} // verus!
