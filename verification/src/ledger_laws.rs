//! What every change to the ledger keeps: participants with distinct
//! identifiers, records that name only listed participants, and expenses
//! whose shares add up to their totals. These are the conditions under
//! which the balance laws hold.
use crate::balance_laws::{ids_unique, records_known, shares_balanced};
use crate::model::{
    ExpenseView, NewExpenseInput, NewSettlementInput, ParticipantView, SettlementView, Share,
    StateView,
};
use crate::money::currency_code;
use crate::state::{
    adjusted, expense_problem, expenses_without, has_participant, law_adjusted_shares_sum,
    lemma_share_problem_none, lemma_valid_expense, recorded_expense, recorded_settlement,
    settlement_problem, settlements_without, share_sum, time_or,
};
use crate::normalize::{
    cleaned_expense, expense_stays, expense_time_order, import_adjust_fits, keep, known_shares,
    name_order, normalized_state, settlement_stays, settlement_time_order, staying_expenses,
    staying_settlements,
};
use crate::sorting::{
    lemma_stable_sort_all, lemma_stable_sort_contains, lemma_stable_sort_of_sorted, lemma_stable_sort_sorted,
    total_preorder,
};
use crate::money::{law_currency_code_idempotent, lemma_currency_code_not_blank};
use crate::text::{lemma_lex_le_total, lemma_lex_le_trans, lemma_trimmed_idempotent, lowercase_of, trimmed};
use crate::state::adjust_fits;
use vstd::prelude::*;

verus! {

/// A ledger the balance laws speak of: distinct participant identifiers,
/// records naming only listed participants, and balanced expenses.
pub open spec fn ledger_valid(st: StateView) -> bool {
    &&& ids_unique(st.participants)
    &&& records_known(st)
    &&& shares_balanced(st)
}

/// Whether an expense names only participants of `ps` and its shares add up
/// to its total.
pub open spec fn expense_fits(e: ExpenseView, ps: Seq<ParticipantView>) -> bool {
    &&& has_participant(ps, e.payer_id)
    &&& forall|j: int| 0 <= j < e.shares.len() ==> has_participant(ps, #[trigger] e.shares[j].participant_id)
    &&& share_sum(e.shares) == e.total_cents
}

/// Whether a settlement names only participants of `ps`.
pub open spec fn settlement_fits(s: SettlementView, ps: Seq<ParticipantView>) -> bool {
    has_participant(ps, s.from_id) && has_participant(ps, s.to_id)
}

proof fn lemma_valid_by_records(st: StateView)
    requires
        ids_unique(st.participants),
        forall|i: int| 0 <= i < st.expenses.len() ==> expense_fits(#[trigger] st.expenses[i], st.participants),
        forall|k: int| 0 <= k < st.settlements.len() ==> settlement_fits(#[trigger] st.settlements[k], st.participants),
    ensures
        ledger_valid(st),
{
    assert forall|i: int, j: int|
        0 <= i < st.expenses.len() && 0 <= j < st.expenses[i].shares.len() implies has_participant(
        st.participants,
        #[trigger] st.expenses[i].shares[j].participant_id,
    ) by {
        assert(expense_fits(st.expenses[i], st.participants));
    }
    assert forall|k: int| 0 <= k < st.settlements.len() implies has_participant(
        st.participants,
        #[trigger] st.settlements[k].from_id,
    ) by {
        assert(settlement_fits(st.settlements[k], st.participants));
    }
    assert forall|k: int| 0 <= k < st.settlements.len() implies has_participant(
        st.participants,
        #[trigger] st.settlements[k].to_id,
    ) by {
        assert(settlement_fits(st.settlements[k], st.participants));
    }
}

proof fn lemma_records_of_valid(st: StateView)
    requires
        ledger_valid(st),
    ensures
        forall|i: int| 0 <= i < st.expenses.len() ==> expense_fits(#[trigger] st.expenses[i], st.participants),
        forall|k: int| 0 <= k < st.settlements.len() ==> settlement_fits(#[trigger] st.settlements[k], st.participants),
{
    assert forall|i: int| 0 <= i < st.expenses.len() implies expense_fits(#[trigger] st.expenses[i], st.participants) by {
        let e = st.expenses[i];
        assert(has_participant(st.participants, st.expenses[i].payer_id));
        assert forall|j: int| 0 <= j < e.shares.len() implies has_participant(
            st.participants,
            #[trigger] e.shares[j].participant_id,
        ) by {
            assert(has_participant(st.participants, st.expenses[i].shares[j].participant_id));
        }
    }
    assert forall|k: int| 0 <= k < st.settlements.len() implies settlement_fits(
        #[trigger] st.settlements[k],
        st.participants,
    ) by {
        assert(has_participant(st.participants, st.settlements[k].from_id));
        assert(has_participant(st.participants, st.settlements[k].to_id));
    }
}

/// The expense that an accepted input records names only listed
/// participants and is balanced.
proof fn lemma_recorded_expense_fits(ps: Seq<ParticipantView>, input: NewExpenseInput, id: u128, t: i64)
    requires
        expense_problem(ps, input) is None,
    ensures
        expense_fits(recorded_expense(input, id, t), ps),
{
    lemma_valid_expense(ps, input);
    lemma_share_problem_none(ps, input.shares@);
    let s = input.shares@;
    let total = input.total_cents as int;
    law_adjusted_shares_sum(s, total);
    let a = adjusted(s, total);
    crate::state::lemma_last_max_index(s);
    assert forall|j: int| 0 <= j < a.len() implies has_participant(ps, #[trigger] a[j].participant_id) by {
        assert(a[j].participant_id == s[j].participant_id);
        assert(s[j].amount_cents >= 0);
        assert(has_participant(ps, s[j].participant_id));
    }
}

/// Recording an accepted expense keeps the ledger valid.
pub proof fn law_add_expense_keeps_valid(st: StateView, input: NewExpenseInput, id: u128, now: i64)
    requires
        ledger_valid(st),
        expense_problem(st.participants, input) is None,
    ensures
        ledger_valid(
            StateView {
                expenses: st.expenses.push(recorded_expense(input, id, time_or(input.created_at, now))),
                last_currency: currency_code(input.currency@),
                ..st
            },
        ),
{
    let e = recorded_expense(input, id, time_or(input.created_at, now));
    let st2 = StateView { expenses: st.expenses.push(e), last_currency: currency_code(input.currency@), ..st };
    lemma_records_of_valid(st);
    lemma_recorded_expense_fits(st.participants, input, id, time_or(input.created_at, now));
    assert forall|i: int| 0 <= i < st2.expenses.len() implies expense_fits(#[trigger] st2.expenses[i], st2.participants) by {
        if i < st.expenses.len() {
            assert(st2.expenses[i] == st.expenses[i]);
        }
    }
    lemma_valid_by_records(st2);
}

/// Replacing an expense by an accepted input keeps the ledger valid.
pub proof fn law_update_expense_keeps_valid(st: StateView, input: NewExpenseInput, i: int)
    requires
        ledger_valid(st),
        expense_problem(st.participants, input) is None,
        0 <= i < st.expenses.len(),
    ensures
        ledger_valid(
            StateView {
                expenses: st.expenses.update(
                    i,
                    recorded_expense(input, st.expenses[i].id, time_or(input.created_at, st.expenses[i].created_at)),
                ),
                last_currency: currency_code(input.currency@),
                ..st
            },
        ),
{
    let e = recorded_expense(input, st.expenses[i].id, time_or(input.created_at, st.expenses[i].created_at));
    let st2 = StateView { expenses: st.expenses.update(i, e), last_currency: currency_code(input.currency@), ..st };
    lemma_records_of_valid(st);
    lemma_recorded_expense_fits(st.participants, input, st.expenses[i].id, time_or(input.created_at, st.expenses[i].created_at));
    assert forall|k: int| 0 <= k < st2.expenses.len() implies expense_fits(#[trigger] st2.expenses[k], st2.participants) by {
        if k != i {
            assert(st2.expenses[k] == st.expenses[k]);
        }
    }
    lemma_valid_by_records(st2);
}

proof fn lemma_expenses_without_from(s: Seq<ExpenseView>, id: u128)
    ensures
        forall|k: int| 0 <= k < expenses_without(s, id).len() ==> s.contains(#[trigger] expenses_without(s, id)[k]),
    decreases s.len(),
{
    if s.len() > 0 {
        let t = s.drop_last();
        lemma_expenses_without_from(t, id);
        let w = expenses_without(s, id);
        assert forall|k: int| 0 <= k < w.len() implies s.contains(#[trigger] w[k]) by {
            let wt = expenses_without(t, id);
            if k < wt.len() {
                assert(w[k] == wt[k]);
                assert(t.contains(wt[k]));
                let j = choose|j: int| 0 <= j < t.len() && t[j] == wt[k];
                assert(s[j] == t[j]);
            } else {
                assert(w[k] == s.last());
                assert(s[s.len() - 1] == s.last());
            }
        }
    }
}

/// Removing expenses keeps the ledger valid.
pub proof fn law_delete_expense_keeps_valid(st: StateView, id: u128)
    requires
        ledger_valid(st),
    ensures
        ledger_valid(StateView { expenses: expenses_without(st.expenses, id), ..st }),
{
    let st2 = StateView { expenses: expenses_without(st.expenses, id), ..st };
    lemma_records_of_valid(st);
    lemma_expenses_without_from(st.expenses, id);
    assert forall|k: int| 0 <= k < st2.expenses.len() implies expense_fits(#[trigger] st2.expenses[k], st2.participants) by {
        assert(st.expenses.contains(st2.expenses[k]));
        let j = choose|j: int| 0 <= j < st.expenses.len() && st.expenses[j] == st2.expenses[k];
        assert(expense_fits(st.expenses[j], st.participants));
    }
    lemma_valid_by_records(st2);
}


/// Recording an accepted settlement keeps the ledger valid.
pub proof fn law_add_settlement_keeps_valid(st: StateView, input: NewSettlementInput, id: u128, now: i64)
    requires
        ledger_valid(st),
        settlement_problem(st.participants, input) is None,
    ensures
        ledger_valid(
            StateView {
                settlements: st.settlements.push(recorded_settlement(input, id, time_or(input.created_at, now))),
                last_currency: currency_code(input.currency@),
                ..st
            },
        ),
{
    let x = recorded_settlement(input, id, time_or(input.created_at, now));
    let st2 = StateView { settlements: st.settlements.push(x), last_currency: currency_code(input.currency@), ..st };
    lemma_records_of_valid(st);
    assert forall|k: int| 0 <= k < st2.settlements.len() implies settlement_fits(#[trigger] st2.settlements[k], st2.participants) by {
        if k < st.settlements.len() {
            assert(st2.settlements[k] == st.settlements[k]);
        }
    }
    lemma_valid_by_records(st2);
}

/// Replacing a settlement by an accepted input keeps the ledger valid.
pub proof fn law_update_settlement_keeps_valid(st: StateView, input: NewSettlementInput, i: int)
    requires
        ledger_valid(st),
        settlement_problem(st.participants, input) is None,
        0 <= i < st.settlements.len(),
    ensures
        ledger_valid(
            StateView {
                settlements: st.settlements.update(
                    i,
                    recorded_settlement(
                        input,
                        st.settlements[i].id,
                        time_or(input.created_at, st.settlements[i].created_at),
                    ),
                ),
                last_currency: currency_code(input.currency@),
                ..st
            },
        ),
{
    let x = recorded_settlement(input, st.settlements[i].id, time_or(input.created_at, st.settlements[i].created_at));
    let st2 = StateView { settlements: st.settlements.update(i, x), last_currency: currency_code(input.currency@), ..st };
    lemma_records_of_valid(st);
    assert forall|k: int| 0 <= k < st2.settlements.len() implies settlement_fits(#[trigger] st2.settlements[k], st2.participants) by {
        if k != i {
            assert(st2.settlements[k] == st.settlements[k]);
        }
    }
    lemma_valid_by_records(st2);
}

proof fn lemma_settlements_without_from(s: Seq<SettlementView>, id: u128)
    ensures
        forall|k: int| 0 <= k < settlements_without(s, id).len() ==> s.contains(#[trigger] settlements_without(s, id)[k]),
    decreases s.len(),
{
    if s.len() > 0 {
        let t = s.drop_last();
        lemma_settlements_without_from(t, id);
        let w = settlements_without(s, id);
        assert forall|k: int| 0 <= k < w.len() implies s.contains(#[trigger] w[k]) by {
            let wt = settlements_without(t, id);
            if k < wt.len() {
                assert(w[k] == wt[k]);
                assert(t.contains(wt[k]));
                let j = choose|j: int| 0 <= j < t.len() && t[j] == wt[k];
                assert(s[j] == t[j]);
            } else {
                assert(w[k] == s.last());
                assert(s[s.len() - 1] == s.last());
            }
        }
    }
}

/// Removing settlements keeps the ledger valid.
pub proof fn law_delete_settlement_keeps_valid(st: StateView, id: u128)
    requires
        ledger_valid(st),
    ensures
        ledger_valid(StateView { settlements: settlements_without(st.settlements, id), ..st }),
{
    let st2 = StateView { settlements: settlements_without(st.settlements, id), ..st };
    lemma_records_of_valid(st);
    lemma_settlements_without_from(st.settlements, id);
    assert forall|k: int| 0 <= k < st2.settlements.len() implies settlement_fits(#[trigger] st2.settlements[k], st2.participants) by {
        assert(st.settlements.contains(st2.settlements[k]));
        let j = choose|j: int| 0 <= j < st.settlements.len() && st.settlements[j] == st2.settlements[k];
        assert(settlement_fits(st.settlements[j], st.participants));
    }
    lemma_valid_by_records(st2);
}

/// Adding a participant whose identifier is not yet listed keeps the ledger
/// valid.
pub proof fn law_add_participant_keeps_valid(st: StateView, p: ParticipantView)
    requires
        ledger_valid(st),
        !has_participant(st.participants, p.id),
    ensures
        ledger_valid(StateView { participants: st.participants.push(p), ..st }),
{
    let ps2 = st.participants.push(p);
    let st2 = StateView { participants: ps2, ..st };
    lemma_records_of_valid(st);
    assert forall|i: int, j: int| 0 <= i < j < ps2.len() implies #[trigger] ps2[i].id != #[trigger] ps2[j].id by {
        if j == ps2.len() - 1 {
            assert(ps2[i] == st.participants[i]);
        } else {
            assert(ps2[i] == st.participants[i]);
            assert(ps2[j] == st.participants[j]);
        }
    }
    assert forall|id: u128| has_participant(st.participants, id) implies #[trigger] has_participant(ps2, id) by {
        let k = choose|k: int| 0 <= k < st.participants.len() && #[trigger] st.participants[k].id == id;
        assert(ps2[k] == st.participants[k]);
    }
    assert forall|i: int| 0 <= i < st2.expenses.len() implies expense_fits(#[trigger] st2.expenses[i], ps2) by {
        let e = st.expenses[i];
        assert(expense_fits(e, st.participants));
        assert(has_participant(ps2, e.payer_id));
        assert forall|j: int| 0 <= j < e.shares.len() implies has_participant(ps2, #[trigger] e.shares[j].participant_id) by {
            assert(has_participant(st.participants, e.shares[j].participant_id));
        }
    }
    assert forall|k: int| 0 <= k < st2.settlements.len() implies settlement_fits(#[trigger] st2.settlements[k], ps2) by {
        assert(settlement_fits(st.settlements[k], st.participants));
        assert(has_participant(ps2, st.settlements[k].from_id));
        assert(has_participant(ps2, st.settlements[k].to_id));
    }
    lemma_valid_by_records(st2);
}

/// Changing a participant's name or activity, keeping their identifier,
/// keeps the ledger valid.
pub proof fn law_edit_participant_keeps_valid(st: StateView, i: int, p: ParticipantView)
    requires
        ledger_valid(st),
        0 <= i < st.participants.len(),
        p.id == st.participants[i].id,
    ensures
        ledger_valid(StateView { participants: st.participants.update(i, p), ..st }),
{
    let ps = st.participants;
    let ps2 = ps.update(i, p);
    let st2 = StateView { participants: ps2, ..st };
    lemma_records_of_valid(st);
    assert forall|a: int, b: int| 0 <= a < b < ps2.len() implies #[trigger] ps2[a].id != #[trigger] ps2[b].id by {
        assert(ps2[a].id == ps[a].id);
        assert(ps2[b].id == ps[b].id);
    }
    assert forall|id: u128| has_participant(ps, id) implies #[trigger] has_participant(ps2, id) by {
        let k = choose|k: int| 0 <= k < ps.len() && #[trigger] ps[k].id == id;
        assert(ps2[k].id == ps[k].id);
    }
    assert forall|x: int| 0 <= x < st2.expenses.len() implies expense_fits(#[trigger] st2.expenses[x], ps2) by {
        let e = st.expenses[x];
        assert(expense_fits(e, ps));
        assert(has_participant(ps2, e.payer_id));
        assert forall|j: int| 0 <= j < e.shares.len() implies has_participant(ps2, #[trigger] e.shares[j].participant_id) by {
            assert(has_participant(ps, e.shares[j].participant_id));
        }
    }
    assert forall|k: int| 0 <= k < st2.settlements.len() implies settlement_fits(#[trigger] st2.settlements[k], ps2) by {
        assert(settlement_fits(st.settlements[k], ps));
        assert(has_participant(ps2, st.settlements[k].from_id));
        assert(has_participant(ps2, st.settlements[k].to_id));
    }
    lemma_valid_by_records(st2);
}


proof fn lemma_keep_props<T>(s: Seq<T>, p: spec_fn(T) -> bool)
    ensures
        forall|k: int| 0 <= k < keep(s, p).len() ==> p(#[trigger] keep(s, p)[k]) && s.contains(keep(s, p)[k]),
    decreases s.len(),
{
    if s.len() > 0 {
        let t = s.drop_last();
        lemma_keep_props(t, p);
        let w = keep(s, p);
        let wt = keep(t, p);
        assert forall|k: int| 0 <= k < w.len() implies p(#[trigger] w[k]) && s.contains(w[k]) by {
            if k < wt.len() {
                assert(w[k] == wt[k]);
                assert(t.contains(wt[k]));
                let j = choose|j: int| 0 <= j < t.len() && t[j] == wt[k];
                assert(s[j] == t[j]);
            } else {
                assert(w[k] == s.last());
                assert(s[s.len() - 1] == s.last());
            }
        }
    }
}

/// After the clean-up that follows an import, every record names only
/// listed participants and every expense's shares add up to its total,
/// whatever the ledger held before (as long as each expense's rounding
/// difference fits, which the clean-up itself needs).
pub proof fn law_cleanup_yields_known_balanced_records(st: StateView)
    requires
        import_adjust_fits(st),
    ensures
        records_known(normalized_state(st)),
        shares_balanced(normalized_state(st)),
{
    let ps = st.participants;
    let r = normalized_state(st);
    let nps = r.participants;
    let name_le = |a: ParticipantView, b: ParticipantView| name_order(a, b);
    lemma_stable_sort_contains(ps, name_le);
    assert forall|id: u128| has_participant(ps, id) implies #[trigger] has_participant(nps, id) by {
        let k = choose|k: int| 0 <= k < ps.len() && #[trigger] ps[k].id == id;
        assert(ps.contains(ps[k]));
        assert(nps.contains(ps[k]));
        let j = choose|j: int| 0 <= j < nps.len() && nps[j] == ps[k];
        assert(nps[j].id == id);
    }
    let clean = |e: ExpenseView| cleaned_expense(e, ps);
    let stays = |e: ExpenseView| expense_stays(e, ps);
    let m = st.expenses.map_values(clean);
    let fits = |e: ExpenseView| expense_fits(e, nps);
    assert forall|i: int| 0 <= i < m.len() && stays(m[i]) implies fits(#[trigger] m[i]) by {
        let e = st.expenses[i];
        let ks = known_shares(e.shares, ps);
        assert(adjust_fits(ks, e.total_cents as int));
        assert(m[i] == cleaned_expense(e, ps));
        assert(m[i].shares == adjusted(ks, e.total_cents as int));
        lemma_keep_props(e.shares, |sh: Share| has_participant(ps, sh.participant_id));
        crate::state::lemma_last_max_index(ks);
        if ks.len() > 0 {
            law_adjusted_shares_sum(ks, e.total_cents as int);
        }
        let a = m[i].shares;
        assert(a.len() == ks.len());
        assert forall|j: int| 0 <= j < a.len() implies has_participant(nps, #[trigger] a[j].participant_id) by {
            assert(a[j].participant_id == ks[j].participant_id);
            assert(has_participant(ps, ks[j].participant_id));
        }
        assert(has_participant(ps, m[i].payer_id));
    }
    let kept = keep(m, stays);
    lemma_keep_props(m, stays);
    assert forall|k: int| 0 <= k < kept.len() implies fits(#[trigger] kept[k]) by {
        assert(m.contains(kept[k]));
        let j = choose|j: int| 0 <= j < m.len() && m[j] == kept[k];
        assert(stays(m[j]));
        assert(fits(m[j]));
    }
    assert(staying_expenses(st) == kept);
    lemma_stable_sort_all(kept, |a: ExpenseView, b: ExpenseView| expense_time_order(a, b), fits);
    let ss_keep = keep(st.settlements, |x: SettlementView| settlement_stays(x, ps));
    lemma_keep_props(st.settlements, |x: SettlementView| settlement_stays(x, ps));
    let sfits = |x: SettlementView| settlement_fits(x, nps);
    let ss = staying_settlements(st);
    assert forall|k: int| 0 <= k < ss.len() implies sfits(#[trigger] ss[k]) by {
        assert(settlement_stays(ss_keep[k], ps));
        assert(ss[k].from_id == ss_keep[k].from_id);
        assert(ss[k].to_id == ss_keep[k].to_id);
    }
    lemma_stable_sort_all(ss, |a: SettlementView, b: SettlementView| settlement_time_order(a, b), sfits);
    assert forall|i: int| 0 <= i < r.expenses.len() implies expense_fits(#[trigger] r.expenses[i], nps) by {
        assert(fits(r.expenses[i]));
    }
    assert forall|k: int| 0 <= k < r.settlements.len() implies settlement_fits(#[trigger] r.settlements[k], nps) by {
        assert(sfits(r.settlements[k]));
    }
    assert forall|i: int, j: int|
        0 <= i < r.expenses.len() && 0 <= j < r.expenses[i].shares.len() implies has_participant(
        nps,
        #[trigger] r.expenses[i].shares[j].participant_id,
    ) by {
        assert(expense_fits(r.expenses[i], nps));
    }
    assert forall|k: int| 0 <= k < r.settlements.len() implies has_participant(nps, #[trigger] r.settlements[k].from_id) by {
        assert(settlement_fits(r.settlements[k], nps));
    }
    assert forall|k: int| 0 <= k < r.settlements.len() implies has_participant(nps, #[trigger] r.settlements[k].to_id) by {
        assert(settlement_fits(r.settlements[k], nps));
    }
    assert forall|i: int| 0 <= i < r.expenses.len() implies has_participant(nps, #[trigger] r.expenses[i].payer_id) by {
        assert(expense_fits(r.expenses[i], nps));
    }
}


/// Deleting the expense that was just recorded under a fresh identifier
/// gives back the expenses as they were.
pub proof fn law_delete_undoes_add_expense(es: Seq<ExpenseView>, e: ExpenseView)
    requires
        forall|k: int| 0 <= k < es.len() ==> #[trigger] es[k].id != e.id,
    ensures
        expenses_without(es.push(e), e.id) == es,
{
    assert(es.push(e).drop_last() =~= es);
    crate::state::lemma_expenses_without_none(es, e.id);
}

/// Deleting the settlement that was just recorded under a fresh identifier
/// gives back the settlements as they were.
pub proof fn law_delete_undoes_add_settlement(ss: Seq<SettlementView>, x: SettlementView)
    requires
        forall|k: int| 0 <= k < ss.len() ==> #[trigger] ss[k].id != x.id,
    ensures
        settlements_without(ss.push(x), x.id) == ss,
{
    assert(ss.push(x).drop_last() =~= ss);
    crate::state::lemma_settlements_without_none(ss, x.id);
}


proof fn lemma_keep_everything<T>(s: Seq<T>, p: spec_fn(T) -> bool)
    requires
        forall|k: int| 0 <= k < s.len() ==> p(#[trigger] s[k]),
    ensures
        keep(s, p) == s,
    decreases s.len(),
{
    if s.len() > 0 {
        let t = s.drop_last();
        assert forall|k: int| 0 <= k < t.len() implies p(#[trigger] t[k]) by {
            assert(t[k] == s[k]);
        }
        lemma_keep_everything(t, p);
        assert(p(s[s.len() - 1]));
        assert(t.push(s.last()) =~= s);
    }
}

/// An expense as the clean-up leaves it: trimmed title, normal currency code.
pub open spec fn clean_form(e: ExpenseView) -> bool {
    trimmed(e.title) == e.title && currency_code(e.currency) == e.currency
}

/// Cleaning up twice gives what cleaning up once gave (and the second
/// clean-up can always take its rounding differences).
pub proof fn law_cleanup_is_idempotent(st: StateView)
    requires
        import_adjust_fits(st),
    ensures
        import_adjust_fits(normalized_state(st)),
        normalized_state(normalized_state(st)) == normalized_state(st),
{
    let n = normalized_state(st);
    law_cleanup_yields_known_balanced_records(st);
    let ps = st.participants;
    let nps = n.participants;
    let name_le = |a: ParticipantView, b: ParticipantView| name_order(a, b);
    assert(total_preorder(name_le)) by {
        assert forall|a: ParticipantView, b: ParticipantView| #[trigger] name_le(a, b) || name_le(b, a) by {
            lemma_lex_le_total(lowercase_of(a.name), lowercase_of(b.name));
        }
        assert forall|a: ParticipantView, b: ParticipantView, c: ParticipantView|
            #[trigger] name_le(a, b) && #[trigger] name_le(b, c) implies name_le(a, c) by {
            lemma_lex_le_trans(lowercase_of(a.name), lowercase_of(b.name), lowercase_of(c.name));
        }
    }
    lemma_stable_sort_sorted(ps, name_le);
    lemma_stable_sort_of_sorted(nps, name_le);

    // expenses
    let clean = |e: ExpenseView| cleaned_expense(e, ps);
    let stays = |e: ExpenseView| expense_stays(e, ps);
    let m = st.expenses.map_values(clean);
    let good = |e: ExpenseView| expense_stays(e, ps) && clean_form(e);
    lemma_keep_props(m, stays);
    let kept = keep(m, stays);
    assert forall|k: int| 0 <= k < kept.len() implies good(#[trigger] kept[k]) by {
        assert(m.contains(kept[k]));
        let j = choose|j: int| 0 <= j < m.len() && m[j] == kept[k];
        lemma_trimmed_idempotent(st.expenses[j].title);
        law_currency_code_idempotent(st.expenses[j].currency);
    }
    let time_le = |a: ExpenseView, b: ExpenseView| expense_time_order(a, b);
    lemma_stable_sort_all(kept, time_le, good);
    assert(staying_expenses(st) == kept);
    let es = n.expenses;
    let clean2 = |e: ExpenseView| cleaned_expense(e, nps);
    let stays2 = |e: ExpenseView| expense_stays(e, nps);
    assert forall|i: int| 0 <= i < es.len() implies #[trigger] clean2(es[i]) == es[i] && stays2(es[i]) by {
        let e = es[i];
        assert(good(e));
        assert(share_sum(e.shares) == e.total_cents);
        assert forall|j: int| 0 <= j < e.shares.len() implies (|sh: Share| has_participant(nps, sh.participant_id))(
            #[trigger] e.shares[j],
        ) by {
            assert(has_participant(nps, n.expenses[i].shares[j].participant_id));
        }
        lemma_keep_everything(e.shares, |sh: Share| has_participant(nps, sh.participant_id));
        assert(known_shares(e.shares, nps) == e.shares);
        assert(adjusted(e.shares, e.total_cents as int) == e.shares);
        assert(has_participant(nps, n.expenses[i].payer_id));
    }
    let m2 = es.map_values(clean2);
    assert(m2 =~= es);
    assert forall|k: int| 0 <= k < es.len() implies stays2(#[trigger] es[k]) by {
        assert(clean2(es[k]) == es[k] && stays2(es[k]));
    }
    lemma_keep_everything(es, stays2);
    assert(staying_expenses(n) == es);
    assert(total_preorder(time_le));
    lemma_stable_sort_sorted(kept, time_le);
    lemma_stable_sort_of_sorted(es, time_le);

    // settlements
    let sstays = |x: SettlementView| settlement_stays(x, ps);
    let snorm = |x: SettlementView| SettlementView { currency: currency_code(x.currency), ..x };
    let sk = keep(st.settlements, sstays);
    lemma_keep_props(st.settlements, sstays);
    let ss0 = staying_settlements(st);
    let sgood = |x: SettlementView| settlement_stays(x, ps) && currency_code(x.currency) == x.currency;
    assert forall|k: int| 0 <= k < ss0.len() implies sgood(#[trigger] ss0[k]) by {
        assert(ss0[k] == snorm(sk[k]));
        assert(sstays(sk[k]));
        law_currency_code_idempotent(sk[k].currency);
    }
    let stime = |a: SettlementView, b: SettlementView| settlement_time_order(a, b);
    lemma_stable_sort_all(ss0, stime, sgood);
    let ss = n.settlements;
    let sstays2 = |x: SettlementView| settlement_stays(x, nps);
    assert forall|k: int| 0 <= k < ss.len() implies sstays2(#[trigger] ss[k]) by {
        assert(sgood(ss[k]));
        assert(has_participant(nps, n.settlements[k].from_id));
        assert(has_participant(nps, n.settlements[k].to_id));
    }
    lemma_keep_everything(ss, sstays2);
    assert forall|k: int| 0 <= k < ss.len() implies #[trigger] snorm(ss[k]) == ss[k] by {
        assert(sgood(ss[k]));
    }
    assert(staying_settlements(n) =~= ss);
    assert(total_preorder(stime));
    lemma_stable_sort_sorted(ss0, stime);
    lemma_stable_sort_of_sorted(ss, stime);

    // the currency to offer next
    let l = n.last_currency;
    assert(currency_code(l) == l) by {
        if trimmed(st.last_currency).len() == 0 {
            if es.len() > 0 {
                assert(good(es[es.len() - 1]));
            } else if ss.len() > 0 {
                assert(sgood(ss[ss.len() - 1]));
            } else {
                assert(l == currency_code(Seq::<char>::empty()));
                law_currency_code_idempotent(Seq::<char>::empty());
            }
        } else {
            law_currency_code_idempotent(st.last_currency);
        }
    }
    lemma_currency_code_not_blank(l);

    // the second clean-up can take its rounding differences
    assert forall|i: int| 0 <= i < es.len() implies adjust_fits(
        known_shares(#[trigger] es[i].shares, nps),
        es[i].total_cents as int,
    ) by {
        assert(clean2(es[i]) == es[i]);
        let e = es[i];
        assert forall|j: int| 0 <= j < e.shares.len() implies (|sh: Share| has_participant(nps, sh.participant_id))(
            #[trigger] e.shares[j],
        ) by {
            assert(has_participant(nps, n.expenses[i].shares[j].participant_id));
        }
        lemma_keep_everything(e.shares, |sh: Share| has_participant(nps, sh.participant_id));
        assert(share_sum(e.shares) == e.total_cents);
    }
    assert(normalized_state(n) =~~= n);
}

} // verus!
