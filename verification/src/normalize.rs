//! Cleaning up a ledger that was read from outside: records that refer to
//! unknown participants or hold impossible amounts are dropped, and the rest
//! is brought into normal form and order.
use crate::model::{
    AppState, Expense, ExpenseView, Participant, ParticipantView, Settlement, SettlementView, Share,
    StateView, expenses_view, participants_view, settlements_view,
};
use crate::money::{currency_code, default_currency_code, normalize_currency, normalize_expense_title};
use crate::sorting::{lemma_stable_sort_map, sort_stable, stable_sort};
use crate::state::{
    adjust_fits, adjust_shares_to_total, adjusted, has_participant, participant_exists,
};
use crate::text::{chars_le, chars_of, is_blank, lex_le, lowercase_of, to_lowercase, trimmed};
use vstd::prelude::*;

verus! {

/// The elements of `s` that satisfy `p`, in order.
pub open spec fn keep<T>(s: Seq<T>, p: spec_fn(T) -> bool) -> Seq<T>
    decreases s.len(),
{
    if s.len() == 0 {
        s
    } else if p(s.last()) {
        keep(s.drop_last(), p).push(s.last())
    } else {
        keep(s.drop_last(), p)
    }
}

/// The shares of participants that exist.
pub open spec fn known_shares(shares: Seq<Share>, ps: Seq<ParticipantView>) -> Seq<Share> {
    keep(shares, |sh: Share| has_participant(ps, sh.participant_id))
}

/// An expense with a trimmed title, a normal currency code, only the shares
/// of known participants, and those adjusted to the total.
pub open spec fn cleaned_expense(e: ExpenseView, ps: Seq<ParticipantView>) -> ExpenseView {
    ExpenseView {
        title: trimmed(e.title),
        currency: currency_code(e.currency),
        shares: adjusted(known_shares(e.shares, ps), e.total_cents as int),
        ..e
    }
}

/// Whether a cleaned expense stays: a known payer, a positive total, and at
/// least one share, none of them negative.
pub open spec fn expense_stays(e: ExpenseView, ps: Seq<ParticipantView>) -> bool {
    &&& has_participant(ps, e.payer_id)
    &&& e.total_cents > 0
    &&& e.shares.len() > 0
    &&& forall|k: int| 0 <= k < e.shares.len() ==> #[trigger] e.shares[k].amount_cents >= 0
}

/// Whether a settlement stays: a positive amount between two different known
/// participants.
pub open spec fn settlement_stays(s: SettlementView, ps: Seq<ParticipantView>) -> bool {
    &&& s.amount_cents > 0
    &&& s.from_id != s.to_id
    &&& has_participant(ps, s.from_id)
    &&& has_participant(ps, s.to_id)
}

/// Participants in the order of their lower-cased names.
pub open spec fn name_order(a: ParticipantView, b: ParticipantView) -> bool {
    lex_le(lowercase_of(a.name), lowercase_of(b.name))
}

/// Expenses in the order of their times.
pub open spec fn expense_time_order(a: ExpenseView, b: ExpenseView) -> bool {
    a.created_at <= b.created_at
}

/// Settlements in the order of their times.
pub open spec fn settlement_time_order(a: SettlementView, b: SettlementView) -> bool {
    a.created_at <= b.created_at
}

/// The expenses that stay, cleaned.
pub open spec fn staying_expenses(st: StateView) -> Seq<ExpenseView> {
    keep(
        st.expenses.map_values(|e: ExpenseView| cleaned_expense(e, st.participants)),
        |e: ExpenseView| expense_stays(e, st.participants),
    )
}

/// The settlements that stay, with normal currency codes.
pub open spec fn staying_settlements(st: StateView) -> Seq<SettlementView> {
    keep(st.settlements, |s: SettlementView| settlement_stays(s, st.participants)).map_values(
        |s: SettlementView| SettlementView { currency: currency_code(s.currency), ..s },
    )
}

/// The ledger after clean-up: sorted participants, the staying records
/// sorted by time, and a currency to offer next.
pub open spec fn normalized_state(st: StateView) -> StateView {
    let es = stable_sort(staying_expenses(st), |a: ExpenseView, b: ExpenseView| expense_time_order(a, b));
    let ss = stable_sort(
        staying_settlements(st),
        |a: SettlementView, b: SettlementView| settlement_time_order(a, b),
    );
    StateView {
        participants: stable_sort(
            st.participants,
            |a: ParticipantView, b: ParticipantView| name_order(a, b),
        ),
        expenses: es,
        settlements: ss,
        last_currency: if trimmed(st.last_currency).len() == 0 {
            if es.len() > 0 {
                es.last().currency
            } else if ss.len() > 0 {
                ss.last().currency
            } else {
                "USD"@
            }
        } else {
            currency_code(st.last_currency)
        },
    }
}

/// Whether every expense's known shares can take its rounding difference.
pub open spec fn import_adjust_fits(st: StateView) -> bool {
    forall|i: int|
        0 <= i < st.expenses.len() ==> adjust_fits(
            known_shares(#[trigger] st.expenses[i].shares, st.participants),
            st.expenses[i].total_cents as int,
        )
}

/// The shares of `shares` whose participants exist.
fn retain_known(shares: Vec<Share>, ps: &Vec<Participant>) -> (r: Vec<Share>)
    ensures
        r@ == known_shares(shares@, participants_view(ps@)),
{
    let ghost pv = participants_view(ps@);
    let ghost p = |sh: Share| has_participant(pv, sh.participant_id);
    let mut out: Vec<Share> = Vec::new();
    for i in 0..shares.len()
        invariant
            pv == participants_view(ps@),
            p == (|sh: Share| has_participant(pv, sh.participant_id)),
            out@ == keep(shares@.take(i as int), p),
    {
        let sh = shares[i];
        proof {
            assert(shares@.take(i + 1).drop_last() =~= shares@.take(i as int));
        }
        if participant_exists(ps, sh.participant_id) {
            out.push(sh);
        }
    }
    assert(shares@.take(shares@.len() as int) =~= shares@);
    out
}

/// Whether no share is negative.
fn no_negative_share(shares: &Vec<Share>) -> (r: bool)
    ensures
        r == forall|k: int| 0 <= k < shares@.len() ==> #[trigger] shares@[k].amount_cents >= 0,
{
    for i in 0..shares.len()
        invariant
            forall|k: int| 0 <= k < i ==> #[trigger] shares@[k].amount_cents >= 0,
    {
        if shares[i].amount_cents < 0 {
            return false;
        }
    }
    true
}

/// Participants stably sorted by lower-cased name.
pub fn sort_by_lowercase_name(people: Vec<Participant>) -> (r: Vec<Participant>)
    ensures
        participants_view(r@) == stable_sort(
            participants_view(people@),
            |a: ParticipantView, b: ParticipantView| name_order(a, b),
        ),
{
    let name_le = |a: &Participant, b: &Participant| -> (r: bool)
        ensures
            r == lex_le(lowercase_of(a.name@), lowercase_of(b.name@)),
        {
            let la = to_lowercase(a.name.as_str());
            let lb = to_lowercase(b.name.as_str());
            chars_le(&chars_of(la.as_str()), &chars_of(lb.as_str()))
        };
    let ghost p_le = |a: Participant, b: Participant| lex_le(lowercase_of(a.name@), lowercase_of(b.name@));
    let ghost before = people@;
    let sorted = sort_stable(people, &name_le, Ghost(p_le));
    proof {
        lemma_stable_sort_map(
            before,
            |p: Participant| p@,
            p_le,
            |a: ParticipantView, b: ParticipantView| name_order(a, b),
        );
    }
    sorted
}

impl AppState {
    /// Cleans up a ledger read from outside: drops the shares of unknown
    /// participants, expenses and settlements that cannot stand, normalizes
    /// titles and currency codes, sorts participants by lower-cased name and
    /// records by time, and picks the currency to offer next.
    pub fn normalize_after_import(&mut self)
        requires
            import_adjust_fits(old(self)@),
        ensures
            final(self)@ == normalized_state(old(self)@),
    {
        let ghost st = self@;
        let ghost pv = st.participants;
        let mut taken: Vec<Expense> = Vec::new();
        std::mem::swap(&mut taken, &mut self.expenses);
        let ghost orig = taken@;
        let ghost clean = |e: ExpenseView| cleaned_expense(e, pv);
        let ghost stays = |e: ExpenseView| expense_stays(e, pv);
        let mut kept: Vec<Expense> = Vec::new();
        for e in it: taken.into_iter()
            invariant
                it.seq() == orig,
                orig == old(self).expenses@,
                st == old(self)@,
                pv == st.participants,
                pv == participants_view(self.participants@),
                clean == (|e: ExpenseView| cleaned_expense(e, pv)),
                stays == (|e: ExpenseView| expense_stays(e, pv)),
                import_adjust_fits(st),
                expenses_view(kept@) == keep(
                    expenses_view(orig.take(it.index() as int)).map_values(clean),
                    stays,
                ),
        {
            let ghost i = it.index();
            let ghost ev = e@;
            assert(st.expenses[i as int] == ev);
            let Expense { id, title, icon, payer_id, total_cents, currency, created_at, shares } = e;
            let mut known = retain_known(shares, &self.participants);
            adjust_shares_to_total(&mut known, total_cents);
            let cleaned = Expense {
                id,
                title: normalize_expense_title(title.as_str()),
                icon,
                payer_id,
                total_cents,
                currency: normalize_currency(currency.as_str()),
                created_at,
                shares: known,
            };
            let ghost cv = cleaned@;
            assert(cv == clean(ev));
            proof {
                let t = expenses_view(orig.take(i + 1)).map_values(clean);
                assert(t.drop_last() =~= expenses_view(orig.take(i as int)).map_values(clean));
                assert(t.last() == cv);
            }
            let stays_now = participant_exists(&self.participants, cleaned.payer_id)
                && cleaned.total_cents > 0 && cleaned.shares.len() > 0 && no_negative_share(
                &cleaned.shares,
            );
            if stays_now {
                let ghost before = kept@;
                kept.push(cleaned);
                assert(expenses_view(kept@) =~= expenses_view(before).push(cv));
            }
        }
        proof {
            assert(orig.take(orig.len() as int) =~= orig);
            assert(expenses_view(orig).map_values(clean) =~= st.expenses.map_values(
                |e: ExpenseView| cleaned_expense(e, st.participants),
            ));
        }
        let mut taken_s: Vec<Settlement> = Vec::new();
        std::mem::swap(&mut taken_s, &mut self.settlements);
        let ghost orig_s = taken_s@;
        let ghost s_stays = |s: SettlementView| settlement_stays(s, pv);
        let ghost s_norm = |s: SettlementView| SettlementView { currency: currency_code(s.currency), ..s };
        let mut kept_s: Vec<Settlement> = Vec::new();
        for s in it: taken_s.into_iter()
            invariant
                it.seq() == orig_s,
                orig_s == old(self).settlements@,
                pv == participants_view(self.participants@),
                s_stays == (|s: SettlementView| settlement_stays(s, pv)),
                s_norm == (|s: SettlementView| SettlementView { currency: currency_code(s.currency), ..s }),
                settlements_view(kept_s@) == keep(
                    settlements_view(orig_s.take(it.index() as int)),
                    s_stays,
                ).map_values(s_norm),
        {
            let ghost i = it.index();
            let ghost sv = s@;
            proof {
                let t = settlements_view(orig_s.take(i + 1));
                assert(t.drop_last() =~= settlements_view(orig_s.take(i as int)));
                assert(t.last() == sv);
            }
            if s.amount_cents > 0 && s.from_id != s.to_id && participant_exists(
                &self.participants,
                s.from_id,
            ) && participant_exists(&self.participants, s.to_id) {
                let Settlement { id, from_id, to_id, amount_cents, currency, created_at, note } = s;
                let normalized = Settlement {
                    id,
                    from_id,
                    to_id,
                    amount_cents,
                    currency: normalize_currency(currency.as_str()),
                    created_at,
                    note,
                };
                let ghost before = kept_s@;
                let ghost nv = normalized@;
                assert(nv == s_norm(sv));
                kept_s.push(normalized);
                assert(settlements_view(kept_s@) =~= settlements_view(before).push(nv));
                assert(keep(settlements_view(orig_s.take(i + 1)), s_stays) =~= keep(
                    settlements_view(orig_s.take(i as int)),
                    s_stays,
                ).push(sv));
                assert(settlements_view(kept_s@) =~= keep(
                    settlements_view(orig_s.take(i + 1)),
                    s_stays,
                ).map_values(s_norm));
            }
        }
        proof {
            assert(orig_s.take(orig_s.len() as int) =~= orig_s);
        }
        let mut people: Vec<Participant> = Vec::new();
        std::mem::swap(&mut people, &mut self.participants);
        let sorted_people = sort_by_lowercase_name(people);
        self.participants = sorted_people;
        let time_le = |a: &Expense, b: &Expense| -> (r: bool)
            ensures
                r == (a.created_at <= b.created_at),
            { a.created_at <= b.created_at };
        let ghost e_le = |a: Expense, b: Expense| a.created_at <= b.created_at;
        let ghost kept_before = kept@;
        let sorted_expenses = sort_stable(kept, &time_le, Ghost(e_le));
        proof {
            lemma_stable_sort_map(
                kept_before,
                |e: Expense| e@,
                e_le,
                |a: ExpenseView, b: ExpenseView| expense_time_order(a, b),
            );
        }
        self.expenses = sorted_expenses;
        let time_le_s = |a: &Settlement, b: &Settlement| -> (r: bool)
            ensures
                r == (a.created_at <= b.created_at),
            { a.created_at <= b.created_at };
        let ghost s_le = |a: Settlement, b: Settlement| a.created_at <= b.created_at;
        let ghost kept_s_before = kept_s@;
        let sorted_settlements = sort_stable(kept_s, &time_le_s, Ghost(s_le));
        proof {
            lemma_stable_sort_map(
                kept_s_before,
                |s: Settlement| s@,
                s_le,
                |a: SettlementView, b: SettlementView| settlement_time_order(a, b),
            );
        }
        self.settlements = sorted_settlements;
        let ghost target = normalized_state(st);
        assert(expenses_view(self.expenses@) == target.expenses);
        assert(settlements_view(self.settlements@) == target.settlements);
        assert(participants_view(self.participants@) == target.participants);
        if is_blank(self.last_currency.as_str()) {
            let ne = self.expenses.len();
            let ns = self.settlements.len();
            if ne > 0 {
                self.last_currency = self.expenses[ne - 1].currency.clone();
            } else if ns > 0 {
                self.last_currency = self.settlements[ns - 1].currency.clone();
            } else {
                self.last_currency = default_currency_code();
            }
        } else {
            self.last_currency = normalize_currency(self.last_currency.as_str());
        }
    }
}

} // verus!
