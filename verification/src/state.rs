//! The ledger's operations: participants, expenses and settlements, with the
//! checks that each change must pass.
use crate::ids::{is_v4_id, new_id};
use crate::model::{
    AppState, Expense, ExpenseView, NewExpenseInput, NewSettlementInput, Participant,
    ParticipantView, Settlement, SettlementView, Share, StateView, expenses_view,
    participants_view, settlements_view,
};
use crate::money::{currency_code, normalize_currency, normalize_expense_title};
use crate::text::{int_text, int_to_string, is_blank, lit, trim, trimmed};
use vstd::prelude::*;

verus! {

/// The position of the first element of `s` that satisfies `p`.
pub open spec fn first_index<T>(s: Seq<T>, p: spec_fn(T) -> bool) -> Option<int>
    decreases s.len(),
{
    if s.len() == 0 {
        None
    } else if p(s[0]) {
        Some(0)
    } else {
        match first_index(s.drop_first(), p) {
            Some(i) => Some(i + 1),
            None => None,
        }
    }
}

pub proof fn lemma_first_index_at<T>(s: Seq<T>, p: spec_fn(T) -> bool, i: int)
    requires
        0 <= i <= s.len(),
        forall|k: int| 0 <= k < i ==> !p(#[trigger] s[k]),
        i == s.len() || p(s[i]),
    ensures
        first_index(s, p) == if i < s.len() { Some(i) } else { None::<int> },
    decreases i,
{
    if i > 0 {
        let t = s.drop_first();
        assert forall|k: int| 0 <= k < i - 1 implies !p(#[trigger] t[k]) by {
            assert(t[k] == s[k + 1]);
        }
        if i < s.len() {
            assert(t[i - 1] == s[i]);
        }
        assert(!p(s[0]));
        lemma_first_index_at(t, p, i - 1);
    }
}

pub proof fn lemma_first_index_props<T>(s: Seq<T>, p: spec_fn(T) -> bool)
    ensures
        match first_index(s, p) {
            Some(i) => 0 <= i < s.len() && p(s[i]) && forall|k: int| 0 <= k < i ==> !p(#[trigger] s[k]),
            None => forall|k: int| 0 <= k < s.len() ==> !p(#[trigger] s[k]),
        },
    decreases s.len(),
{
    if s.len() > 0 {
        let t = s.drop_first();
        lemma_first_index_props(t, p);
        match first_index(t, p) {
            Some(i) => {
                assert forall|k: int| 0 <= k < i + 1 && !p(s[0]) implies !p(#[trigger] s[k]) by {
                    if k > 0 {
                        assert(s[k] == t[k - 1]);
                    }
                }
            },
            None => {
                assert forall|k: int| 0 <= k < s.len() && !p(s[0]) implies !p(#[trigger] s[k]) by {
                    if k > 0 {
                        assert(s[k] == t[k - 1]);
                    }
                }
            },
        }
    }
}

/// The position of the first participant with identifier `id`.
pub open spec fn participant_index(ps: Seq<ParticipantView>, id: u128) -> Option<int> {
    first_index(ps, |p: ParticipantView| p.id == id)
}

/// Whether some participant has identifier `id`.
pub open spec fn has_participant(ps: Seq<ParticipantView>, id: u128) -> bool {
    exists|i: int| 0 <= i < ps.len() && #[trigger] ps[i].id == id
}

pub proof fn lemma_participant_index(ps: Seq<ParticipantView>, id: u128)
    ensures
        participant_index(ps, id) is Some <==> has_participant(ps, id),
        participant_index(ps, id) matches Some(i) ==> 0 <= i < ps.len() && ps[i].id == id,
{
    lemma_first_index_props(ps, |p: ParticipantView| p.id == id);
}

/// The message of a failed result.
pub open spec fn err_text<T>(r: Result<T, String>) -> Seq<char> {
    match r {
        Ok(_) => Seq::empty(),
        Err(e) => e@,
    }
}

/// The position of the first participant with identifier `id`, if any.
pub(crate) fn find_participant(ps: &Vec<Participant>, id: u128) -> (r: Option<usize>)
    ensures
        r matches Some(i) ==> i < ps.len() && ps@[i as int].id == id && participant_index(
            participants_view(ps@),
            id,
        ) == Some(i as int),
        r is None ==> participant_index(participants_view(ps@), id) is None,
{
    let ghost pv = participants_view(ps@);
    let ghost p = |q: ParticipantView| q.id == id;
    for i in 0..ps.len()
        invariant
            pv == participants_view(ps@),
            p == (|q: ParticipantView| q.id == id),
            forall|k: int| 0 <= k < i ==> !p(#[trigger] pv[k]),
    {
        if ps[i].id == id {
            proof {
                lemma_first_index_at(pv, p, i as int);
            }
            return Some(i);
        }
    }
    proof {
        lemma_first_index_at(pv, p, pv.len() as int);
    }
    None
}

/// Whether a participant has identifier `id`.
pub fn participant_exists(ps: &Vec<Participant>, id: u128) -> (r: bool)
    ensures
        r == has_participant(participants_view(ps@), id),
{
    proof {
        lemma_participant_index(participants_view(ps@), id);
    }
    find_participant(ps, id).is_some()
}

impl AppState {
    /// The first participant with identifier `id`.
    pub fn participant_by_id(&self, id: u128) -> (r: Option<&Participant>)
        ensures
            match participant_index(self@.participants, id) {
                Some(i) => r == Some(&self.participants@[i]),
                None => r is None,
            },
    {
        match find_participant(&self.participants, id) {
            Some(i) => {
                Some(&self.participants[i])
            },
            None => None,
        }
    }

    /// Adds an active participant with a fresh identifier and the trimmed
    /// name; the name must not be blank.
    pub fn add_participant(&mut self, name: String) -> (r: Result<Participant, String>)
        ensures
            trimmed(name@).len() == 0 ==> err_text(r) == "Participant name is required."@
                && r is Err && final(self)@ == old(self)@,
            trimmed(name@).len() != 0 ==> (r matches Ok(p) && p.name@ == trimmed(name@)
                && p.is_active && is_v4_id(p.id) && final(self)@ == (StateView {
                participants: old(self)@.participants.push(p@),
                ..old(self)@
            })),
    {
        let id = new_id();
        self.add_participant_with_id(name, id)
    }

    /// `add_participant` with the identifier given.
    pub fn add_participant_with_id(&mut self, name: String, id: u128) -> (r: Result<
        Participant,
        String,
    >)
        ensures
            trimmed(name@).len() == 0 ==> err_text(r) == "Participant name is required."@
                && r is Err && final(self)@ == old(self)@,
            trimmed(name@).len() != 0 ==> (r matches Ok(p) && p@ == (ParticipantView {
                id,
                name: trimmed(name@),
                is_active: true,
            }) && final(self)@ == (StateView {
                participants: old(self)@.participants.push(p@),
                ..old(self)@
            })),
    {
        let clean = trim(name.as_str());
        if clean.as_str().is_empty() {
            return Err(lit("Participant name is required."));
        }
        let participant = Participant { id, name: clean, is_active: true };
        let copy = participant.duplicate();
        self.participants.push(copy);
        assert(participants_view(self.participants@) =~= participants_view(
            old(self).participants@,
        ).push(participant@));
        Ok(participant)
    }

    /// Gives the first participant with identifier `participant_id` the
    /// trimmed name; the name must not be blank.
    pub fn rename_participant(&mut self, participant_id: u128, new_name: String) -> (r: Result<
        (),
        String,
    >)
        ensures
            trimmed(new_name@).len() == 0 ==> r is Err && err_text(r)
                == "Participant name is required."@ && final(self)@ == old(self)@,
            trimmed(new_name@).len() != 0 ==> match participant_index(
                old(self)@.participants,
                participant_id,
            ) {
                None => r is Err && err_text(r) == "Participant was not found."@ && final(self)@
                    == old(self)@,
                Some(i) => r is Ok && final(self)@ == (StateView {
                    participants: old(self)@.participants.update(
                        i,
                        ParticipantView { name: trimmed(new_name@), ..old(self)@.participants[i] },
                    ),
                    ..old(self)@
                }),
            },
    {
        let clean = trim(new_name.as_str());
        if clean.as_str().is_empty() {
            return Err(lit("Participant name is required."));
        }
        match find_participant(&self.participants, participant_id) {
            None => Err(lit("Participant was not found.")),
            Some(i) => {
                let updated = Participant {
                    id: self.participants[i].id,
                    name: clean,
                    is_active: self.participants[i].is_active,
                };
                self.participants.set(i, updated);
                assert(participants_view(self.participants@) =~= participants_view(
                    old(self).participants@,
                ).update(
                    i as int,
                    ParticipantView {
                        name: trimmed(new_name@),
                        ..participants_view(old(self).participants@)[i as int]
                    },
                ));
                Ok(())
            },
        }
    }

    /// Marks the first participant with identifier `participant_id` active
    /// or inactive.
    pub fn set_participant_active(&mut self, participant_id: u128, is_active: bool) -> (r: Result<
        (),
        String,
    >)
        ensures
            match participant_index(old(self)@.participants, participant_id) {
                None => r is Err && err_text(r) == "Participant was not found."@ && final(self)@
                    == old(self)@,
                Some(i) => r is Ok && final(self)@ == (StateView {
                    participants: old(self)@.participants.update(
                        i,
                        ParticipantView { is_active, ..old(self)@.participants[i] },
                    ),
                    ..old(self)@
                }),
            },
    {
        match find_participant(&self.participants, participant_id) {
            None => Err(lit("Participant was not found.")),
            Some(i) => {
                let updated = Participant {
                    id: self.participants[i].id,
                    name: self.participants[i].name.clone(),
                    is_active,
                };
                self.participants.set(i, updated);
                assert(participants_view(self.participants@) =~= participants_view(
                    old(self).participants@,
                ).update(
                    i as int,
                    ParticipantView {
                        is_active,
                        ..participants_view(old(self).participants@)[i as int]
                    },
                ));
                Ok(())
            },
        }
    }
}


/// Whether an expense mentions participant `id`, as payer or in a share.
pub open spec fn expense_uses(e: ExpenseView, id: u128) -> bool {
    e.payer_id == id || exists|j: int| 0 <= j < e.shares.len() && #[trigger] e.shares[j].participant_id == id
}

/// Whether a settlement mentions participant `id`.
pub open spec fn settlement_uses(s: SettlementView, id: u128) -> bool {
    s.from_id == id || s.to_id == id
}

/// Whether any record mentions participant `id`.
pub open spec fn participant_used(st: StateView, id: u128) -> bool {
    (exists|i: int| 0 <= i < st.expenses.len() && expense_uses(#[trigger] st.expenses[i], id)) || (
    exists|k: int| 0 <= k < st.settlements.len() && settlement_uses(#[trigger] st.settlements[k], id))
}

impl AppState {
    /// Whether any expense or settlement mentions the participant.
    pub fn participant_is_used(&self, participant_id: u128) -> (r: bool)
        ensures
            r == participant_used(self@, participant_id),
    {
        let ghost st = self@;
        for i in 0..self.expenses.len()
            invariant
                st == self@,
                forall|k: int| 0 <= k < i ==> !expense_uses(#[trigger] st.expenses[k], participant_id),
        {
            let e = &self.expenses[i];
            assert(st.expenses[i as int] == e@);
            if e.payer_id == participant_id {
                return true;
            }
            for j in 0..e.shares.len()
                invariant
                    e.payer_id != participant_id,
                    st == self@,
                    i < st.expenses.len(),
                    st.expenses[i as int] == e@,
                    forall|t: int| 0 <= t < j ==> #[trigger] e.shares@[t].participant_id != participant_id,
            {
                if e.shares[j].participant_id == participant_id {
                    assert(e@.shares[j as int].participant_id == participant_id);
                    assert(expense_uses(e@, participant_id));
                    return true;
                }
            }
        }
        for k in 0..self.settlements.len()
            invariant
                st == self@,
                forall|q: int| 0 <= q < st.expenses.len() ==> !expense_uses(#[trigger] st.expenses[q], participant_id),
                forall|q: int| 0 <= q < k ==> !settlement_uses(#[trigger] st.settlements[q], participant_id),
        {
            let s = &self.settlements[k];
            assert(st.settlements[k as int] == s@);
            if s.from_id == participant_id || s.to_id == participant_id {
                return true;
            }
        }
        false
    }
}

/// The sum of the amounts of `s`.
pub open spec fn share_sum(s: Seq<Share>) -> int
    decreases s.len(),
{
    if s.len() == 0 {
        0
    } else {
        share_sum(s.drop_last()) + s.last().amount_cents
    }
}

/// The first problem with a list of shares, in order: a negative amount or a
/// participant that does not exist.
pub open spec fn share_problem(ps: Seq<ParticipantView>, shares: Seq<Share>) -> Option<Seq<char>>
    decreases shares.len(),
{
    if shares.len() == 0 {
        None
    } else if shares[0].amount_cents < 0 {
        Some("Shares cannot be negative."@)
    } else if !has_participant(ps, shares[0].participant_id) {
        Some("One of the selected participants was not found."@)
    } else {
        share_problem(ps, shares.drop_first())
    }
}

/// Why an expense cannot be recorded, if it cannot.
pub open spec fn expense_problem(ps: Seq<ParticipantView>, input: NewExpenseInput) -> Option<Seq<char>> {
    if !has_participant(ps, input.payer_id) {
        Some("Payer participant was not found."@)
    } else if input.total_cents <= 0 {
        Some("Total amount must be greater than zero."@)
    } else if input.shares@.len() == 0 {
        Some("Add at least one participant share."@)
    } else if share_problem(ps, input.shares@) is Some {
        share_problem(ps, input.shares@)
    } else if share_sum(input.shares@) - input.total_cents > 1 || input.total_cents - share_sum(
        input.shares@,
    ) > 1 {
        Some(
            "Shares must match total. Difference is "@ + int_text(
                share_sum(input.shares@) - input.total_cents,
            ) + " cents."@,
        )
    } else if trimmed(input.title@).len() == 0 {
        Some("Expense title is required."@)
    } else {
        None
    }
}

proof fn lemma_share_problem_skip(ps: Seq<ParticipantView>, shares: Seq<Share>, i: int)
    requires
        0 <= i < shares.len(),
        shares[i].amount_cents >= 0,
        has_participant(ps, shares[i].participant_id),
    ensures
        share_problem(ps, shares.skip(i)) == share_problem(ps, shares.skip(i + 1)),
{
    assert(shares.skip(i).drop_first() =~= shares.skip(i + 1));
}

pub proof fn lemma_share_sum_push(s: Seq<Share>, i: int)
    requires
        0 <= i < s.len(),
    ensures
        share_sum(s.take(i + 1)) == share_sum(s.take(i)) + s[i].amount_cents,
{
    assert(s.take(i + 1).drop_last() =~= s.take(i));
}

/// Checks that an expense can be recorded: a known payer, a positive total,
/// shares that are not negative, of known participants, and that sum to the
/// total within one cent, and a title.
pub fn validate_new_expense(state: &AppState, input: &NewExpenseInput) -> (r: Result<(), String>)
    ensures
        match expense_problem(state@.participants, *input) {
            Some(m) => r is Err && err_text(r) == m,
            None => r is Ok,
        },
{
    if !participant_exists(&state.participants, input.payer_id) {
        return Err(lit("Payer participant was not found."));
    }
    if input.total_cents <= 0 {
        return Err(lit("Total amount must be greater than zero."));
    }
    if input.shares.len() == 0 {
        return Err(lit("Add at least one participant share."));
    }
    let ghost ps = state@.participants;
    let ghost sh = input.shares@;
    let mut sum: i128 = 0;
    assert(sh.skip(0) =~= sh);
    assert(sh.take(0) =~= Seq::<Share>::empty());
    for i in 0..input.shares.len()
        invariant
            ps == state@.participants,
            sh == input.shares@,
            share_problem(ps, sh) == share_problem(ps, sh.skip(i as int)),
            sum == share_sum(sh.take(i as int)),
            0 <= sum <= i * 9223372036854775807,
            has_participant(ps, input.payer_id),
            input.total_cents > 0,
            sh.len() > 0,
    {
        let share = input.shares[i];
        assert(sh.skip(i as int)[0] == share);
        if share.amount_cents < 0 {
            return Err(lit("Shares cannot be negative."));
        }
        if !participant_exists(&state.participants, share.participant_id) {
            return Err(lit("One of the selected participants was not found."));
        }
        proof {
            lemma_share_problem_skip(ps, sh, i as int);
            lemma_share_sum_push(sh, i as int);
        }
        sum = sum + share.amount_cents as i128;
    }
    proof {
        assert(sh.skip(sh.len() as int) =~= Seq::<Share>::empty());
        assert(sh.take(sh.len() as int) =~= sh);
    }
    let total = input.total_cents as i128;
    let diff = sum - total;
    if diff > 1 || -diff > 1 {
        let mut msg = lit("Shares must match total. Difference is ");
        let number = int_to_string(diff);
        msg.append(number.as_str());
        msg.append(" cents.");
        return Err(msg);
    }
    if is_blank(input.title.as_str()) {
        return Err(lit("Expense title is required."));
    }
    Ok(())
}


/// Shares that split `total` among `ids` as evenly as whole cents allow: the
/// remainder goes one cent each to the first participants. Nothing when the
/// total is not positive or there is nobody to split among.
pub open spec fn equal_split_spec(total: int, ids: Seq<u128>) -> Seq<Share> {
    if total <= 0 || ids.len() == 0 {
        Seq::empty()
    } else {
        Seq::new(
            ids.len(),
            |i: int|
                Share {
                    participant_id: ids[i],
                    amount_cents: (total / ids.len() as int + if i < total % ids.len() as int {
                        1int
                    } else {
                        0int
                    }) as i64,
                },
        )
    }
}

/// Splits `total_cents` evenly among the participants.
pub fn equal_split(total_cents: i64, participant_ids: &[u128]) -> (r: Vec<Share>)
    requires
        participant_ids@.len() <= i64::MAX,
    ensures
        r@ == equal_split_spec(total_cents as int, participant_ids@),
{
    let n = participant_ids.len();
    if total_cents <= 0 || n == 0 {
        let empty: Vec<Share> = Vec::new();
        assert(empty@ =~= equal_split_spec(total_cents as int, participant_ids@));
        return empty;
    }
    let count = n as i64;
    let base_share = total_cents / count;
    let mut remainder = total_cents % count;
    let ghost r0 = remainder;
    assert(base_share * count + r0 == total_cents && 0 <= r0 < count && base_share >= 0) by (nonlinear_arith)
        requires
            base_share == total_cents / count,
            r0 == total_cents % count,
            count > 0,
            total_cents > 0,
    ;
    assert(r0 > 0 ==> base_share < i64::MAX) by (nonlinear_arith)
        requires
            base_share * count + r0 == total_cents,
            count > 0,
            base_share >= 0,
            total_cents <= i64::MAX,
    ;
    let mut shares: Vec<Share> = Vec::new();
    for i in 0..n
        invariant
            n == participant_ids@.len(),
            count == n,
            total_cents > 0,
            count > 0,
            base_share == total_cents / count,
            r0 == total_cents % count,
            0 <= r0 < count,
            r0 > 0 ==> base_share < i64::MAX,
            remainder == if r0 > i { r0 - i } else { 0 },
            shares@.len() == i,
            forall|k: int|
                0 <= k < i ==> #[trigger] shares@[k] == equal_split_spec(
                    total_cents as int,
                    participant_ids@,
                )[k],
    {
        let mut amount = base_share;
        if remainder > 0 {
            amount += 1;
            remainder -= 1;
        }
        shares.push(Share { participant_id: participant_ids[i], amount_cents: amount });
    }
    assert(shares@ =~= equal_split_spec(total_cents as int, participant_ids@));
    shares
}

proof fn lemma_split_sum(total: int, ids: Seq<u128>, k: int)
    requires
        total > 0,
        total <= i64::MAX,
        ids.len() > 0,
        0 <= k <= ids.len(),
    ensures
        share_sum(equal_split_spec(total, ids).take(k)) == k * (total / ids.len() as int) + if k
            < total % ids.len() as int {
            k
        } else {
            total % ids.len() as int
        },
    decreases k,
{
    let s = equal_split_spec(total, ids);
    let n = ids.len() as int;
    if k == 0 {
        assert(s.take(0) =~= Seq::<Share>::empty());
    } else {
        lemma_split_sum(total, ids, k - 1);
        assert(s.take(k).drop_last() =~= s.take(k - 1));
        assert(k * (total / n) == (k - 1) * (total / n) + total / n) by (nonlinear_arith);
        assert(0 <= total % n < n) by (nonlinear_arith)
            requires
                n > 0,
        ;
        assert(total / n * n + total % n == total) by (nonlinear_arith)
            requires
                n > 0,
        ;
        assert(0 <= total / n) by (nonlinear_arith)
            requires
                n > 0,
                total > 0,
        ;
        assert(total / n <= total) by (nonlinear_arith)
            requires
                n > 0,
                total > 0,
        ;
        let q = total / n;
        let r = total % n;
        assert(r > 0 ==> q + 1 <= total) by (nonlinear_arith)
            requires
                n > 0,
                total > 0,
                q * n + r == total,
                0 <= q,
                0 <= r < n,
        ;
        let v = total / n + if k - 1 < total % n { 1int } else { 0int };
        assert(s[k - 1].amount_cents == v);
    }
}

/// The cents of an even split add up to the total.
pub proof fn law_equal_split_sums_to_total(total: int, ids: Seq<u128>)
    requires
        0 < total <= i64::MAX,
        ids.len() > 0,
    ensures
        share_sum(equal_split_spec(total, ids)) == total,
        equal_split_spec(total, ids).len() == ids.len(),
{
    let n = ids.len() as int;
    lemma_split_sum(total, ids, n);
    assert(equal_split_spec(total, ids).take(n) =~= equal_split_spec(total, ids));
    assert(total / n * n + total % n == total) by (nonlinear_arith)
        requires
            n > 0,
    ;
    assert(total % n < n) by (nonlinear_arith)
        requires
            n > 0,
    ;
    assert(n * (total / n) == total / n * n) by (nonlinear_arith);
}


/// The position of the last share with the greatest amount (the one that
/// `max_by_key` picks).
pub open spec fn last_max_index(s: Seq<Share>) -> int
    decreases s.len(),
{
    if s.len() <= 1 {
        0
    } else {
        let m = last_max_index(s.drop_last());
        if s.last().amount_cents >= s[m].amount_cents {
            s.len() - 1
        } else {
            m
        }
    }
}

/// Whether moving the rounding difference onto the largest share keeps that
/// share within `i64`.
pub open spec fn adjust_fits(s: Seq<Share>, total: int) -> bool {
    let delta = total - share_sum(s);
    let m = last_max_index(s);
    s.len() == 0 || delta == 0 || (i64::MIN <= s[m].amount_cents + delta && s[m].amount_cents
        + delta <= i64::MAX)
}

/// The shares with the difference between `total` and their sum added to the
/// last of the largest shares, so that they sum to `total`.
pub open spec fn adjusted(s: Seq<Share>, total: int) -> Seq<Share> {
    let delta = total - share_sum(s);
    let m = last_max_index(s);
    if s.len() == 0 || delta == 0 {
        s
    } else {
        s.update(m, Share { amount_cents: (s[m].amount_cents + delta) as i64, ..s[m] })
    }
}

pub proof fn lemma_last_max_index(s: Seq<Share>)
    requires
        s.len() > 0,
    ensures
        0 <= last_max_index(s) < s.len(),
        forall|k: int| 0 <= k < s.len() ==> #[trigger] s[k].amount_cents <= s[last_max_index(s)].amount_cents,
    decreases s.len(),
{
    if s.len() > 1 {
        let t = s.drop_last();
        lemma_last_max_index(t);
        assert forall|k: int| 0 <= k < s.len() implies #[trigger] s[k].amount_cents <= s[last_max_index(
            s,
        )].amount_cents by {
            if k < s.len() - 1 {
                assert(s[k] == t[k]);
            }
        }
    }
}

pub proof fn lemma_share_sum_update(s: Seq<Share>, i: int, x: Share)
    requires
        0 <= i < s.len(),
    ensures
        share_sum(s.update(i, x)) == share_sum(s) - s[i].amount_cents + x.amount_cents,
    decreases s.len(),
{
    let u = s.update(i, x);
    if i == s.len() - 1 {
        assert(u.drop_last() =~= s.drop_last());
    } else {
        lemma_share_sum_update(s.drop_last(), i, x);
        assert(u.drop_last() =~= s.drop_last().update(i, x));
    }
}

pub proof fn lemma_nonneg_shares(s: Seq<Share>)
    requires
        forall|k: int| 0 <= k < s.len() ==> #[trigger] s[k].amount_cents >= 0,
    ensures
        share_sum(s) >= 0,
        forall|k: int| 0 <= k < s.len() ==> #[trigger] s[k].amount_cents <= share_sum(s),
        (forall|k: int| 0 <= k < s.len() ==> #[trigger] s[k].amount_cents <= 0) ==> share_sum(s) == 0,
    decreases s.len(),
{
    if s.len() > 0 {
        let t = s.drop_last();
        assert forall|k: int| 0 <= k < t.len() implies #[trigger] t[k].amount_cents >= 0 by {
            assert(t[k] == s[k]);
        }
        lemma_nonneg_shares(t);
        assert forall|k: int| 0 <= k < s.len() implies #[trigger] s[k].amount_cents <= share_sum(s) by {
            if k < s.len() - 1 {
                assert(s[k] == t[k]);
            }
        }
        if forall|k: int| 0 <= k < s.len() ==> #[trigger] s[k].amount_cents <= 0 {
            assert forall|k: int| 0 <= k < t.len() implies #[trigger] t[k].amount_cents <= 0 by {
                assert(t[k] == s[k]);
            }
            assert(s[s.len() - 1].amount_cents <= 0);
        }
    }
}

/// The adjusted shares sum to the total.
pub proof fn law_adjusted_shares_sum(s: Seq<Share>, total: int)
    requires
        s.len() > 0,
        adjust_fits(s, total),
    ensures
        share_sum(adjusted(s, total)) == total,
        adjusted(s, total).len() == s.len(),
{
    let m = last_max_index(s);
    lemma_last_max_index(s);
    let delta = total - share_sum(s);
    if delta != 0 {
        lemma_share_sum_update(s, m, Share { amount_cents: (s[m].amount_cents + delta) as i64, ..s[m] });
    }
}

/// Shares of a valid expense can always take the rounding difference.
pub proof fn lemma_valid_shares_adjust(s: Seq<Share>, total: int)
    requires
        s.len() > 0,
        0 < total <= i64::MAX,
        forall|k: int| 0 <= k < s.len() ==> #[trigger] s[k].amount_cents >= 0,
        share_sum(s) - total <= 1,
        total - share_sum(s) <= 1,
    ensures
        adjust_fits(s, total),
        forall|k: int| 0 <= k < adjusted(s, total).len() ==> #[trigger] adjusted(s, total)[k].amount_cents >= 0,
{
    lemma_nonneg_shares(s);
    lemma_last_max_index(s);
    let m = last_max_index(s);
    if total - share_sum(s) == -1 {
        if s[m].amount_cents <= 0 {
            assert(forall|k: int| 0 <= k < s.len() ==> #[trigger] s[k].amount_cents <= 0);
        }
    }
}

/// Moves the rounding difference between `total_cents` and the sum of the
/// shares onto the last of the largest shares.
pub fn adjust_shares_to_total(shares: &mut Vec<Share>, total_cents: i64)
    requires
        adjust_fits(old(shares)@, total_cents as int),
    ensures
        final(shares)@ == adjusted(old(shares)@, total_cents as int),
{
    let n = shares.len();
    if n == 0 {
        return;
    }
    let ghost s = shares@;
    let mut sum: i128 = 0;
    let mut m: usize = 0;
    assert(s.take(0) =~= Seq::<Share>::empty());
    for i in 0..n
        invariant
            n == shares.len(),
            s == shares@,
            n > 0,
            sum == share_sum(s.take(i as int)),
            -(i as int) * 9223372036854775808 <= sum <= (i as int) * 9223372036854775807,
            i > 0 ==> m == last_max_index(s.take(i as int)),
            i == 0 ==> m == 0,
            m < n,
    {
        let a = shares[i].amount_cents;
        proof {
            lemma_share_sum_push(s, i as int);
            let t = s.take(i + 1);
            assert(t.drop_last() =~= s.take(i as int));
            if i > 0 {
                lemma_last_max_index(s.take(i as int));
                assert(s.take(i as int)[m as int] == s[m as int]);
            }
        }
        if i == 0 || a >= shares[m].amount_cents {
            m = i;
        }
        sum = sum + a as i128;
    }
    assert(s.take(n as int) =~= s);
    let delta = total_cents as i128 - sum;
    if delta == 0 {
        return;
    }
    let target = shares[m];
    let updated = Share {
        participant_id: target.participant_id,
        amount_cents: (target.amount_cents as i128 + delta) as i64,
    };
    shares.set(m, updated);
}

/// The expense that an accepted input records.
pub open spec fn recorded_expense(input: NewExpenseInput, id: u128, created_at: i64) -> ExpenseView {
    ExpenseView {
        id,
        title: trimmed(input.title@),
        icon: input.icon,
        payer_id: input.payer_id,
        total_cents: input.total_cents,
        currency: currency_code(input.currency@),
        created_at,
        shares: adjusted(input.shares@, input.total_cents as int),
    }
}

/// The time of an input, or `now` when it has none.
pub open spec fn time_or(t: Option<i64>, now: i64) -> i64 {
    match t {
        Some(v) => v,
        None => now,
    }
}

pub proof fn lemma_valid_expense(ps: Seq<ParticipantView>, input: NewExpenseInput)
    requires
        expense_problem(ps, input) is None,
    ensures
        adjust_fits(input.shares@, input.total_cents as int),
        input.shares@.len() > 0,
        input.total_cents > 0,
        forall|k: int| 0 <= k < input.shares@.len() ==> #[trigger] input.shares@[k].amount_cents >= 0,
{
    lemma_share_problem_none(ps, input.shares@);
    lemma_valid_shares_adjust(input.shares@, input.total_cents as int);
}

pub proof fn lemma_share_problem_none(ps: Seq<ParticipantView>, shares: Seq<Share>)
    requires
        share_problem(ps, shares) is None,
    ensures
        forall|k: int| 0 <= k < shares.len() ==> #[trigger] shares[k].amount_cents >= 0 && has_participant(
            ps,
            shares[k].participant_id,
        ),
    decreases shares.len(),
{
    if shares.len() > 0 {
        let t = shares.drop_first();
        lemma_share_problem_none(ps, t);
        assert forall|k: int| 0 <= k < shares.len() implies #[trigger] shares[k].amount_cents >= 0
            && has_participant(ps, shares[k].participant_id) by {
            if k > 0 {
                assert(shares[k] == t[k - 1]);
            }
        }
    }
}

/// Builds the expense that an accepted input records.
fn build_expense(input: NewExpenseInput, id: u128, created_at: i64, Ghost(ps): Ghost<
    Seq<ParticipantView>,
>) -> (e: Expense)
    requires
        expense_problem(ps, input) is None,
    ensures
        e@ == recorded_expense(input, id, created_at),
{
    proof {
        lemma_valid_expense(ps, input);
    }
    let title = normalize_expense_title(input.title.as_str());
    let currency = normalize_currency(input.currency.as_str());
    let mut shares = input.shares;
    adjust_shares_to_total(&mut shares, input.total_cents);
    Expense {
        id,
        title,
        icon: input.icon,
        payer_id: input.payer_id,
        total_cents: input.total_cents,
        currency,
        created_at,
        shares,
    }
}

/// The position of the first expense with identifier `id`.
pub open spec fn expense_index(es: Seq<ExpenseView>, id: u128) -> Option<int> {
    first_index(es, |e: ExpenseView| e.id == id)
}

fn find_expense(es: &Vec<Expense>, id: u128) -> (r: Option<usize>)
    ensures
        r matches Some(i) ==> i < es.len() && expense_index(expenses_view(es@), id) == Some(
            i as int,
        ),
        r is None ==> expense_index(expenses_view(es@), id) is None,
{
    let ghost ev = expenses_view(es@);
    let ghost p = |q: ExpenseView| q.id == id;
    for i in 0..es.len()
        invariant
            ev == expenses_view(es@),
            p == (|q: ExpenseView| q.id == id),
            forall|k: int| 0 <= k < i ==> !p(#[trigger] ev[k]),
    {
        if es[i].id == id {
            proof {
                lemma_first_index_at(ev, p, i as int);
            }
            return Some(i);
        }
    }
    proof {
        lemma_first_index_at(ev, p, ev.len() as int);
    }
    None
}

/// `s` without the expenses whose identifier is `id`.
pub open spec fn expenses_without(s: Seq<ExpenseView>, id: u128) -> Seq<ExpenseView>
    decreases s.len(),
{
    if s.len() == 0 {
        s
    } else if s.last().id == id {
        expenses_without(s.drop_last(), id)
    } else {
        expenses_without(s.drop_last(), id).push(s.last())
    }
}

pub proof fn lemma_expenses_without_none(s: Seq<ExpenseView>, id: u128)
    requires
        forall|k: int| 0 <= k < s.len() ==> #[trigger] s[k].id != id,
    ensures
        expenses_without(s, id) == s,
    decreases s.len(),
{
    if s.len() > 0 {
        let t = s.drop_last();
        assert forall|k: int| 0 <= k < t.len() implies #[trigger] t[k].id != id by {
            assert(t[k] == s[k]);
        }
        lemma_expenses_without_none(t, id);
        assert(t.push(s.last()) =~= s);
    }
}

impl AppState {
    /// Records an expense with a fresh identifier, at the time the input
    /// gives or else at `now` (the caller's clock, in milliseconds since the
    /// Unix epoch).
    pub fn add_expense(&mut self, input: NewExpenseInput, now: i64) -> (r: Result<Expense, String>)
        ensures
            match expense_problem(old(self)@.participants, input) {
                Some(m) => r is Err && err_text(r) == m && final(self)@ == old(self)@,
                None => r matches Ok(e) && e@ == recorded_expense(input, e.id, time_or(input.created_at, now))
                    && is_v4_id(e.id) && final(self)@ == (
                StateView {
                    expenses: old(self)@.expenses.push(e@),
                    last_currency: e@.currency,
                    ..old(self)@
                }),
            },
    {
        let id = new_id();
        self.add_expense_with(input, id, now)
    }

    /// `add_expense` with the identifier and the current time given.
    pub fn add_expense_with(&mut self, input: NewExpenseInput, id: u128, now: i64) -> (r: Result<
        Expense,
        String,
    >)
        ensures
            match expense_problem(old(self)@.participants, input) {
                Some(m) => r is Err && err_text(r) == m && final(self)@ == old(self)@,
                None => r matches Ok(e) && e@ == recorded_expense(
                    input,
                    id,
                    time_or(input.created_at, now),
                ) && final(self)@ == (StateView {
                    expenses: old(self)@.expenses.push(e@),
                    last_currency: e@.currency,
                    ..old(self)@
                }),
            },
    {
        validate_new_expense(self, &input)?;
        let created_at = match input.created_at {
            Some(t) => t,
            None => now,
        };
        let expense = build_expense(input, id, created_at, Ghost(self@.participants));
        self.last_currency = expense.currency.clone();
        self.expenses.push(expense.duplicate());
        assert(expenses_view(self.expenses@) =~= expenses_view(old(self).expenses@).push(expense@));
        Ok(expense)
    }

    /// Replaces the first expense with identifier `expense_id`, keeping its
    /// identifier and, when the input has none, its time.
    pub fn update_expense(&mut self, expense_id: u128, input: NewExpenseInput) -> (r: Result<
        (),
        String,
    >)
        ensures
            match expense_problem(old(self)@.participants, input) {
                Some(m) => r is Err && err_text(r) == m && final(self)@ == old(self)@,
                None => match expense_index(old(self)@.expenses, expense_id) {
                    None => r is Err && err_text(r) == "Expense was not found."@ && final(self)@
                        == old(self)@,
                    Some(i) => r is Ok && final(self)@ == (StateView {
                        expenses: old(self)@.expenses.update(
                            i,
                            recorded_expense(
                                input,
                                old(self)@.expenses[i].id,
                                time_or(input.created_at, old(self)@.expenses[i].created_at),
                            ),
                        ),
                        last_currency: currency_code(input.currency@),
                        ..old(self)@
                    }),
                },
            },
    {
        validate_new_expense(self, &input)?;
        let index = match find_expense(&self.expenses, expense_id) {
            Some(i) => i,
            None => {
                return Err(lit("Expense was not found."));
            },
        };
        let previous_id = self.expenses[index].id;
        let created_at = match input.created_at {
            Some(t) => t,
            None => self.expenses[index].created_at,
        };
        let expense = build_expense(input, previous_id, created_at, Ghost(self@.participants));
        self.last_currency = expense.currency.clone();
        let ghost ev = expense@;
        self.expenses.set(index, expense);
        assert(expenses_view(self.expenses@) =~= expenses_view(old(self).expenses@).update(
            index as int,
            ev,
        ));
        Ok(())
    }

    /// Removes every expense with identifier `expense_id`; fails when there
    /// is none.
    pub fn delete_expense(&mut self, expense_id: u128) -> (r: Result<(), String>)
        ensures
            (exists|i: int|
                0 <= i < old(self)@.expenses.len() && #[trigger] old(self)@.expenses[i].id
                    == expense_id) ==> r is Ok && final(self)@ == (StateView {
                expenses: expenses_without(old(self)@.expenses, expense_id),
                ..old(self)@
            }),
            !(exists|i: int|
                0 <= i < old(self)@.expenses.len() && #[trigger] old(self)@.expenses[i].id
                    == expense_id) ==> r is Err && err_text(r) == "Expense was not found."@
                && final(self)@ == old(self)@,
    {
        let mut taken: Vec<Expense> = Vec::new();
        std::mem::swap(&mut taken, &mut self.expenses);
        let ghost orig = taken@;
        let mut removed = false;
        for e in it: taken.into_iter()
            invariant
                it.seq() == orig,
                orig == old(self).expenses@,
                self.participants == old(self).participants,
                self.settlements == old(self).settlements,
                self.last_currency == old(self).last_currency,
                expenses_view(self.expenses@) == expenses_without(
                    expenses_view(orig.take(it.index() as int)),
                    expense_id,
                ),
                removed == exists|k: int| 0 <= k < it.index() && #[trigger] orig[k].id == expense_id,
        {
            let ghost i = it.index();
            proof {
                let t = expenses_view(orig.take(i + 1));
                assert(t.drop_last() =~= expenses_view(orig.take(i as int)));
                assert(t.last() == e@);
            }
            if e.id == expense_id {
                removed = true;
            } else {
                let ghost before = self.expenses@;
                self.expenses.push(e);
                assert(expenses_view(self.expenses@) =~= expenses_view(before).push(
                    self.expenses@.last()@,
                ));
            }
        }
        proof {
            assert(orig.take(orig.len() as int) =~= orig);
            assert(expenses_view(orig) == old(self)@.expenses);
            if !removed {
                assert forall|k: int| 0 <= k < old(self)@.expenses.len() implies #[trigger] old(
                    self,
                )@.expenses[k].id != expense_id by {
                    assert(old(self)@.expenses[k].id == orig[k].id);
                }
                lemma_expenses_without_none(old(self)@.expenses, expense_id);
            } else {
                let k = choose|k: int| 0 <= k < orig.len() && #[trigger] orig[k].id == expense_id;
                assert(old(self)@.expenses[k].id == expense_id);
            }
        }
        if !removed {
            return Err(lit("Expense was not found."));
        }
        Ok(())
    }
}


/// Why a settlement cannot be recorded, if it cannot.
pub open spec fn settlement_problem(ps: Seq<ParticipantView>, input: NewSettlementInput) -> Option<
    Seq<char>,
> {
    if input.from_id == input.to_id {
        Some("Settlement sender and receiver must be different participants."@)
    } else if !has_participant(ps, input.from_id) || !has_participant(ps, input.to_id) {
        Some("Settlement participant was not found."@)
    } else if input.amount_cents <= 0 {
        Some("Settlement amount must be greater than zero."@)
    } else if trimmed(input.currency@).len() == 0 {
        Some("Settlement currency is required."@)
    } else {
        None
    }
}

/// Checks that a settlement can be recorded: two different known
/// participants, a positive amount and a currency.
pub fn validate_new_settlement(state: &AppState, input: &NewSettlementInput) -> (r: Result<
    (),
    String,
>)
    ensures
        match settlement_problem(state@.participants, *input) {
            Some(m) => r is Err && err_text(r) == m,
            None => r is Ok,
        },
{
    if input.from_id == input.to_id {
        return Err(lit("Settlement sender and receiver must be different participants."));
    }
    if !participant_exists(&state.participants, input.from_id) || !participant_exists(
        &state.participants,
        input.to_id,
    ) {
        return Err(lit("Settlement participant was not found."));
    }
    if input.amount_cents <= 0 {
        return Err(lit("Settlement amount must be greater than zero."));
    }
    if is_blank(input.currency.as_str()) {
        return Err(lit("Settlement currency is required."));
    }
    Ok(())
}

/// The settlement that an accepted input records.
pub open spec fn recorded_settlement(input: NewSettlementInput, id: u128, created_at: i64) -> SettlementView {
    SettlementView {
        id,
        from_id: input.from_id,
        to_id: input.to_id,
        amount_cents: input.amount_cents,
        currency: currency_code(input.currency@),
        created_at,
        note: trimmed(input.note@),
    }
}

fn build_settlement(input: NewSettlementInput, id: u128, created_at: i64) -> (s: Settlement)
    ensures
        s@ == recorded_settlement(input, id, created_at),
{
    Settlement {
        id,
        from_id: input.from_id,
        to_id: input.to_id,
        amount_cents: input.amount_cents,
        currency: normalize_currency(input.currency.as_str()),
        created_at,
        note: trim(input.note.as_str()),
    }
}

/// The position of the first settlement with identifier `id`.
pub open spec fn settlement_index(ss: Seq<SettlementView>, id: u128) -> Option<int> {
    first_index(ss, |s: SettlementView| s.id == id)
}

fn find_settlement(ss: &Vec<Settlement>, id: u128) -> (r: Option<usize>)
    ensures
        r matches Some(i) ==> i < ss.len() && settlement_index(settlements_view(ss@), id) == Some(
            i as int,
        ),
        r is None ==> settlement_index(settlements_view(ss@), id) is None,
{
    let ghost sv = settlements_view(ss@);
    let ghost p = |q: SettlementView| q.id == id;
    for i in 0..ss.len()
        invariant
            sv == settlements_view(ss@),
            p == (|q: SettlementView| q.id == id),
            forall|k: int| 0 <= k < i ==> !p(#[trigger] sv[k]),
    {
        if ss[i].id == id {
            proof {
                lemma_first_index_at(sv, p, i as int);
            }
            return Some(i);
        }
    }
    proof {
        lemma_first_index_at(sv, p, sv.len() as int);
    }
    None
}

/// `s` without the settlements whose identifier is `id`.
pub open spec fn settlements_without(s: Seq<SettlementView>, id: u128) -> Seq<SettlementView>
    decreases s.len(),
{
    if s.len() == 0 {
        s
    } else if s.last().id == id {
        settlements_without(s.drop_last(), id)
    } else {
        settlements_without(s.drop_last(), id).push(s.last())
    }
}

pub proof fn lemma_settlements_without_none(s: Seq<SettlementView>, id: u128)
    requires
        forall|k: int| 0 <= k < s.len() ==> #[trigger] s[k].id != id,
    ensures
        settlements_without(s, id) == s,
    decreases s.len(),
{
    if s.len() > 0 {
        let t = s.drop_last();
        assert forall|k: int| 0 <= k < t.len() implies #[trigger] t[k].id != id by {
            assert(t[k] == s[k]);
        }
        lemma_settlements_without_none(t, id);
        assert(t.push(s.last()) =~= s);
    }
}

impl AppState {
    /// Records a settlement with a fresh identifier, at the time the input
    /// gives or else at `now` (the caller's clock, in milliseconds since the
    /// Unix epoch).
    pub fn add_settlement(&mut self, input: NewSettlementInput, now: i64) -> (r: Result<Settlement, String>)
        ensures
            match settlement_problem(old(self)@.participants, input) {
                Some(m) => r is Err && err_text(r) == m && final(self)@ == old(self)@,
                None => r matches Ok(s) && s@ == recorded_settlement(input, s.id, time_or(input.created_at, now))
                    && is_v4_id(s.id) && final(self)@ == (
                StateView {
                    settlements: old(self)@.settlements.push(s@),
                    last_currency: s@.currency,
                    ..old(self)@
                }),
            },
    {
        let id = new_id();
        self.add_settlement_with(input, id, now)
    }

    /// `add_settlement` with the identifier and the current time given.
    pub fn add_settlement_with(&mut self, input: NewSettlementInput, id: u128, now: i64) -> (r:
        Result<Settlement, String>)
        ensures
            match settlement_problem(old(self)@.participants, input) {
                Some(m) => r is Err && err_text(r) == m && final(self)@ == old(self)@,
                None => r matches Ok(s) && s@ == recorded_settlement(
                    input,
                    id,
                    time_or(input.created_at, now),
                ) && final(self)@ == (StateView {
                    settlements: old(self)@.settlements.push(s@),
                    last_currency: s@.currency,
                    ..old(self)@
                }),
            },
    {
        validate_new_settlement(self, &input)?;
        let created_at = match input.created_at {
            Some(t) => t,
            None => now,
        };
        let settlement = build_settlement(input, id, created_at);
        self.last_currency = settlement.currency.clone();
        self.settlements.push(settlement.duplicate());
        assert(settlements_view(self.settlements@) =~= settlements_view(old(self).settlements@).push(
            settlement@,
        ));
        Ok(settlement)
    }

    /// Replaces the first settlement with identifier `settlement_id`, keeping
    /// its identifier and, when the input has none, its time.
    pub fn update_settlement(&mut self, settlement_id: u128, input: NewSettlementInput) -> (r:
        Result<(), String>)
        ensures
            match settlement_problem(old(self)@.participants, input) {
                Some(m) => r is Err && err_text(r) == m && final(self)@ == old(self)@,
                None => match settlement_index(old(self)@.settlements, settlement_id) {
                    None => r is Err && err_text(r) == "Settlement was not found."@ && final(self)@
                        == old(self)@,
                    Some(i) => r is Ok && final(self)@ == (StateView {
                        settlements: old(self)@.settlements.update(
                            i,
                            recorded_settlement(
                                input,
                                old(self)@.settlements[i].id,
                                time_or(input.created_at, old(self)@.settlements[i].created_at),
                            ),
                        ),
                        last_currency: currency_code(input.currency@),
                        ..old(self)@
                    }),
                },
            },
    {
        validate_new_settlement(self, &input)?;
        let index = match find_settlement(&self.settlements, settlement_id) {
            Some(i) => i,
            None => {
                return Err(lit("Settlement was not found."));
            },
        };
        let previous_id = self.settlements[index].id;
        let created_at = match input.created_at {
            Some(t) => t,
            None => self.settlements[index].created_at,
        };
        let settlement = build_settlement(input, previous_id, created_at);
        self.last_currency = settlement.currency.clone();
        let ghost sv = settlement@;
        self.settlements.set(index, settlement);
        assert(settlements_view(self.settlements@) =~= settlements_view(
            old(self).settlements@,
        ).update(index as int, sv));
        Ok(())
    }

    /// Removes every settlement with identifier `settlement_id`; fails when
    /// there is none.
    pub fn delete_settlement(&mut self, settlement_id: u128) -> (r: Result<(), String>)
        ensures
            (exists|i: int|
                0 <= i < old(self)@.settlements.len() && #[trigger] old(self)@.settlements[i].id
                    == settlement_id) ==> r is Ok && final(self)@ == (StateView {
                settlements: settlements_without(old(self)@.settlements, settlement_id),
                ..old(self)@
            }),
            !(exists|i: int|
                0 <= i < old(self)@.settlements.len() && #[trigger] old(self)@.settlements[i].id
                    == settlement_id) ==> r is Err && err_text(r) == "Settlement was not found."@
                && final(self)@ == old(self)@,
    {
        let mut taken: Vec<Settlement> = Vec::new();
        std::mem::swap(&mut taken, &mut self.settlements);
        let ghost orig = taken@;
        let mut removed = false;
        for s in it: taken.into_iter()
            invariant
                it.seq() == orig,
                orig == old(self).settlements@,
                self.participants == old(self).participants,
                self.expenses == old(self).expenses,
                self.last_currency == old(self).last_currency,
                settlements_view(self.settlements@) == settlements_without(
                    settlements_view(orig.take(it.index() as int)),
                    settlement_id,
                ),
                removed == exists|k: int| 0 <= k < it.index() && #[trigger] orig[k].id == settlement_id,
        {
            let ghost i = it.index();
            proof {
                let t = settlements_view(orig.take(i + 1));
                assert(t.drop_last() =~= settlements_view(orig.take(i as int)));
                assert(t.last() == s@);
            }
            if s.id == settlement_id {
                removed = true;
            } else {
                let ghost before = self.settlements@;
                self.settlements.push(s);
                assert(settlements_view(self.settlements@) =~= settlements_view(before).push(
                    self.settlements@.last()@,
                ));
            }
        }
        proof {
            assert(orig.take(orig.len() as int) =~= orig);
            assert(settlements_view(orig) == old(self)@.settlements);
            if !removed {
                assert forall|k: int| 0 <= k < old(self)@.settlements.len() implies #[trigger] old(
                    self,
                )@.settlements[k].id != settlement_id by {
                    assert(old(self)@.settlements[k].id == orig[k].id);
                }
                lemma_settlements_without_none(old(self)@.settlements, settlement_id);
            } else {
                let k = choose|k: int| 0 <= k < orig.len() && #[trigger] orig[k].id == settlement_id;
                assert(old(self)@.settlements[k].id == settlement_id);
            }
        }
        if !removed {
            return Err(lit("Settlement was not found."));
        }
        Ok(())
    }

    /// Brings every currency code into its normal form.
    pub fn with_defaults(self) -> (r: AppState)
        ensures
            r@ == (StateView {
                expenses: self@.expenses.map_values(
                    |e: ExpenseView| ExpenseView { currency: currency_code(e.currency), ..e },
                ),
                settlements: self@.settlements.map_values(
                    |s: SettlementView| SettlementView { currency: currency_code(s.currency), ..s },
                ),
                last_currency: currency_code(self@.last_currency),
                ..self@
            }),
    {
        let ghost before = self@;
        let AppState { participants, expenses, settlements, last_currency } = self;
        let mut new_expenses: Vec<Expense> = Vec::new();
        for e in it: expenses.into_iter()
            invariant
                it.seq() == expenses@,
                expenses_view(new_expenses@) == expenses_view(expenses@.take(it.index() as int)).map_values(
                    |e: ExpenseView| ExpenseView { currency: currency_code(e.currency), ..e },
                ),
        {
            let ghost i = it.index();
            let Expense { id, title, icon, payer_id, total_cents, currency, created_at, shares } = e;
            let normalized = Expense {
                id,
                title,
                icon,
                payer_id,
                total_cents,
                currency: normalize_currency(currency.as_str()),
                created_at,
                shares,
            };
            let ghost ev = e@;
            let ghost nv = normalized@;
            assert(nv == ExpenseView { currency: currency_code(ev.currency), ..ev });
            let ghost before = new_expenses@;
            new_expenses.push(normalized);
            assert(expenses_view(new_expenses@) =~= expenses_view(before).push(nv));
            assert(expenses_view(expenses@.take(i + 1)) =~= expenses_view(
                expenses@.take(i as int),
            ).push(e@));
            assert(expenses_view(new_expenses@) =~= expenses_view(expenses@.take(i + 1)).map_values(
                |e: ExpenseView| ExpenseView { currency: currency_code(e.currency), ..e },
            ));
        }
        let mut new_settlements: Vec<Settlement> = Vec::new();
        for s in it: settlements.into_iter()
            invariant
                it.seq() == settlements@,
                settlements_view(new_settlements@) == settlements_view(
                    settlements@.take(it.index() as int),
                ).map_values(
                    |s: SettlementView| SettlementView { currency: currency_code(s.currency), ..s },
                ),
        {
            let ghost i = it.index();
            let Settlement { id, from_id, to_id, amount_cents, currency, created_at, note } = s;
            let normalized = Settlement {
                id,
                from_id,
                to_id,
                amount_cents,
                currency: normalize_currency(currency.as_str()),
                created_at,
                note,
            };
            let ghost sv = s@;
            let ghost nv = normalized@;
            assert(nv == SettlementView { currency: currency_code(sv.currency), ..sv });
            let ghost before = new_settlements@;
            new_settlements.push(normalized);
            assert(settlements_view(new_settlements@) =~= settlements_view(before).push(nv));
            assert(settlements_view(settlements@.take(i + 1)) =~= settlements_view(
                settlements@.take(i as int),
            ).push(s@));
            assert(settlements_view(new_settlements@) =~= settlements_view(
                settlements@.take(i + 1),
            ).map_values(
                |s: SettlementView| SettlementView { currency: currency_code(s.currency), ..s },
            ));
        }
        assert(expenses@.take(expenses@.len() as int) =~= expenses@);
        assert(settlements@.take(settlements@.len() as int) =~= settlements@);
        let last = normalize_currency(last_currency.as_str());
        AppState {
            participants,
            expenses: new_expenses,
            settlements: new_settlements,
            last_currency: last,
        }
    }
}

} // verus!
