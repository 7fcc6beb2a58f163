//! The drafts behind the expense and settlement forms: how they start, for a
//! new record or for editing one, what the form's helpers do to them, and
//! the input they hand to the ledger.
use crate::model::{
    AppState, Expense, ExpenseIcon, ExpenseView, NewExpenseInput, NewSettlementInput, Participant,
    ParticipantView, Settlement, SettlementView, Share, StateView, participants_view,
};
use crate::money::{
    cents_text, format_cents, lemma_money_parse_range, money_parse, normalize_currency,
    parse_money_to_cents,
};
use crate::normalize::keep;
use crate::screens::{name_of, participant_name};
use crate::state::{equal_split, equal_split_spec, first_index};
use crate::text::{is_blank, lit, trimmed};
use vstd::prelude::*;

verus! {

/// One participant's line in the expense form.
#[derive(Clone, Debug)]
pub struct ShareDraft {
    pub participant_id: u128,
    pub selected: bool,
    pub amount_input: String,
}

pub struct ShareDraftView {
    pub participant_id: u128,
    pub selected: bool,
    pub amount_input: Seq<char>,
}

impl View for ShareDraft {
    type V = ShareDraftView;

    open spec fn view(&self) -> ShareDraftView {
        ShareDraftView {
            participant_id: self.participant_id,
            selected: self.selected,
            amount_input: self.amount_input@,
        }
    }
}

/// What the expense form holds.
#[derive(Clone, Debug)]
pub struct ExpenseDraft {
    pub title: String,
    pub total_input: String,
    pub currency: String,
    pub payer_id: Option<u128>,
    pub icon: ExpenseIcon,
    pub one_owes_id: Option<u128>,
    pub shares: Vec<ShareDraft>,
}

pub struct ExpenseDraftView {
    pub title: Seq<char>,
    pub total_input: Seq<char>,
    pub currency: Seq<char>,
    pub payer_id: Option<u128>,
    pub icon: ExpenseIcon,
    pub one_owes_id: Option<u128>,
    pub shares: Seq<ShareDraftView>,
}

pub open spec fn share_drafts_view(v: Seq<ShareDraft>) -> Seq<ShareDraftView> {
    v.map_values(|s: ShareDraft| s@)
}

impl View for ExpenseDraft {
    type V = ExpenseDraftView;

    open spec fn view(&self) -> ExpenseDraftView {
        ExpenseDraftView {
            title: self.title@,
            total_input: self.total_input@,
            currency: self.currency@,
            payer_id: self.payer_id,
            icon: self.icon,
            one_owes_id: self.one_owes_id,
            shares: share_drafts_view(self.shares@),
        }
    }
}

/// The identifiers of the active participants, in order.
pub open spec fn active_ids(ps: Seq<ParticipantView>) -> Seq<u128> {
    keep(ps, |p: ParticipantView| p.is_active).map_values(|p: ParticipantView| p.id)
}

/// The first identifier of `ids` that is not `x`.
pub open spec fn first_other(ids: Seq<u128>, x: Option<u128>) -> Option<u128> {
    match first_index(ids, |i: u128| Some(i) != x) {
        Some(k) => Some(ids[k]),
        None => None,
    }
}

/// The line of a participant in a new expense: included, with `0.00`.
pub open spec fn fresh_share(id: u128) -> ShareDraftView {
    ShareDraftView { participant_id: id, selected: true, amount_input: "0.00"@ }
}

/// The form for a new expense: every active participant included, the
/// first of them paying, the next one proposed as owing all, and the last
/// currency used.
pub open spec fn new_expense_draft(st: StateView) -> ExpenseDraftView {
    let ids = active_ids(st.participants);
    let payer = if ids.len() > 0 {
        Some(ids[0])
    } else {
        None
    };
    ExpenseDraftView {
        title: Seq::empty(),
        total_input: Seq::empty(),
        currency: st.last_currency,
        payer_id: payer,
        icon: ExpenseIcon::Other,
        one_owes_id: first_other(ids, payer),
        shares: ids.map_values(|id: u128| fresh_share(id)),
    }
}

/// The amount of the last share of participant `id`, if any.
pub open spec fn last_amount(shares: Seq<Share>, id: u128) -> Option<i64>
    decreases shares.len(),
{
    if shares.len() == 0 {
        None
    } else if shares.last().participant_id == id {
        Some(shares.last().amount_cents)
    } else {
        last_amount(shares.drop_last(), id)
    }
}

/// Whether the expense involves participant `id`, as payer or in a share.
pub open spec fn involved(e: ExpenseView, id: u128) -> bool {
    id == e.payer_id || exists|k: int| 0 <= k < e.shares.len() && #[trigger] e.shares[k].participant_id == id
}

/// The participants listed when editing an expense: the active ones and
/// those it involves.
pub open spec fn edit_listed(ps: Seq<ParticipantView>, e: ExpenseView) -> Seq<ParticipantView> {
    keep(ps, |p: ParticipantView| p.is_active || involved(e, p.id))
}

/// The line of a participant when editing an expense.
pub open spec fn edit_share(e: ExpenseView, p: ParticipantView) -> ShareDraftView {
    ShareDraftView {
        participant_id: p.id,
        selected: involved(e, p.id),
        amount_input: cents_text(
            match last_amount(e.shares, p.id) {
                Some(a) => a as int,
                None => 0,
            },
        ),
    }
}

/// The form for editing an expense: its values, a line for each listed
/// participant, and as the one owing all the first share that is not the
/// payer's, else the first listed participant who is not the payer.
pub open spec fn edit_expense_draft(st: StateView, e: ExpenseView) -> ExpenseDraftView {
    let listed = edit_listed(st.participants, e);
    let rows = listed.map_values(|p: ParticipantView| edit_share(e, p));
    ExpenseDraftView {
        title: e.title,
        total_input: cents_text(e.total_cents as int),
        currency: e.currency,
        payer_id: Some(e.payer_id),
        icon: e.icon,
        one_owes_id: match first_other(e.shares.map_values(|s: Share| s.participant_id), Some(e.payer_id)) {
            Some(x) => Some(x),
            None => first_other(listed.map_values(|p: ParticipantView| p.id), Some(e.payer_id)),
        },
        shares: rows,
    }
}

/// The first identifier of `ids` that is not `x`.
fn first_other_exec(ids: &Vec<u128>, x: Option<u128>) -> (r: Option<u128>)
    ensures
        r == first_other(ids@, x),
{
    let ghost p = |i: u128| Some(i) != x;
    for k in 0..ids.len()
        invariant
            p == (|i: u128| Some(i) != x),
            forall|j: int| 0 <= j < k ==> !p(#[trigger] ids@[j]),
    {
        if Some(ids[k]) != x {
            proof {
                crate::state::lemma_first_index_at(ids@, p, k as int);
            }
            return Some(ids[k]);
        }
    }
    proof {
        crate::state::lemma_first_index_at(ids@, p, ids@.len() as int);
    }
    None
}

impl ExpenseDraft {
    /// The form for a new expense.
    pub fn from_state(state: &AppState) -> (r: ExpenseDraft)
        ensures
            r@ == new_expense_draft(state@),
    {
        let ghost ps = state@.participants;
        let ghost act = |p: ParticipantView| p.is_active;
        let mut ids: Vec<u128> = Vec::new();
        let mut rows: Vec<ShareDraft> = Vec::new();
        for i in 0..state.participants.len()
            invariant
                ps == state@.participants,
                act == (|p: ParticipantView| p.is_active),
                ids@ == keep(ps.take(i as int), act).map_values(|p: ParticipantView| p.id),
                share_drafts_view(rows@) == ids@.map_values(|id: u128| fresh_share(id)),
        {
            let p = &state.participants[i];
            proof {
                assert(ps.take(i + 1).drop_last() =~= ps.take(i as int));
                assert(ps.take(i + 1).last() == p@);
            }
            if p.is_active {
                let ghost before = rows@;
                ids.push(p.id);
                let row = ShareDraft { participant_id: p.id, selected: true, amount_input: lit("0.00") };
                rows.push(row);
                proof {
                    assert(keep(ps.take(i + 1), act) == keep(ps.take(i as int), act).push(p@));
                    assert(ids@ =~= keep(ps.take(i + 1), act).map_values(|p: ParticipantView| p.id));
                    assert(share_drafts_view(rows@) =~= share_drafts_view(before).push(row@));
                    assert(share_drafts_view(rows@) =~= ids@.map_values(|id: u128| fresh_share(id)));
                }
            }
        }
        assert(ps.take(ps.len() as int) =~= ps);
        let payer = if ids.len() > 0 {
            Some(ids[0])
        } else {
            None
        };
        let one_owes = first_other_exec(&ids, payer);
        ExpenseDraft {
            title: String::new(),
            total_input: String::new(),
            currency: state.last_currency.clone(),
            payer_id: payer,
            icon: ExpenseIcon::Other,
            one_owes_id: one_owes,
            shares: rows,
        }
    }
}


/// Whether no amount of the expense is `i64::MIN`, which cannot be written
/// as text.
pub open spec fn amounts_printable(e: ExpenseView) -> bool {
    &&& e.total_cents > i64::MIN
    &&& forall|k: int| 0 <= k < e.shares.len() ==> #[trigger] e.shares[k].amount_cents > i64::MIN
}

/// The amount of the last share of participant `id`, if any.
fn last_amount_exec(shares: &Vec<Share>, id: u128) -> (r: Option<i64>)
    ensures
        r == last_amount(shares@, id),
        r matches Some(a) ==> exists|k: int| 0 <= k < shares@.len() && shares@[k].amount_cents == a,
{
    let mut found: Option<i64> = None;
    for i in 0..shares.len()
        invariant
            found == last_amount(shares@.take(i as int), id),
            found matches Some(a) ==> exists|k: int| 0 <= k < i && shares@[k].amount_cents == a,
    {
        proof {
            assert(shares@.take(i + 1).drop_last() =~= shares@.take(i as int));
            assert(shares@.take(i + 1).last() == shares@[i as int]);
        }
        if shares[i].participant_id == id {
            found = Some(shares[i].amount_cents);
        }
    }
    assert(shares@.take(shares@.len() as int) =~= shares@);
    found
}

/// Whether the expense involves participant `id`.
fn involved_exec(e: &Expense, id: u128) -> (r: bool)
    ensures
        r == involved(e@, id),
{
    if e.payer_id == id {
        return true;
    }
    for k in 0..e.shares.len()
        invariant
            forall|j: int| 0 <= j < k ==> #[trigger] e.shares@[j].participant_id != id,
    {
        if e.shares[k].participant_id == id {
            assert(e@.shares[k as int].participant_id == id);
            return true;
        }
    }
    false
}

impl ExpenseDraft {
    /// The form for editing `expense`.
    pub fn from_expense(state: &AppState, expense: &Expense) -> (r: ExpenseDraft)
        requires
            amounts_printable(expense@),
        ensures
            r@ == edit_expense_draft(state@, expense@),
    {
        let ghost ps = state@.participants;
        let ghost e = expense@;
        let ghost listed_p = |p: ParticipantView| p.is_active || involved(e, p.id);
        let mut listed_ids: Vec<u128> = Vec::new();
        let mut rows: Vec<ShareDraft> = Vec::new();
        for i in 0..state.participants.len()
            invariant
                ps == state@.participants,
                e == expense@,
                amounts_printable(e),
                listed_p == (|p: ParticipantView| p.is_active || involved(e, p.id)),
                listed_ids@ == keep(ps.take(i as int), listed_p).map_values(|p: ParticipantView| p.id),
                share_drafts_view(rows@) == keep(ps.take(i as int), listed_p).map_values(
                    |p: ParticipantView| edit_share(e, p),
                ),
        {
            let p = &state.participants[i];
            proof {
                assert(ps.take(i + 1).drop_last() =~= ps.take(i as int));
                assert(ps.take(i + 1).last() == p@);
            }
            let included = involved_exec(expense, p.id);
            if p.is_active || included {
                let amount = match last_amount_exec(&expense.shares, p.id) {
                    Some(a) => {
                        proof {
                            let k = choose|k: int| 0 <= k < expense.shares@.len() && expense.shares@[k].amount_cents == a;
                            assert(e.shares[k].amount_cents > i64::MIN);
                        }
                        a
                    },
                    None => 0,
                };
                let row = ShareDraft {
                    participant_id: p.id,
                    selected: included,
                    amount_input: format_cents(amount),
                };
                let ghost before = rows@;
                let ghost before_ids = listed_ids@;
                rows.push(row);
                listed_ids.push(p.id);
                proof {
                    assert(row@ == edit_share(e, p@));
                    let kp = keep(ps.take(i as int), listed_p);
                    assert(keep(ps.take(i + 1), listed_p) == kp.push(p@));
                    assert(share_drafts_view(rows@) =~= share_drafts_view(before).push(row@));
                    assert(share_drafts_view(rows@) =~= kp.push(p@).map_values(|p: ParticipantView| edit_share(e, p)));
                    assert(listed_ids@ =~= kp.push(p@).map_values(|p: ParticipantView| p.id));
                }
            }
        }
        assert(ps.take(ps.len() as int) =~= ps);
        let mut share_ids: Vec<u128> = Vec::new();
        for k in 0..expense.shares.len()
            invariant
                share_ids@ == expense.shares@.take(k as int).map_values(|s: Share| s.participant_id),
        {
            share_ids.push(expense.shares[k].participant_id);
            assert(share_ids@ =~= expense.shares@.take(k + 1).map_values(|s: Share| s.participant_id));
        }
        assert(expense.shares@.take(expense.shares@.len() as int) =~= expense.shares@);
        let one_owes = match first_other_exec(&share_ids, Some(expense.payer_id)) {
            Some(x) => Some(x),
            None => first_other_exec(&listed_ids, Some(expense.payer_id)),
        };
        ExpenseDraft {
            title: expense.title.clone(),
            total_input: format_cents(expense.total_cents),
            currency: expense.currency.clone(),
            payer_id: Some(expense.payer_id),
            icon: expense.icon,
            one_owes_id: one_owes,
            shares: rows,
        }
    }
}


/// The values of an expense input.
pub struct ExpenseInputView {
    pub title: Seq<char>,
    pub icon: ExpenseIcon,
    pub payer_id: u128,
    pub total_cents: i64,
    pub currency: Seq<char>,
    pub created_at: Option<i64>,
    pub shares: Seq<Share>,
}

pub open spec fn expense_input_view(i: NewExpenseInput) -> ExpenseInputView {
    ExpenseInputView {
        title: i.title@,
        icon: i.icon,
        payer_id: i.payer_id,
        total_cents: i.total_cents,
        currency: i.currency@,
        created_at: i.created_at,
        shares: i.shares@,
    }
}

/// The shares of the included lines, in order: a blank amount counts as
/// zero; an amount that cannot be read stops with a message naming the
/// participant.
pub open spec fn picked_shares(rows: Seq<ShareDraftView>, ps: Seq<ParticipantView>) -> Result<
    Seq<Share>,
    Seq<char>,
>
    decreases rows.len(),
{
    if rows.len() == 0 {
        Ok(Seq::empty())
    } else {
        match picked_shares(rows.drop_last(), ps) {
            Err(e) => Err(e),
            Ok(acc) => {
                let r = rows.last();
                if !r.selected {
                    Ok(acc)
                } else if trimmed(r.amount_input).len() == 0 {
                    Ok(acc.push(Share { participant_id: r.participant_id, amount_cents: 0 }))
                } else {
                    match money_parse(r.amount_input) {
                        Ok(v) => Ok(acc.push(Share { participant_id: r.participant_id, amount_cents: v as i64 })),
                        Err(e) => Err("Share for "@ + name_of(ps, r.participant_id) + " is invalid: "@ + e),
                    }
                }
            },
        }
    }
}

/// The input that a submitted expense form gives, or the message that
/// explains why it gives none.
pub open spec fn draft_input(d: ExpenseDraftView, ps: Seq<ParticipantView>) -> Result<ExpenseInputView, Seq<char>> {
    match money_parse(d.total_input) {
        Err(e) => Err(e),
        Ok(total) => match picked_shares(d.shares, ps) {
            Err(e) => Err(e),
            Ok(sh) => if sh.len() == 0 {
                Err("Select at least one participant share."@)
            } else {
                match d.payer_id {
                    None => Err("Select a payer participant."@),
                    Some(payer) => Ok(
                        ExpenseInputView {
                            title: d.title,
                            icon: d.icon,
                            payer_id: payer,
                            total_cents: total as i64,
                            currency: crate::money::currency_code(d.currency),
                            created_at: None,
                            shares: sh,
                        },
                    ),
                }
            },
        },
    }
}

proof fn lemma_picked_shares_err(rows: Seq<ShareDraftView>, ps: Seq<ParticipantView>, j: int)
    requires
        0 <= j <= rows.len(),
        picked_shares(rows.take(j), ps) is Err,
    ensures
        picked_shares(rows, ps) == picked_shares(rows.take(j), ps),
    decreases rows.len() - j,
{
    if j < rows.len() {
        assert(rows.take(j + 1).drop_last() =~= rows.take(j));
        lemma_picked_shares_err(rows, ps, j + 1);
    } else {
        assert(rows.take(j) =~= rows);
    }
}

impl ExpenseDraft {
    /// The input a submitted form gives, or why it gives none.
    pub fn to_input(&self, state: &AppState) -> (r: Result<NewExpenseInput, String>)
        ensures
            match draft_input(self@, state@.participants) {
                Ok(v) => r matches Ok(i) && expense_input_view(i) == v,
                Err(e) => r matches Err(m) && m@ == e,
            },
    {
        let ghost ps = state@.participants;
        let ghost rows = self@.shares;
        let total = match parse_money_to_cents(self.total_input.as_str()) {
            Ok(v) => v,
            Err(e) => {
                return Err(e);
            },
        };
        let mut shares: Vec<Share> = Vec::new();
        assert(rows.take(0) =~= Seq::<ShareDraftView>::empty());
        for i in 0..self.shares.len()
            invariant
                ps == state@.participants,
                rows == self@.shares,
                money_parse(self@.total_input) == Ok::<int, Seq<char>>(total as int),
                picked_shares(rows.take(i as int), ps) == Ok::<Seq<Share>, Seq<char>>(shares@),
        {
            let row = &self.shares[i];
            proof {
                assert(rows.take(i + 1).drop_last() =~= rows.take(i as int));
                assert(rows.take(i + 1).last() == row@);
            }
            if row.selected {
                let amount = if is_blank(row.amount_input.as_str()) {
                    0
                } else {
                    match parse_money_to_cents(row.amount_input.as_str()) {
                        Ok(v) => v,
                        Err(e) => {
                            let mut m = lit("Share for ");
                            m.append(participant_name(state, row.participant_id).as_str());
                            m.append(" is invalid: ");
                            m.append(e.as_str());
                            assert(m@ =~= "Share for "@ + name_of(ps, row.participant_id) + " is invalid: "@ + e@);
                            proof {
                                assert(picked_shares(rows.take(i + 1), ps) == Err::<Seq<Share>, Seq<char>>(m@));
                                lemma_picked_shares_err(rows, ps, i + 1);
                            }
                            return Err(m);
                        },
                    }
                };
                shares.push(Share { participant_id: row.participant_id, amount_cents: amount });
            }
        }
        assert(rows.take(rows.len() as int) =~= rows);
        if shares.len() == 0 {
            return Err(lit("Select at least one participant share."));
        }
        let payer = match self.payer_id {
            Some(p) => p,
            None => {
                return Err(lit("Select a payer participant."));
            },
        };
        Ok(NewExpenseInput {
            title: self.title.clone(),
            icon: self.icon,
            payer_id: payer,
            total_cents: total,
            currency: normalize_currency(self.currency.as_str()),
            created_at: None,
            shares,
        })
    }
}


/// The identifiers of the lines of a draft, in order.
pub open spec fn row_ids(rows: Seq<ShareDraftView>) -> Seq<u128> {
    rows.map_values(|r: ShareDraftView| r.participant_id)
}

/// The draft after choosing `id` as payer: the one owing all stays if it is
/// another participant with a line, else it becomes the first line that is
/// not the payer's.
pub open spec fn with_payer(d: ExpenseDraftView, id: u128) -> ExpenseDraftView {
    let keeps = match d.one_owes_id {
        Some(o) => o != id && row_ids(d.shares).contains(o),
        None => false,
    };
    ExpenseDraftView {
        payer_id: Some(id),
        one_owes_id: if keeps {
            d.one_owes_id
        } else {
            first_other(row_ids(d.shares), Some(id))
        },
        ..d
    }
}

/// The lines with each one's amount replaced, where `split` gives the
/// participant a share, by the last such share written as units.
pub open spec fn with_split(rows: Seq<ShareDraftView>, split: Seq<Share>) -> Seq<ShareDraftView> {
    rows.map_values(
        |r: ShareDraftView|
            match last_amount(split, r.participant_id) {
                Some(a) => ShareDraftView { amount_input: cents_text(a as int), ..r },
                None => r,
            },
    )
}

/// The identifiers of the included lines, in order.
pub open spec fn selected_ids(rows: Seq<ShareDraftView>) -> Seq<u128> {
    row_ids(keep(rows, |r: ShareDraftView| r.selected))
}

/// The draft after "split equally": the total split evenly among the
/// included lines; or the message of a total that cannot be read.
pub open spec fn split_equally_result(d: ExpenseDraftView) -> Result<ExpenseDraftView, Seq<char>> {
    match money_parse(d.total_input) {
        Err(e) => Err(e),
        Ok(total) => Ok(
            ExpenseDraftView { shares: with_split(d.shares, equal_split_spec(total, selected_ids(d.shares))), ..d },
        ),
    }
}

/// The draft after "one person owes all": only the one owing all included,
/// with the whole total; or why that cannot be done.
pub open spec fn owes_all_result(d: ExpenseDraftView) -> Result<ExpenseDraftView, Seq<char>> {
    match money_parse(d.total_input) {
        Err(e) => Err(e),
        Ok(total) => match d.payer_id {
            None => Err("Select a payer participant."@),
            Some(payer) => match d.one_owes_id {
                None => Err("Select who owes all."@),
                Some(one) => if one == payer {
                    Err("Who owes all must be different from the payer."@)
                } else {
                    Ok(
                        ExpenseDraftView {
                            shares: d.shares.map_values(
                                |r: ShareDraftView|
                                    ShareDraftView {
                                        selected: r.participant_id == one,
                                        amount_input: if r.participant_id == one {
                                            cents_text(total)
                                        } else {
                                            "0.00"@
                                        },
                                        ..r
                                    },
                            ),
                            ..d
                        },
                    )
                },
            },
        },
    }
}

/// The position of the first line of participant `id`.
pub open spec fn row_index(rows: Seq<ShareDraftView>, id: u128) -> Option<int> {
    first_index(rows, |r: ShareDraftView| r.participant_id == id)
}

/// The outcome of an action that may fail, as a value.
pub open spec fn step_result(r: Result<(), String>, after: ExpenseDraftView) -> Result<ExpenseDraftView, Seq<char>> {
    match r {
        Ok(_) => Ok(after),
        Err(e) => Err(e@),
    }
}

fn find_row(rows: &Vec<ShareDraft>, id: u128) -> (r: Option<usize>)
    ensures
        match row_index(share_drafts_view(rows@), id) {
            Some(i) => r == Some(i as usize) && 0 <= i < rows.len(),
            None => r is None,
        },
{
    let ghost v = share_drafts_view(rows@);
    let ghost p = |r: ShareDraftView| r.participant_id == id;
    for i in 0..rows.len()
        invariant
            v == share_drafts_view(rows@),
            p == (|r: ShareDraftView| r.participant_id == id),
            forall|k: int| 0 <= k < i ==> !p(#[trigger] v[k]),
    {
        if rows[i].participant_id == id {
            proof {
                crate::state::lemma_first_index_at(v, p, i as int);
            }
            return Some(i);
        }
    }
    proof {
        crate::state::lemma_first_index_at(v, p, v.len() as int);
    }
    None
}

fn row_id_list(rows: &Vec<ShareDraft>) -> (r: Vec<u128>)
    ensures
        r@ == row_ids(share_drafts_view(rows@)),
{
    let mut out: Vec<u128> = Vec::new();
    for i in 0..rows.len()
        invariant
            out@ == row_ids(share_drafts_view(rows@.take(i as int))),
    {
        out.push(rows[i].participant_id);
        assert(out@ =~= row_ids(share_drafts_view(rows@.take(i + 1))));
    }
    assert(rows@.take(rows@.len() as int) =~= rows@);
    out
}

proof fn lemma_equal_split_amounts(total: int, ids: Seq<u128>)
    requires
        ids.len() <= i64::MAX,
        total <= i64::MAX,
    ensures
        forall|k: int|
            0 <= k < equal_split_spec(total, ids).len() ==> #[trigger] equal_split_spec(total, ids)[k].amount_cents
                >= 0,
{
    if total > 0 && ids.len() > 0 {
        let n = ids.len() as int;
        assert(0 <= total / n <= total) by (nonlinear_arith)
            requires
                total > 0,
                n > 0,
        ;
        assert(total % n < n) by (nonlinear_arith)
            requires
                n > 0,
        ;
        assert(total % n > 0 ==> total / n < i64::MAX) by (nonlinear_arith)
            requires
                total > 0,
                n > 0,
                total <= i64::MAX,
        ;
    }
}

impl ExpenseDraft {
    /// Chooses `id` as payer; keeps the one owing all if it is another
    /// participant with a line, else takes the first other line.
    pub fn set_payer(&mut self, id: u128)
        ensures
            final(self)@ == with_payer(old(self)@, id),
    {
        self.payer_id = Some(id);
        let ids = row_id_list(&self.shares);
        let keeps = match self.one_owes_id {
            Some(o) => o != id && {
                let mut found = false;
                for k in 0..ids.len()
                    invariant
                        found == exists|j: int| 0 <= j < k && ids@[j] == o,
                {
                    if ids[k] == o {
                        found = true;
                    }
                }
                found
            },
            None => false,
        };
        if !keeps {
            self.one_owes_id = first_other_exec(&ids, Some(id));
        }
    }
}


impl ExpenseDraft {
    /// "Split equally": the total split evenly among the included lines,
    /// each written into its line; a total that cannot be read leaves the
    /// draft as it was.
    pub fn split_equally(&mut self) -> (r: Result<(), String>)
        requires
            old(self).shares.len() <= i64::MAX,
        ensures
            step_result(r, final(self)@) == split_equally_result(old(self)@),
            r is Err ==> final(self)@ == old(self)@,
    {
        let total = match parse_money_to_cents(self.total_input.as_str()) {
            Ok(v) => v,
            Err(e) => {
                return Err(e);
            },
        };
        proof {
            lemma_money_parse_range(self.total_input@);
        }
        let ghost rows = self@.shares;
        let ghost sel = |r: ShareDraftView| r.selected;
        let mut ids: Vec<u128> = Vec::new();
        for i in 0..self.shares.len()
            invariant
                rows == self@.shares,
                sel == (|r: ShareDraftView| r.selected),
                ids@ == row_ids(keep(rows.take(i as int), sel)),
                ids@.len() <= i,
        {
            proof {
                assert(rows.take(i + 1).drop_last() =~= rows.take(i as int));
                assert(rows.take(i + 1).last() == self.shares@[i as int]@);
            }
            if self.shares[i].selected {
                ids.push(self.shares[i].participant_id);
                assert(ids@ =~= row_ids(keep(rows.take(i + 1), sel)));
            }
        }
        assert(rows.take(rows.len() as int) =~= rows);
        let split = equal_split(total, ids.as_slice());
        proof {
            lemma_equal_split_amounts(total as int, ids@);
        }
        let ghost old_rows = self.shares@;
        let mut new_rows: Vec<ShareDraft> = Vec::new();
        let mut taken: Vec<ShareDraft> = Vec::new();
        std::mem::swap(&mut taken, &mut self.shares);
        let ghost f = |r: ShareDraftView|
            match last_amount(split@, r.participant_id) {
                Some(a) => ShareDraftView { amount_input: cents_text(a as int), ..r },
                None => r,
            };
        for row in it: taken.into_iter()
            invariant
                it.seq() == old_rows,
                f == (|r: ShareDraftView|
                    match last_amount(split@, r.participant_id) {
                        Some(a) => ShareDraftView { amount_input: cents_text(a as int), ..r },
                        None => r,
                    }),
                forall|k: int| 0 <= k < split@.len() ==> #[trigger] split@[k].amount_cents >= 0,
                share_drafts_view(new_rows@) == share_drafts_view(old_rows.take(it.index() as int)).map_values(f),
        {
            let ghost i = it.index();
            let ghost rv = row@;
            let ShareDraft { participant_id, selected, amount_input } = row;
            let amount_input = match last_amount_exec(&split, participant_id) {
                Some(a) => format_cents(a),
                None => amount_input,
            };
            let ghost before = new_rows@;
            let nr = ShareDraft { participant_id, selected, amount_input };
            new_rows.push(nr);
            proof {
                assert(nr@ == f(rv));
                assert(share_drafts_view(old_rows.take(i + 1)) =~= share_drafts_view(old_rows.take(i as int)).push(rv));
                assert(share_drafts_view(new_rows@) =~= share_drafts_view(before).push(nr@));
            }
        }
        proof {
            assert(old_rows.take(old_rows.len() as int) =~= old_rows);
        }
        self.shares = new_rows;
        Ok(())
    }

    /// "One person owes all": only the one owing all stays included, with
    /// the whole total, the others at `0.00`; nothing changes when the total
    /// cannot be read, there is no payer or no one owing all, or they are the
    /// same participant.
    pub fn one_owes_all(&mut self) -> (r: Result<(), String>)
        ensures
            step_result(r, final(self)@) == owes_all_result(old(self)@),
            r is Err ==> final(self)@ == old(self)@,
    {
        let total = match parse_money_to_cents(self.total_input.as_str()) {
            Ok(v) => v,
            Err(e) => {
                return Err(e);
            },
        };
        proof {
            lemma_money_parse_range(self.total_input@);
        }
        let payer = match self.payer_id {
            Some(p) => p,
            None => {
                return Err(lit("Select a payer participant."));
            },
        };
        let one = match self.one_owes_id {
            Some(o) => o,
            None => {
                return Err(lit("Select who owes all."));
            },
        };
        if one == payer {
            return Err(lit("Who owes all must be different from the payer."));
        }
        let ghost old_rows = self.shares@;
        let ghost f = |r: ShareDraftView|
            ShareDraftView {
                selected: r.participant_id == one,
                amount_input: if r.participant_id == one {
                    cents_text(total as int)
                } else {
                    "0.00"@
                },
                ..r
            };
        let mut taken: Vec<ShareDraft> = Vec::new();
        std::mem::swap(&mut taken, &mut self.shares);
        let mut new_rows: Vec<ShareDraft> = Vec::new();
        for row in it: taken.into_iter()
            invariant
                it.seq() == old_rows,
                total >= 0,
                f == (|r: ShareDraftView|
                    ShareDraftView {
                        selected: r.participant_id == one,
                        amount_input: if r.participant_id == one {
                            cents_text(total as int)
                        } else {
                            "0.00"@
                        },
                        ..r
                    }),
                share_drafts_view(new_rows@) == share_drafts_view(old_rows.take(it.index() as int)).map_values(f),
        {
            let ghost i = it.index();
            let ghost rv = row@;
            let id = row.participant_id;
            let nr = ShareDraft {
                participant_id: id,
                selected: id == one,
                amount_input: if id == one {
                    format_cents(total)
                } else {
                    lit("0.00")
                },
            };
            let ghost before = new_rows@;
            new_rows.push(nr);
            proof {
                assert(nr@ == f(rv));
                assert(share_drafts_view(old_rows.take(i + 1)) =~= share_drafts_view(old_rows.take(i as int)).push(rv));
                assert(share_drafts_view(new_rows@) =~= share_drafts_view(before).push(nr@));
            }
        }
        proof {
            assert(old_rows.take(old_rows.len() as int) =~= old_rows);
        }
        self.shares = new_rows;
        Ok(())
    }

    /// Flips whether the first line of participant `id` is included.
    pub fn toggle_share(&mut self, id: u128)
        ensures
            final(self)@ == (match row_index(old(self)@.shares, id) {
                Some(k) => ExpenseDraftView {
                    shares: old(self)@.shares.update(
                        k,
                        ShareDraftView { selected: !old(self)@.shares[k].selected, ..old(self)@.shares[k] },
                    ),
                    ..old(self)@
                },
                None => old(self)@,
            }),
    {
        match find_row(&self.shares, id) {
            Some(k) => {
                let ghost before = self.shares@;
                let old_row = &self.shares[k];
                let nr = ShareDraft {
                    participant_id: old_row.participant_id,
                    selected: !old_row.selected,
                    amount_input: old_row.amount_input.clone(),
                };
                self.shares.set(k, nr);
                assert(share_drafts_view(self.shares@) =~= share_drafts_view(before).update(k as int, nr@));
            },
            None => {},
        }
    }

    /// Replaces the amount text of the first line of participant `id`.
    pub fn set_share_amount(&mut self, id: u128, text: String)
        ensures
            final(self)@ == (match row_index(old(self)@.shares, id) {
                Some(k) => ExpenseDraftView {
                    shares: old(self)@.shares.update(
                        k,
                        ShareDraftView { amount_input: text@, ..old(self)@.shares[k] },
                    ),
                    ..old(self)@
                },
                None => old(self)@,
            }),
    {
        match find_row(&self.shares, id) {
            Some(k) => {
                let ghost before = self.shares@;
                let old_row = &self.shares[k];
                let nr = ShareDraft {
                    participant_id: old_row.participant_id,
                    selected: old_row.selected,
                    amount_input: text,
                };
                self.shares.set(k, nr);
                assert(share_drafts_view(self.shares@) =~= share_drafts_view(before).update(k as int, nr@));
            },
            None => {},
        }
    }
}


/// The expense form with the record it edits, if any.
#[derive(Clone, Debug)]
pub struct ExpenseEditorState {
    pub editing_id: Option<u128>,
    pub draft: ExpenseDraft,
}

impl ExpenseEditorState {
    /// The form for a new expense.
    pub fn create(state: &AppState) -> (r: ExpenseEditorState)
        ensures
            r.editing_id is None,
            r.draft@ == new_expense_draft(state@),
    {
        ExpenseEditorState { editing_id: None, draft: ExpenseDraft::from_state(state) }
    }

    /// The form for editing `expense`.
    pub fn edit(state: &AppState, expense: &Expense) -> (r: ExpenseEditorState)
        requires
            amounts_printable(expense@),
        ensures
            r.editing_id == Some(expense.id),
            r.draft@ == edit_expense_draft(state@, expense@),
    {
        ExpenseEditorState { editing_id: Some(expense.id), draft: ExpenseDraft::from_expense(state, expense) }
    }
}

/// Whether the draft names participant `id`, as payer or in a line.
pub open spec fn referenced(d: ExpenseDraftView, id: u128) -> bool {
    d.payer_id == Some(id) || row_ids(d.shares).contains(id)
}

/// The participants the expense form offers: the active ones and those the
/// draft names.
pub open spec fn selectable(ps: Seq<ParticipantView>, d: ExpenseDraftView) -> Seq<ParticipantView> {
    keep(ps, |p: ParticipantView| p.is_active || referenced(d, p.id))
}

/// The participants of `ps` other than `payer`.
pub open spec fn others(ps: Seq<ParticipantView>, payer: Option<u128>) -> Seq<ParticipantView> {
    keep(ps, |p: ParticipantView| Some(p.id) != payer)
}

/// Copies of the participants that `accept` marks, in order.
fn copy_kept(ps: &Vec<Participant>, Ghost(pred): Ghost<spec_fn(ParticipantView) -> bool>, accept: &Vec<bool>) -> (r: Vec<Participant>)
    requires
        accept.len() == ps.len(),
        forall|i: int| 0 <= i < ps.len() ==> #[trigger] accept@[i] == pred(ps@[i]@),
    ensures
        participants_view(r@) == keep(participants_view(ps@), pred),
{
    let ghost pv = participants_view(ps@);
    let mut out: Vec<Participant> = Vec::new();
    for i in 0..ps.len()
        invariant
            pv == participants_view(ps@),
            accept.len() == ps.len(),
            forall|i: int| 0 <= i < ps.len() ==> #[trigger] accept@[i] == pred(ps@[i]@),
            participants_view(out@) == keep(pv.take(i as int), pred),
    {
        proof {
            assert(pv.take(i + 1).drop_last() =~= pv.take(i as int));
            assert(pv.take(i + 1).last() == ps@[i as int]@);
        }
        if accept[i] {
            let ghost before = out@;
            let p = ps[i].duplicate();
            out.push(p);
            assert(participants_view(out@) =~= participants_view(before).push(p@));
        }
    }
    assert(pv.take(pv.len() as int) =~= pv);
    out
}

/// Whether `ids` holds `id`.
fn holds_id(ids: &Vec<u128>, id: u128) -> (r: bool)
    ensures
        r == ids@.contains(id),
{
    for k in 0..ids.len()
        invariant
            forall|j: int| 0 <= j < k ==> ids@[j] != id,
    {
        if ids[k] == id {
            return true;
        }
    }
    false
}

/// The participants the expense form offers.
pub fn selectable_participants(state: &AppState, draft: &ExpenseDraft) -> (r: Vec<Participant>)
    ensures
        participants_view(r@) == selectable(state@.participants, draft@),
{
    let ids = row_id_list(&draft.shares);
    let ghost pred = |p: ParticipantView| p.is_active || referenced(draft@, p.id);
    let mut accept: Vec<bool> = Vec::new();
    for i in 0..state.participants.len()
        invariant
            accept.len() == i,
            ids@ == row_ids(draft@.shares),
            pred == (|p: ParticipantView| p.is_active || referenced(draft@, p.id)),
            forall|j: int| 0 <= j < i ==> #[trigger] accept@[j] == pred(state.participants@[j]@),
    {
        let p = &state.participants[i];
        let named = draft.payer_id == Some(p.id) || holds_id(&ids, p.id);
        accept.push(p.is_active || named);
    }
    copy_kept(&state.participants, Ghost(pred), &accept)
}

/// The participants other than `payer_id`, who may owe all.
pub fn one_owes_candidates(selectable: &Vec<Participant>, payer_id: Option<u128>) -> (r: Vec<Participant>)
    ensures
        participants_view(r@) == others(participants_view(selectable@), payer_id),
{
    let ghost pred = |p: ParticipantView| Some(p.id) != payer_id;
    let mut accept: Vec<bool> = Vec::new();
    for i in 0..selectable.len()
        invariant
            accept.len() == i,
            pred == (|p: ParticipantView| Some(p.id) != payer_id),
            forall|j: int| 0 <= j < i ==> #[trigger] accept@[j] == pred(selectable@[j]@),
    {
        accept.push(Some(selectable[i].id) != payer_id);
    }
    copy_kept(selectable, Ghost(pred), &accept)
}

/// The one owing all that the form shows: the draft's, when it is among the
/// candidates.
pub fn one_owes_choice(draft: &ExpenseDraft, candidates: &Vec<Participant>) -> (r: Option<u128>)
    ensures
        r == (match draft.one_owes_id {
            Some(id) => if crate::state::has_participant(participants_view(candidates@), id) {
                Some(id)
            } else {
                None
            },
            None => None,
        }),
{
    match draft.one_owes_id {
        Some(id) => if crate::state::participant_exists(candidates, id) {
            Some(id)
        } else {
            None
        },
        None => None,
    }
}


/// What the settlement form holds.
#[derive(Clone, Debug)]
pub struct SettlementDraft {
    pub from_id: Option<u128>,
    pub to_id: Option<u128>,
    pub amount_input: String,
    pub currency: String,
    pub note: String,
}

pub struct SettlementDraftView {
    pub from_id: Option<u128>,
    pub to_id: Option<u128>,
    pub amount_input: Seq<char>,
    pub currency: Seq<char>,
    pub note: Seq<char>,
}

impl View for SettlementDraft {
    type V = SettlementDraftView;

    open spec fn view(&self) -> SettlementDraftView {
        SettlementDraftView {
            from_id: self.from_id,
            to_id: self.to_id,
            amount_input: self.amount_input@,
            currency: self.currency@,
            note: self.note@,
        }
    }
}

/// The form for a new settlement: the first active participant paying the
/// second (or themself when there is only one), and the last currency used.
pub open spec fn new_settlement_draft(st: StateView) -> SettlementDraftView {
    let ids = active_ids(st.participants);
    SettlementDraftView {
        from_id: if ids.len() > 0 {
            Some(ids[0])
        } else {
            None
        },
        to_id: if ids.len() > 1 {
            Some(ids[1])
        } else if ids.len() > 0 {
            Some(ids[0])
        } else {
            None
        },
        amount_input: Seq::empty(),
        currency: st.last_currency,
        note: Seq::empty(),
    }
}

/// The form for editing a settlement.
pub open spec fn edit_settlement_draft(s: SettlementView) -> SettlementDraftView {
    SettlementDraftView {
        from_id: Some(s.from_id),
        to_id: Some(s.to_id),
        amount_input: cents_text(s.amount_cents as int),
        currency: s.currency,
        note: s.note,
    }
}

/// The values of a settlement input.
pub struct SettlementInputView {
    pub from_id: u128,
    pub to_id: u128,
    pub amount_cents: i64,
    pub currency: Seq<char>,
    pub created_at: Option<i64>,
    pub note: Seq<char>,
}

pub open spec fn settlement_input_view(i: NewSettlementInput) -> SettlementInputView {
    SettlementInputView {
        from_id: i.from_id,
        to_id: i.to_id,
        amount_cents: i.amount_cents,
        currency: i.currency@,
        created_at: i.created_at,
        note: i.note@,
    }
}

/// The input that a submitted settlement form gives, or why it gives none.
pub open spec fn settlement_draft_input(d: SettlementDraftView) -> Result<SettlementInputView, Seq<char>> {
    match d.from_id {
        None => Err("Select who paid."@),
        Some(from) => match d.to_id {
            None => Err("Select receiver participant."@),
            Some(to) => match money_parse(d.amount_input) {
                Err(e) => Err(e),
                Ok(amount) => Ok(
                    SettlementInputView {
                        from_id: from,
                        to_id: to,
                        amount_cents: amount as i64,
                        currency: crate::money::currency_code(d.currency),
                        created_at: None,
                        note: d.note,
                    },
                ),
            },
        },
    }
}

/// The first participant of `ps` other than `id`.
pub open spec fn first_other_participant(ps: Seq<ParticipantView>, id: u128) -> Option<u128> {
    first_other(ps.map_values(|p: ParticipantView| p.id), Some(id))
}

impl SettlementDraft {
    /// The form for a new settlement.
    pub fn from_state(state: &AppState) -> (r: SettlementDraft)
        ensures
            r@ == new_settlement_draft(state@),
    {
        let ghost ps = state@.participants;
        let ghost act = |p: ParticipantView| p.is_active;
        let mut ids: Vec<u128> = Vec::new();
        for i in 0..state.participants.len()
            invariant
                ps == state@.participants,
                act == (|p: ParticipantView| p.is_active),
                ids@ == keep(ps.take(i as int), act).map_values(|p: ParticipantView| p.id),
        {
            let p = &state.participants[i];
            proof {
                assert(ps.take(i + 1).drop_last() =~= ps.take(i as int));
                assert(ps.take(i + 1).last() == p@);
            }
            if p.is_active {
                ids.push(p.id);
                assert(ids@ =~= keep(ps.take(i + 1), act).map_values(|p: ParticipantView| p.id));
            }
        }
        assert(ps.take(ps.len() as int) =~= ps);
        let n = ids.len();
        SettlementDraft {
            from_id: if n > 0 {
                Some(ids[0])
            } else {
                None
            },
            to_id: if n > 1 {
                Some(ids[1])
            } else if n > 0 {
                Some(ids[0])
            } else {
                None
            },
            amount_input: String::new(),
            currency: state.last_currency.clone(),
            note: String::new(),
        }
    }

    /// The form for editing `settlement`.
    pub fn from_settlement(settlement: &Settlement) -> (r: SettlementDraft)
        requires
            settlement.amount_cents > i64::MIN,
        ensures
            r@ == edit_settlement_draft(settlement@),
    {
        SettlementDraft {
            from_id: Some(settlement.from_id),
            to_id: Some(settlement.to_id),
            amount_input: format_cents(settlement.amount_cents),
            currency: settlement.currency.clone(),
            note: settlement.note.clone(),
        }
    }

    /// The input a submitted form gives, or why it gives none.
    pub fn to_input(&self) -> (r: Result<NewSettlementInput, String>)
        ensures
            match settlement_draft_input(self@) {
                Ok(v) => r matches Ok(i) && settlement_input_view(i) == v,
                Err(e) => r matches Err(m) && m@ == e,
            },
    {
        let from = match self.from_id {
            Some(f) => f,
            None => {
                return Err(lit("Select who paid."));
            },
        };
        let to = match self.to_id {
            Some(t) => t,
            None => {
                return Err(lit("Select receiver participant."));
            },
        };
        let amount = match parse_money_to_cents(self.amount_input.as_str()) {
            Ok(v) => v,
            Err(e) => {
                return Err(e);
            },
        };
        Ok(NewSettlementInput {
            from_id: from,
            to_id: to,
            amount_cents: amount,
            currency: normalize_currency(self.currency.as_str()),
            created_at: None,
            note: self.note.clone(),
        })
    }

    /// Chooses `id` as the one who paid; the receiver becomes the first
    /// offered participant other than them.
    pub fn set_from(&mut self, id: u128, offered: &Vec<Participant>)
        ensures
            final(self)@ == (SettlementDraftView {
                from_id: Some(id),
                to_id: first_other_participant(participants_view(offered@), id),
                ..old(self)@
            }),
    {
        let mut ids: Vec<u128> = Vec::new();
        for i in 0..offered.len()
            invariant
                ids@ == participants_view(offered@).take(i as int).map_values(|p: ParticipantView| p.id),
        {
            ids.push(offered[i].id);
            assert(ids@ =~= participants_view(offered@).take(i + 1).map_values(|p: ParticipantView| p.id));
        }
        assert(participants_view(offered@).take(offered@.len() as int) =~= participants_view(offered@));
        self.to_id = first_other_exec(&ids, Some(id));
        self.from_id = Some(id);
    }
}

/// The settlement form with the record it edits, if any.
#[derive(Clone, Debug)]
pub struct SettlementEditorState {
    pub editing_id: Option<u128>,
    pub draft: SettlementDraft,
}

impl SettlementEditorState {
    /// The form for a new settlement.
    pub fn create(state: &AppState) -> (r: SettlementEditorState)
        ensures
            r.editing_id is None,
            r.draft@ == new_settlement_draft(state@),
    {
        SettlementEditorState { editing_id: None, draft: SettlementDraft::from_state(state) }
    }

    /// The form for editing `settlement`.
    pub fn edit(settlement: &Settlement) -> (r: SettlementEditorState)
        requires
            settlement.amount_cents > i64::MIN,
        ensures
            r.editing_id == Some(settlement.id),
            r.draft@ == edit_settlement_draft(settlement@),
    {
        SettlementEditorState { editing_id: Some(settlement.id), draft: SettlementDraft::from_settlement(settlement) }
    }
}

/// The participants the settlement form offers: the active ones and the two
/// the draft names.
pub open spec fn settlement_offered(ps: Seq<ParticipantView>, d: SettlementDraftView) -> Seq<ParticipantView> {
    keep(ps, |p: ParticipantView| p.is_active || d.from_id == Some(p.id) || d.to_id == Some(p.id))
}

/// The participants the settlement form offers.
pub fn settlement_participants(state: &AppState, draft: &SettlementDraft) -> (r: Vec<Participant>)
    ensures
        participants_view(r@) == settlement_offered(state@.participants, draft@),
{
    let ghost pred = |p: ParticipantView| p.is_active || draft@.from_id == Some(p.id) || draft@.to_id == Some(p.id);
    let mut accept: Vec<bool> = Vec::new();
    for i in 0..state.participants.len()
        invariant
            accept.len() == i,
            pred == (|p: ParticipantView| p.is_active || draft@.from_id == Some(p.id) || draft@.to_id == Some(p.id)),
            forall|j: int| 0 <= j < i ==> #[trigger] accept@[j] == pred(state.participants@[j]@),
    {
        let p = &state.participants[i];
        accept.push(p.is_active || draft.from_id == Some(p.id) || draft.to_id == Some(p.id));
    }
    copy_kept(&state.participants, Ghost(pred), &accept)
}

/// The receivers the settlement form offers: everyone offered but the one
/// who paid.
pub fn receiver_choices(offered: &Vec<Participant>, draft: &SettlementDraft) -> (r: Vec<Participant>)
    ensures
        participants_view(r@) == others(participants_view(offered@), draft@.from_id),
{
    one_owes_candidates(offered, draft.from_id)
}


proof fn lemma_keep_take_step<T>(s: Seq<T>, p: spec_fn(T) -> bool, i: int)
    requires
        0 <= i < s.len(),
    ensures
        keep(s.take(i + 1), p) == if p(s[i]) {
            keep(s.take(i), p).push(s[i])
        } else {
            keep(s.take(i), p)
        },
{
    assert(s.take(i + 1).drop_last() =~= s.take(i));
    assert(s.take(i + 1).last() == s[i]);
}

proof fn lemma_last_amount_unique(s: Seq<Share>, k: int)
    requires
        0 <= k < s.len(),
        forall|j: int| 0 <= j < s.len() && j != k ==> #[trigger] s[j].participant_id != s[k].participant_id,
    ensures
        last_amount(s, s[k].participant_id) == Some(s[k].amount_cents),
    decreases s.len(),
{
    if k < s.len() - 1 {
        let t = s.drop_last();
        assert(s[s.len() - 1].participant_id != s[k].participant_id);
        assert forall|j: int| 0 <= j < t.len() && j != k implies #[trigger] t[j].participant_id != t[k].participant_id by {
            assert(t[j] == s[j]);
            assert(s[j].participant_id != s[k].participant_id);
        }
        lemma_last_amount_unique(t, k);
    }
}

proof fn lemma_selected_ids_distinct(rows: Seq<ShareDraftView>, i: int)
    requires
        0 <= i <= rows.len(),
        forall|a: int, b: int| 0 <= a < b < rows.len() ==> #[trigger] rows[a].participant_id != #[trigger] rows[b].participant_id,
    ensures
        forall|a: int, b: int|
            0 <= a < b < selected_ids(rows.take(i)).len() ==> #[trigger] selected_ids(rows.take(i))[a]
                != #[trigger] selected_ids(rows.take(i))[b],
        forall|a: int|
            0 <= a < selected_ids(rows.take(i)).len() ==> exists|j: int|
                0 <= j < i && rows[j].participant_id == #[trigger] selected_ids(rows.take(i))[a],
    decreases i,
{
    if i > 0 {
        lemma_selected_ids_distinct(rows, i - 1);
        let sel = |r: ShareDraftView| r.selected;
        lemma_keep_take_step(rows, sel, i - 1);
        let prev = selected_ids(rows.take(i - 1));
        let cur = selected_ids(rows.take(i));
        if rows[i - 1].selected {
            assert(cur == prev.push(rows[i - 1].participant_id));
            assert forall|a: int, b: int| 0 <= a < b < cur.len() implies #[trigger] cur[a] != #[trigger] cur[b] by {
                if b == cur.len() - 1 {
                    assert(cur[a] == prev[a]);
                    let j = choose|j: int| 0 <= j < i - 1 && rows[j].participant_id == #[trigger] prev[a];
                    assert(rows[j].participant_id != rows[i - 1].participant_id);
                } else {
                    assert(cur[a] == prev[a]);
                    assert(cur[b] == prev[b]);
                }
            }
            assert forall|a: int| 0 <= a < cur.len() implies exists|j: int|
                0 <= j < i && rows[j].participant_id == #[trigger] cur[a] by {
                if a < prev.len() {
                    assert(cur[a] == prev[a]);
                    let j = choose|j: int| 0 <= j < i - 1 && rows[j].participant_id == #[trigger] prev[a];
                    assert(rows[j].participant_id == cur[a]);
                } else {
                    assert(rows[i - 1].participant_id == cur[a]);
                }
            }
        } else {
            assert(cur == prev);
            assert forall|a: int| 0 <= a < cur.len() implies exists|j: int|
                0 <= j < i && rows[j].participant_id == #[trigger] cur[a] by {
                let j = choose|j: int| 0 <= j < i - 1 && rows[j].participant_id == #[trigger] prev[a];
                assert(rows[j].participant_id == cur[a]);
            }
        }
    }
}

proof fn lemma_selected_prefix(rows: Seq<ShareDraftView>, i: int, j: int)
    requires
        0 <= i <= j <= rows.len(),
    ensures
        selected_ids(rows.take(i)).len() <= selected_ids(rows.take(j)).len(),
        selected_ids(rows.take(j)).take(selected_ids(rows.take(i)).len() as int) == selected_ids(rows.take(i)),
    decreases j - i,
{
    if i < j {
        lemma_selected_prefix(rows, i, j - 1);
        let sel = |r: ShareDraftView| r.selected;
        lemma_keep_take_step(rows, sel, j - 1);
        let a = selected_ids(rows.take(i));
        let b = selected_ids(rows.take(j - 1));
        let c = selected_ids(rows.take(j));
        if rows[j - 1].selected {
            assert(c == b.push(rows[j - 1].participant_id));
            assert(c.take(a.len() as int) =~= b.take(a.len() as int));
        } else {
            assert(c == b);
        }
    } else {
        assert(selected_ids(rows.take(i)).take(selected_ids(rows.take(i)).len() as int) =~= selected_ids(
            rows.take(i),
        ));
    }
}

proof fn lemma_split_amount_bounds(total: int, ids: Seq<u128>, k: int)
    requires
        0 < total <= i64::MAX,
        0 <= k < equal_split_spec(total, ids).len(),
    ensures
        0 <= equal_split_spec(total, ids)[k].amount_cents <= total,
        equal_split_spec(total, ids)[k].participant_id == ids[k],
        equal_split_spec(total, ids).len() == ids.len(),
{
    let n = ids.len() as int;
    assert(0 <= total / n <= total) by (nonlinear_arith)
        requires
            total > 0,
            n > 0,
    ;
    assert(total % n > 0 ==> total / n + 1 <= total) by (nonlinear_arith)
        requires
            total > 0,
            n > 0,
    ;
}

/// With "split equally" done on the first `i` lines, what the included
/// ones among them give when the form is submitted.
proof fn lemma_split_picked(
    rows: Seq<ShareDraftView>,
    total: int,
    ps: Seq<ParticipantView>,
    i: int,
)
    requires
        0 < total <= i64::MAX,
        0 <= i <= rows.len(),
        forall|a: int, b: int|
            0 <= a < b < selected_ids(rows).len() ==> #[trigger] selected_ids(rows)[a] != #[trigger] selected_ids(rows)[b],
    ensures
        picked_shares(with_split(rows, equal_split_spec(total, selected_ids(rows))).take(i), ps) == Ok::<
            Seq<Share>,
            Seq<char>,
        >(equal_split_spec(total, selected_ids(rows)).take(selected_ids(rows.take(i)).len() as int)),
    decreases i,
{
    let ids = selected_ids(rows);
    let split = equal_split_spec(total, ids);
    let w = with_split(rows, split);
    if i == 0 {
        assert(w.take(0) =~= Seq::<ShareDraftView>::empty());
        assert(rows.take(0) =~= Seq::<ShareDraftView>::empty());
        assert(split.take(0) =~= Seq::<Share>::empty());
    } else {
        let j = i - 1;
        lemma_split_picked(rows, total, ps, j);
        let sel = |r: ShareDraftView| r.selected;
        lemma_keep_take_step(rows, sel, j);
        assert(w.take(i).drop_last() =~= w.take(j));
        assert(w.take(i).last() == w[j]);
        let c = selected_ids(rows.take(j)).len() as int;
        if rows[j].selected {
            assert(selected_ids(rows.take(i)) == selected_ids(rows.take(j)).push(rows[j].participant_id));
            lemma_selected_prefix(rows, i, rows.len() as int);
            assert(rows.take(rows.len() as int) =~= rows);
            assert(c < ids.len());
            assert(ids[c] == selected_ids(rows.take(i))[c]);
            assert(ids[c] == rows[j].participant_id);
            lemma_split_amount_bounds(total, ids, c);
            assert forall|x: int| 0 <= x < split.len() && x != c implies #[trigger] split[x].participant_id
                != split[c].participant_id by {
                lemma_split_amount_bounds(total, ids, x);
                if x < c {
                    assert(ids[x] != ids[c]);
                } else {
                    assert(ids[c] != ids[x]);
                }
            }
            lemma_last_amount_unique(split, c);
            let a = split[c].amount_cents;
            crate::money::law_parse_formatted_cents(a as int);
            assert(w[j] == ShareDraftView { amount_input: cents_text(a as int), ..rows[j] });
            assert(trimmed(w[j].amount_input).len() != 0);
            assert(split.take(c + 1) =~= split.take(c).push(split[c]));
        } else {
            assert(selected_ids(rows.take(i)) == selected_ids(rows.take(j)));
        }
    }
}

/// After "split equally", submitting the form gives as shares exactly the
/// even split of the total among the included lines (when the total is
/// positive and no participant has two lines), so they add up to the total.
pub proof fn law_split_then_submit(d: ExpenseDraftView, ps: Seq<ParticipantView>)
    requires
        money_parse(d.total_input) matches Ok(t) && t > 0,
        forall|a: int, b: int|
            0 <= a < b < d.shares.len() ==> #[trigger] d.shares[a].participant_id != #[trigger] d.shares[b].participant_id,
    ensures
        split_equally_result(d) matches Ok(d2) && picked_shares(d2.shares, ps) == Ok::<Seq<Share>, Seq<char>>(
            equal_split_spec(money_parse(d.total_input)->Ok_0, selected_ids(d.shares)),
        ),
        selected_ids(d.shares).len() > 0 ==> crate::state::share_sum(
            equal_split_spec(money_parse(d.total_input)->Ok_0, selected_ids(d.shares)),
        ) == money_parse(d.total_input)->Ok_0,
{
    let total = money_parse(d.total_input)->Ok_0;
    lemma_money_parse_range(d.total_input);
    let rows = d.shares;
    let n = rows.len() as int;
    lemma_selected_ids_distinct(rows, n);
    assert(rows.take(n) =~= rows);
    lemma_split_picked(rows, total, ps, n);
    let ids = selected_ids(rows);
    let split = equal_split_spec(total, ids);
    let w = with_split(rows, split);
    assert(w.take(n) =~= w);
    if ids.len() > 0 {
        lemma_split_amount_bounds(total, ids, 0);
        crate::state::law_equal_split_sums_to_total(total, ids);
    }
    assert(split.len() == ids.len());
    assert(split.take(ids.len() as int) =~= split);
}


/// The lines after "one person owes all" with `one` owing `total`.
pub open spec fn owes_all_rows(rows: Seq<ShareDraftView>, one: u128, total: int) -> Seq<ShareDraftView> {
    rows.map_values(
        |r: ShareDraftView|
            ShareDraftView {
                selected: r.participant_id == one,
                amount_input: if r.participant_id == one {
                    cents_text(total)
                } else {
                    "0.00"@
                },
                ..r
            },
    )
}

proof fn lemma_owes_all_picked(rows: Seq<ShareDraftView>, one: u128, total: int, ps: Seq<ParticipantView>, i: int)
    requires
        0 <= total <= i64::MAX,
        0 <= i <= rows.len(),
        forall|a: int, b: int|
            0 <= a < b < rows.len() ==> #[trigger] rows[a].participant_id != #[trigger] rows[b].participant_id,
    ensures
        picked_shares(owes_all_rows(rows, one, total).take(i), ps) == Ok::<Seq<Share>, Seq<char>>(
            if exists|j: int| 0 <= j < i && #[trigger] rows[j].participant_id == one {
                seq![Share { participant_id: one, amount_cents: total as i64 }]
            } else {
                Seq::empty()
            },
        ),
    decreases i,
{
    let w = owes_all_rows(rows, one, total);
    if i == 0 {
        assert(w.take(0) =~= Seq::<ShareDraftView>::empty());
    } else {
        let j = i - 1;
        lemma_owes_all_picked(rows, one, total, ps, j);
        assert(w.take(i).drop_last() =~= w.take(j));
        assert(w.take(i).last() == w[j]);
        if rows[j].participant_id == one {
            crate::money::law_parse_formatted_cents(total);
            assert(trimmed(w[j].amount_input).len() != 0);
            assert(!exists|x: int| 0 <= x < j && #[trigger] rows[x].participant_id == one) by {
                if exists|x: int| 0 <= x < j && #[trigger] rows[x].participant_id == one {
                    let x = choose|x: int| 0 <= x < j && #[trigger] rows[x].participant_id == one;
                    assert(rows[x].participant_id != rows[j].participant_id);
                }
            }
            assert(Seq::<Share>::empty().push(Share { participant_id: one, amount_cents: total as i64 }) =~= seq![
                Share { participant_id: one, amount_cents: total as i64 },
            ]);
        } else {
            assert((exists|x: int| 0 <= x < i && #[trigger] rows[x].participant_id == one) == (exists|x: int|
                0 <= x < j && #[trigger] rows[x].participant_id == one));
        }
    }
}

/// After "one person owes all", submitting the form gives a single share:
/// the one owing all, with the whole total (when that participant has one
/// line and no participant has two).
pub proof fn law_owes_all_then_submit(d: ExpenseDraftView, ps: Seq<ParticipantView>)
    requires
        owes_all_result(d) is Ok,
        exists|j: int| 0 <= j < d.shares.len() && #[trigger] d.shares[j].participant_id == d.one_owes_id->Some_0,
        forall|a: int, b: int|
            0 <= a < b < d.shares.len() ==> #[trigger] d.shares[a].participant_id != #[trigger] d.shares[b].participant_id,
    ensures
        owes_all_result(d) matches Ok(d2) && picked_shares(d2.shares, ps) == Ok::<Seq<Share>, Seq<char>>(
            seq![
                Share {
                    participant_id: d.one_owes_id->Some_0,
                    amount_cents: money_parse(d.total_input)->Ok_0 as i64,
                },
            ],
        ),
{
    let total = money_parse(d.total_input)->Ok_0;
    lemma_money_parse_range(d.total_input);
    let one = d.one_owes_id->Some_0;
    let rows = d.shares;
    let n = rows.len() as int;
    lemma_owes_all_picked(rows, one, total, ps, n);
    let w = owes_all_rows(rows, one, total);
    assert(w.take(n) =~= w);
    let d2 = owes_all_result(d)->Ok_0;
    assert(d2.shares =~= w);
}

} // verus!
