//! The records of the ledger and their mathematical views.
use crate::text::lit;
use vstd::prelude::*;

verus! {

/// The tolerance, in cents, between an expense total and the sum of its shares.
pub const MONEY_TOLERANCE_CENTS: i64 = 1;

/// The kind of an expense, shown as an icon.
#[derive(Clone, Copy, Debug, PartialEq, Eq, Hash, Structural)]
pub enum ExpenseIcon {
    Food,
    Transport,
    Home,
    Drinks,
    Shopping,
    Entertainment,
    Other,
}

/// The display name of an icon.
pub open spec fn icon_label(icon: ExpenseIcon) -> Seq<char> {
    match icon {
        ExpenseIcon::Food => "Food"@,
        ExpenseIcon::Transport => "Transport"@,
        ExpenseIcon::Home => "Home"@,
        ExpenseIcon::Drinks => "Drinks"@,
        ExpenseIcon::Shopping => "Shopping"@,
        ExpenseIcon::Entertainment => "Entertainment"@,
        ExpenseIcon::Other => "Other"@,
    }
}

impl ExpenseIcon {
    /// Every icon, in display order.
    pub fn all() -> (r: [ExpenseIcon; 7])
        ensures
            r@ == seq![
                ExpenseIcon::Food,
                ExpenseIcon::Transport,
                ExpenseIcon::Home,
                ExpenseIcon::Drinks,
                ExpenseIcon::Shopping,
                ExpenseIcon::Entertainment,
                ExpenseIcon::Other,
            ],
    {
        let r = [
            ExpenseIcon::Food,
            ExpenseIcon::Transport,
            ExpenseIcon::Home,
            ExpenseIcon::Drinks,
            ExpenseIcon::Shopping,
            ExpenseIcon::Entertainment,
            ExpenseIcon::Other,
        ];
        assert(r@ =~= seq![
            ExpenseIcon::Food,
            ExpenseIcon::Transport,
            ExpenseIcon::Home,
            ExpenseIcon::Drinks,
            ExpenseIcon::Shopping,
            ExpenseIcon::Entertainment,
            ExpenseIcon::Other,
        ]);
        r
    }

    pub fn label(self) -> (r: &'static str)
        ensures
            r@ == icon_label(self),
    {
        match self {
            ExpenseIcon::Food => "Food",
            ExpenseIcon::Transport => "Transport",
            ExpenseIcon::Home => "Home",
            ExpenseIcon::Drinks => "Drinks",
            ExpenseIcon::Shopping => "Shopping",
            ExpenseIcon::Entertainment => "Entertainment",
            ExpenseIcon::Other => "Other",
        }
    }
}

#[derive(Clone, Debug, PartialEq)]
pub struct Participant {
    pub id: u128,
    pub name: String,
    pub is_active: bool,
}

pub struct ParticipantView {
    pub id: u128,
    pub name: Seq<char>,
    pub is_active: bool,
}

impl View for Participant {
    type V = ParticipantView;

    open spec fn view(&self) -> ParticipantView {
        ParticipantView { id: self.id, name: self.name@, is_active: self.is_active }
    }
}

impl Participant {
    /// A copy of this participant.
    pub fn duplicate(&self) -> (r: Participant)
        ensures
            r@ == self@,
    {
        Participant { id: self.id, name: self.name.clone(), is_active: self.is_active }
    }
}

#[derive(Clone, Copy, Debug, PartialEq, Eq, Structural)]
pub struct Share {
    pub participant_id: u128,
    pub amount_cents: i64,
}

#[derive(Clone, Debug, PartialEq)]
pub struct Expense {
    pub id: u128,
    pub title: String,
    pub icon: ExpenseIcon,
    pub payer_id: u128,
    pub total_cents: i64,
    pub currency: String,
    pub created_at: i64,
    pub shares: Vec<Share>,
}

pub struct ExpenseView {
    pub id: u128,
    pub title: Seq<char>,
    pub icon: ExpenseIcon,
    pub payer_id: u128,
    pub total_cents: i64,
    pub currency: Seq<char>,
    pub created_at: i64,
    pub shares: Seq<Share>,
}

impl View for Expense {
    type V = ExpenseView;

    open spec fn view(&self) -> ExpenseView {
        ExpenseView {
            id: self.id,
            title: self.title@,
            icon: self.icon,
            payer_id: self.payer_id,
            total_cents: self.total_cents,
            currency: self.currency@,
            created_at: self.created_at,
            shares: self.shares@,
        }
    }
}

/// A copy of a list of shares.
pub fn copy_shares(v: &Vec<Share>) -> (r: Vec<Share>)
    ensures
        r@ == v@,
{
    let mut r: Vec<Share> = Vec::new();
    for i in 0..v.len()
        invariant
            r@ == v@.take(i as int),
    {
        r.push(v[i]);
        assert(r@ =~= v@.take(i + 1));
    }
    assert(r@ =~= v@);
    r
}

impl Expense {
    /// A copy of this expense.
    pub fn duplicate(&self) -> (r: Expense)
        ensures
            r@ == self@,
    {
        Expense {
            id: self.id,
            title: self.title.clone(),
            icon: self.icon,
            payer_id: self.payer_id,
            total_cents: self.total_cents,
            currency: self.currency.clone(),
            created_at: self.created_at,
            shares: copy_shares(&self.shares),
        }
    }
}

#[derive(Clone, Debug, PartialEq)]
pub struct Settlement {
    pub id: u128,
    pub from_id: u128,
    pub to_id: u128,
    pub amount_cents: i64,
    pub currency: String,
    pub created_at: i64,
    pub note: String,
}

pub struct SettlementView {
    pub id: u128,
    pub from_id: u128,
    pub to_id: u128,
    pub amount_cents: i64,
    pub currency: Seq<char>,
    pub created_at: i64,
    pub note: Seq<char>,
}

impl View for Settlement {
    type V = SettlementView;

    open spec fn view(&self) -> SettlementView {
        SettlementView {
            id: self.id,
            from_id: self.from_id,
            to_id: self.to_id,
            amount_cents: self.amount_cents,
            currency: self.currency@,
            created_at: self.created_at,
            note: self.note@,
        }
    }
}

impl Settlement {
    /// A copy of this settlement.
    pub fn duplicate(&self) -> (r: Settlement)
        ensures
            r@ == self@,
    {
        Settlement {
            id: self.id,
            from_id: self.from_id,
            to_id: self.to_id,
            amount_cents: self.amount_cents,
            currency: self.currency.clone(),
            created_at: self.created_at,
            note: self.note.clone(),
        }
    }
}

/// Everything the application keeps.
#[derive(Clone, Debug, PartialEq)]
pub struct AppState {
    pub participants: Vec<Participant>,
    pub expenses: Vec<Expense>,
    pub settlements: Vec<Settlement>,
    pub last_currency: String,
}

pub struct StateView {
    pub participants: Seq<ParticipantView>,
    pub expenses: Seq<ExpenseView>,
    pub settlements: Seq<SettlementView>,
    pub last_currency: Seq<char>,
}

pub open spec fn participants_view(v: Seq<Participant>) -> Seq<ParticipantView> {
    v.map_values(|p: Participant| p@)
}

pub open spec fn expenses_view(v: Seq<Expense>) -> Seq<ExpenseView> {
    v.map_values(|e: Expense| e@)
}

pub open spec fn settlements_view(v: Seq<Settlement>) -> Seq<SettlementView> {
    v.map_values(|s: Settlement| s@)
}

impl View for AppState {
    type V = StateView;

    open spec fn view(&self) -> StateView {
        StateView {
            participants: participants_view(self.participants@),
            expenses: expenses_view(self.expenses@),
            settlements: settlements_view(self.settlements@),
            last_currency: self.last_currency@,
        }
    }
}

impl Default for AppState {
    /// No records, and the default currency.
    fn default() -> (r: AppState)
        ensures
            r@.participants.len() == 0,
            r@.expenses.len() == 0,
            r@.settlements.len() == 0,
            r@.last_currency == "USD"@,
    {
        AppState {
            participants: Vec::new(),
            expenses: Vec::new(),
            settlements: Vec::new(),
            last_currency: lit("USD"),
        }
    }
}

/// What a new or edited expense is made of.
#[derive(Clone, Debug, PartialEq)]
pub struct NewExpenseInput {
    pub title: String,
    pub icon: ExpenseIcon,
    pub payer_id: u128,
    pub total_cents: i64,
    pub currency: String,
    pub created_at: Option<i64>,
    pub shares: Vec<Share>,
}

/// What a new or edited settlement is made of.
#[derive(Clone, Debug, PartialEq)]
pub struct NewSettlementInput {
    pub from_id: u128,
    pub to_id: u128,
    pub amount_cents: i64,
    pub currency: String,
    pub created_at: Option<i64>,
    pub note: String,
}

/// A participant with their net balance in one currency.
#[derive(Clone, Debug, PartialEq)]
pub struct ParticipantBalance {
    pub participant: Participant,
    pub net_cents: i64,
}

/// A proposed transfer that settles debts.
#[derive(Clone, Debug, PartialEq)]
pub struct SettlementSuggestion {
    pub from_id: u128,
    pub to_id: u128,
    pub amount_cents: i64,
    pub currency: String,
}

/// The balances of every participant in one currency.
#[derive(Clone, Debug, PartialEq)]
pub struct CurrencyBalanceGroup {
    pub currency: String,
    pub balances: Vec<ParticipantBalance>,
}

} // verus!
