//! What the screens decide: navigation labels, how records are named and
//! listed in the history, and the editing drafts of expenses and
//! settlements with the actions on them.
use crate::csv::ImportSummary;
use crate::ids::{id_prefix, uuid_text};
use crate::model::{
    AppState, Expense, ExpenseView, ParticipantView, Settlement, SettlementSuggestion,
    SettlementView, StateView, icon_label,
};
use crate::money::{money_text, format_money};
use crate::sorting::{lemma_stable_sort_map, sort_stable, stable_sort};
use crate::state::{lemma_participant_index, participant_index};
use crate::text::{
    chars_of, contains_chars, has_substring, int_text, int_to_string, lit, lowercase_of,
    string_from_chars, to_lowercase,
};
use vstd::prelude::*;

verus! {

/// The screens of the application.
#[derive(Clone, Copy, Debug, PartialEq, Eq, Structural)]
pub enum Screen {
    Dashboard,
    Participants,
    AddExpense,
    AddSettlement,
    History,
    ImportExport,
    Settings,
}

/// The label of a screen in the navigation bar.
pub open spec fn screen_label(s: Screen) -> Seq<char> {
    match s {
        Screen::Dashboard => "Home"@,
        Screen::Participants => "People"@,
        Screen::AddExpense => "Expense"@,
        Screen::AddSettlement => "Settle"@,
        Screen::History => "History"@,
        Screen::ImportExport => "CSV"@,
        Screen::Settings => "Settings"@,
    }
}

impl Screen {
    /// Every screen, in navigation order.
    pub fn all() -> (r: [Screen; 7])
        ensures
            r@ == seq![
                Screen::Dashboard,
                Screen::Participants,
                Screen::AddExpense,
                Screen::AddSettlement,
                Screen::History,
                Screen::ImportExport,
                Screen::Settings,
            ],
    {
        let r = [
            Screen::Dashboard,
            Screen::Participants,
            Screen::AddExpense,
            Screen::AddSettlement,
            Screen::History,
            Screen::ImportExport,
            Screen::Settings,
        ];
        assert(r@ =~= seq![
            Screen::Dashboard,
            Screen::Participants,
            Screen::AddExpense,
            Screen::AddSettlement,
            Screen::History,
            Screen::ImportExport,
            Screen::Settings,
        ]);
        r
    }

    /// The label of the screen in the navigation bar.
    pub fn short_label(self) -> (r: &'static str)
        ensures
            r@ == screen_label(self),
    {
        match self {
            Screen::Dashboard => "Home",
            Screen::Participants => "People",
            Screen::AddExpense => "Expense",
            Screen::AddSettlement => "Settle",
            Screen::History => "History",
            Screen::ImportExport => "CSV",
            Screen::Settings => "Settings",
        }
    }
}

/// The name shown for a participant: the first one with the identifier, or
/// `Unknown (` and the first eight digits of the identifier `)`.
pub open spec fn name_of(ps: Seq<ParticipantView>, id: u128) -> Seq<char> {
    match participant_index(ps, id) {
        Some(i) => ps[i].name,
        None => "Unknown ("@ + uuid_text(id).subrange(0, 8) + ")"@,
    }
}

/// The name shown for a participant.
pub fn participant_name(state: &AppState, participant_id: u128) -> (r: String)
    ensures
        r@ == name_of(state@.participants, participant_id),
{
    proof {
        lemma_participant_index(state@.participants, participant_id);
    }
    match state.participant_by_id(participant_id) {
        Some(p) => p.name.clone(),
        None => {
            let mut m = lit("Unknown (");
            let prefix = string_from_chars(&id_prefix(participant_id));
            m.append(prefix.as_str());
            m.append(")");
            m
        },
    }
}

/// The title shown for an expense: `Untitled expense` when it is blank.
pub open spec fn history_title(e: ExpenseView) -> Seq<char> {
    if crate::text::trimmed(e.title).len() == 0 {
        "Untitled expense"@
    } else {
        e.title
    }
}

/// The title shown for an expense in the history.
pub fn expense_title_for_history(expense: &Expense) -> (r: String)
    ensures
        r@ == history_title(expense@),
{
    if crate::text::is_blank(expense.title.as_str()) {
        lit("Untitled expense")
    } else {
        expense.title.clone()
    }
}

/// The line that proposes a transfer: `{from} pays {to} {currency} {amount}`.
pub open spec fn suggestion_line(ps: Seq<ParticipantView>, s: SettlementSuggestion) -> Seq<char> {
    name_of(ps, s.from_id) + " pays "@ + name_of(ps, s.to_id) + seq![' '] + money_text(
        s.amount_cents as int,
        s.currency@,
    )
}

/// The line that proposes a transfer.
pub fn suggestion_text(state: &AppState, suggestion: &SettlementSuggestion) -> (r: String)
    requires
        suggestion.amount_cents > i64::MIN,
    ensures
        r@ == suggestion_line(state@.participants, *suggestion),
{
    let mut m = participant_name(state, suggestion.from_id);
    m.append(" pays ");
    let to = participant_name(state, suggestion.to_id);
    m.append(to.as_str());
    m.append(" ");
    let money = format_money(suggestion.amount_cents, suggestion.currency.as_str());
    m.append(money.as_str());
    proof {
        reveal_strlit(" ");
    }
    assert(m@ =~= suggestion_line(state@.participants, *suggestion));
    m
}

/// `Imported {p} participants, {e} expenses, {s} settlements.`
pub open spec fn summary_line(s: ImportSummary) -> Seq<char> {
    "Imported "@ + int_text(s.participants as int) + " participants, "@ + int_text(s.expenses as int)
        + " expenses, "@ + int_text(s.settlements as int) + " settlements."@
}

impl ImportSummary {
    /// The message that reports an import.
    pub fn message(&self) -> (r: String)
        ensures
            r@ == summary_line(*self),
    {
        let mut m = lit("Imported ");
        m.append(int_to_string(self.participants as i128).as_str());
        m.append(" participants, ");
        m.append(int_to_string(self.expenses as i128).as_str());
        m.append(" expenses, ");
        m.append(int_to_string(self.settlements as i128).as_str());
        m.append(" settlements.");
        m
    }
}


/// A record of the history: an expense or a settlement.
pub enum HistoryItem {
    Expense(Expense),
    Settlement(Settlement),
}

pub enum HistoryItemView {
    Expense(ExpenseView),
    Settlement(SettlementView),
}

impl View for HistoryItem {
    type V = HistoryItemView;

    open spec fn view(&self) -> HistoryItemView {
        match self {
            HistoryItem::Expense(e) => HistoryItemView::Expense(e@),
            HistoryItem::Settlement(s) => HistoryItemView::Settlement(s@),
        }
    }
}

/// When a record was made.
pub open spec fn item_time(item: HistoryItemView) -> i64 {
    match item {
        HistoryItemView::Expense(e) => e.created_at,
        HistoryItemView::Settlement(s) => s.created_at,
    }
}

impl HistoryItem {
    /// When the record was made.
    pub fn timestamp(&self) -> (r: i64)
        ensures
            r == item_time(self@),
    {
        match self {
            HistoryItem::Expense(e) => e.created_at,
            HistoryItem::Settlement(s) => s.created_at,
        }
    }
}

/// Later records first: ordered by the negated time.
pub open spec fn newer_first(a: HistoryItemView, b: HistoryItemView) -> bool {
    -item_time(a) <= -item_time(b)
}

/// The records of the ledger, expenses then settlements.
pub open spec fn history_items(st: StateView) -> Seq<HistoryItemView> {
    st.expenses.map_values(|e: ExpenseView| HistoryItemView::Expense(e)) + st.settlements.map_values(
        |s: SettlementView| HistoryItemView::Settlement(s),
    )
}

/// Whether no record was made at the earliest time `i64` can hold.
pub open spec fn times_negatable(st: StateView) -> bool {
    &&& forall|i: int| 0 <= i < st.expenses.len() ==> #[trigger] st.expenses[i].created_at > i64::MIN
    &&& forall|i: int| 0 <= i < st.settlements.len() ==> #[trigger] st.settlements[i].created_at > i64::MIN
}

pub open spec fn items_view(v: Seq<HistoryItem>) -> Seq<HistoryItemView> {
    v.map_values(|x: HistoryItem| x@)
}

/// Every expense and settlement, the latest first; records made at the
/// same time keep the ledger's order, expenses before settlements.
pub fn history_rows(state: &AppState) -> (r: Vec<HistoryItem>)
    requires
        times_negatable(state@),
    ensures
        items_view(r@) == stable_sort(history_items(state@), |a: HistoryItemView, b: HistoryItemView| newer_first(a, b)),
{
    let ghost st = state@;
    let mut rows: Vec<HistoryItem> = Vec::new();
    for i in 0..state.expenses.len()
        invariant
            st == state@,
            items_view(rows@) == st.expenses.take(i as int).map_values(|e: ExpenseView| HistoryItemView::Expense(e)),
    {
        let ghost before = rows@;
        let item = HistoryItem::Expense(state.expenses[i].duplicate());
        assert(item@ == HistoryItemView::Expense(st.expenses[i as int]));
        rows.push(item);
        proof {
            assert(items_view(rows@) =~= items_view(before).push(item@));
            assert(items_view(rows@) =~= st.expenses.take(i + 1).map_values(|e: ExpenseView| HistoryItemView::Expense(e)));
        }
    }
    assert(st.expenses.take(st.expenses.len() as int) =~= st.expenses);
    let ghost first = items_view(rows@);
    for i in 0..state.settlements.len()
        invariant
            st == state@,
            first == st.expenses.map_values(|e: ExpenseView| HistoryItemView::Expense(e)),
            items_view(rows@) == first + st.settlements.take(i as int).map_values(
                |s: SettlementView| HistoryItemView::Settlement(s),
            ),
    {
        let ghost before = rows@;
        let item = HistoryItem::Settlement(state.settlements[i].duplicate());
        assert(item@ == HistoryItemView::Settlement(st.settlements[i as int]));
        rows.push(item);
        proof {
            assert(items_view(rows@) =~= items_view(before).push(item@));
            assert(items_view(rows@) =~= first + st.settlements.take(i + 1).map_values(
                |s: SettlementView| HistoryItemView::Settlement(s),
            ));
        }
    }
    assert(st.settlements.take(st.settlements.len() as int) =~= st.settlements);
    assert(items_view(rows@) =~= history_items(st));
    let later_first = |a: &HistoryItem, b: &HistoryItem| -> (r: bool)
        ensures
            r == newer_first(a@, b@),
        { a.timestamp() >= b.timestamp() };
    let ghost le = |a: HistoryItem, b: HistoryItem| newer_first(a@, b@);
    let ghost before = rows@;
    let sorted = sort_stable(rows, &later_first, Ghost(le));
    proof {
        lemma_stable_sort_map(before, |x: HistoryItem| x@, le, |a: HistoryItemView, b: HistoryItemView| newer_first(a, b));
    }
    sorted
}


/// The lower-cased text a history search looks in: the record's fields,
/// each lower-cased, joined by single spaces (an expense's title, icon label,
/// payer and currency; a settlement's sender, receiver, note and currency).
/// Lower-casing the fields one by one gives the same text as lower-casing
/// them joined: `str::to_lowercase` maps each character on its own except a
/// capital sigma, whose form depends only on the letters around it up to the
/// nearest character that is neither cased nor case-ignorable, and a space
/// is such a character.
pub open spec fn haystack(item: HistoryItemView, ps: Seq<ParticipantView>) -> Seq<char> {
    match item {
        HistoryItemView::Expense(e) => lowercase_of(e.title) + seq![' '] + lowercase_of(icon_label(e.icon))
            + seq![' '] + lowercase_of(name_of(ps, e.payer_id)) + seq![' '] + lowercase_of(e.currency),
        HistoryItemView::Settlement(x) => lowercase_of(name_of(ps, x.from_id)) + seq![' '] + lowercase_of(
            name_of(ps, x.to_id),
        ) + seq![' '] + lowercase_of(x.note) + seq![' '] + lowercase_of(x.currency),
    }
}

/// Whether a record is shown for a lower-cased search text: always for an
/// empty one, else when the lower-cased text of the record contains it.
pub open spec fn matches_query(item: HistoryItemView, ps: Seq<ParticipantView>, query: Seq<char>) -> bool {
    query.len() == 0 || has_substring(haystack(item, ps), query)
}

/// Whether a record is shown for the lower-cased search text `query`.
pub fn history_matches(item: &HistoryItem, state: &AppState, query: &str) -> (r: bool)
    ensures
        r == matches_query(item@, state@.participants, query@),
{
    if query.is_empty() {
        return true;
    }
    let hay = match item {
        HistoryItem::Expense(e) => {
            let mut h = to_lowercase(e.title.as_str());
            h.append(" ");
            h.append(to_lowercase(e.icon.label()).as_str());
            h.append(" ");
            h.append(to_lowercase(participant_name(state, e.payer_id).as_str()).as_str());
            h.append(" ");
            h.append(to_lowercase(e.currency.as_str()).as_str());
            h
        },
        HistoryItem::Settlement(x) => {
            let mut h = to_lowercase(participant_name(state, x.from_id).as_str());
            h.append(" ");
            h.append(to_lowercase(participant_name(state, x.to_id).as_str()).as_str());
            h.append(" ");
            h.append(to_lowercase(x.note.as_str()).as_str());
            h.append(" ");
            h.append(to_lowercase(x.currency.as_str()).as_str());
            h
        },
    };
    proof {
        reveal_strlit(" ");
    }
    assert(hay@ =~= haystack(item@, state@.participants));
    contains_chars(&chars_of(hay.as_str()), &chars_of(query))
}

proof fn lemma_found_in_middle(a: Seq<char>, b: Seq<char>, c: Seq<char>)
    ensures
        has_substring(a + b + c, b),
{
    let hay = a + b + c;
    assert(hay.subrange(a.len() as int, (a.len() + b.len()) as int) =~= b);
}

/// A search for any one field of a record, lower-cased, finds the record:
/// an expense by its title, icon label, payer's name or currency; a
/// settlement by its sender's name, receiver's name, note or currency.
pub proof fn law_search_finds_every_field(item: HistoryItemView, ps: Seq<ParticipantView>)
    ensures
        item matches HistoryItemView::Expense(e) ==> {
            &&& matches_query(item, ps, lowercase_of(e.title))
            &&& matches_query(item, ps, lowercase_of(icon_label(e.icon)))
            &&& matches_query(item, ps, lowercase_of(name_of(ps, e.payer_id)))
            &&& matches_query(item, ps, lowercase_of(e.currency))
        },
        item matches HistoryItemView::Settlement(x) ==> {
            &&& matches_query(item, ps, lowercase_of(name_of(ps, x.from_id)))
            &&& matches_query(item, ps, lowercase_of(name_of(ps, x.to_id)))
            &&& matches_query(item, ps, lowercase_of(x.note))
            &&& matches_query(item, ps, lowercase_of(x.currency))
        },
{
    let sp = seq![' '];
    match item {
        HistoryItemView::Expense(e) => {
            let t = lowercase_of(e.title);
            let i = lowercase_of(icon_label(e.icon));
            let p = lowercase_of(name_of(ps, e.payer_id));
            let c = lowercase_of(e.currency);
            let h = haystack(item, ps);
            lemma_found_in_middle(Seq::empty(), t, sp + i + sp + p + sp + c);
            assert(Seq::<char>::empty() + t + (sp + i + sp + p + sp + c) =~= h);
            lemma_found_in_middle(t + sp, i, sp + p + sp + c);
            assert(t + sp + i + (sp + p + sp + c) =~= h);
            lemma_found_in_middle(t + sp + i + sp, p, sp + c);
            assert(t + sp + i + sp + p + (sp + c) =~= h);
            lemma_found_in_middle(t + sp + i + sp + p + sp, c, Seq::empty());
            assert(t + sp + i + sp + p + sp + c + Seq::<char>::empty() =~= h);
        },
        HistoryItemView::Settlement(x) => {
            let f = lowercase_of(name_of(ps, x.from_id));
            let r = lowercase_of(name_of(ps, x.to_id));
            let n = lowercase_of(x.note);
            let c = lowercase_of(x.currency);
            let h = haystack(item, ps);
            lemma_found_in_middle(Seq::empty(), f, sp + r + sp + n + sp + c);
            assert(Seq::<char>::empty() + f + (sp + r + sp + n + sp + c) =~= h);
            lemma_found_in_middle(f + sp, r, sp + n + sp + c);
            assert(f + sp + r + (sp + n + sp + c) =~= h);
            lemma_found_in_middle(f + sp + r + sp, n, sp + c);
            assert(f + sp + r + sp + n + (sp + c) =~= h);
            lemma_found_in_middle(f + sp + r + sp + n + sp, c, Seq::empty());
            assert(f + sp + r + sp + n + sp + c + Seq::<char>::empty() =~= h);
        },
    }
}


/// What committing a participant's name field does.
pub enum RenameStep {
    /// The field is blank: it goes back to the current name, with a message.
    Required,
    /// The field holds the current name: nothing to change.
    Unchanged,
    /// The participant takes this trimmed name.
    Rename(String),
}

/// The step for a name field: the edited text if there is one, else the
/// current name, trimmed.
pub open spec fn rename_step_spec(cached: Option<Seq<char>>, current: Seq<char>) -> Option<Option<Seq<char>>> {
    let next = match cached {
        Some(c) => c,
        None => current,
    };
    let t = crate::text::trimmed(next);
    if t.len() == 0 {
        None
    } else if t == current {
        Some(None)
    } else {
        Some(Some(t))
    }
}

pub open spec fn rename_step_view(r: RenameStep) -> Option<Option<Seq<char>>> {
    match r {
        RenameStep::Required => None,
        RenameStep::Unchanged => Some(None),
        RenameStep::Rename(t) => Some(Some(t@)),
    }
}

/// Decides what committing a name field does, from the edited text (if the
/// field was edited) and the participant's current name.
pub fn rename_step(cached: Option<String>, current_name: &str) -> (r: RenameStep)
    ensures
        rename_step_view(r) == rename_step_spec(
            match cached {
                Some(c) => Some(c@),
                None => None,
            },
            current_name@,
        ),
{
    let next = match cached {
        Some(c) => c,
        None => lit(current_name),
    };
    let t = crate::text::trim(next.as_str());
    if t.as_str().is_empty() {
        RenameStep::Required
    } else if t == lit(current_name) {
        RenameStep::Unchanged
    } else {
        RenameStep::Rename(t)
    }
}

/// The notice shown when a participant with records is deactivated.
pub fn deactivation_notice(state: &AppState, participant_id: u128, next_active: bool) -> (r: Option<String>)
    ensures
        r matches Some(m) ==> m@ == "Participant has records and is now marked inactive instead of removed."@,
        r is Some <==> (!next_active && crate::state::participant_used(state@, participant_id)),
{
    if state.participant_is_used(participant_id) && !next_active {
        Some(lit("Participant has records and is now marked inactive instead of removed."))
    } else {
        None
    }
}

impl AppState {
    /// Normalizes a currency code typed in a form and keeps it as the
    /// currency to offer next; returns the code.
    pub fn remember_currency(&mut self, currency: &str) -> (r: String)
        ensures
            r@ == crate::money::currency_code(currency@),
            final(self)@ == (StateView { last_currency: r@, ..old(self)@ }),
    {
        let code = crate::money::normalize_currency(currency);
        self.last_currency = code.clone();
        code
    }
}

} // verus!
