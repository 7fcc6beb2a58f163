use splitmoney::editor::{
    one_owes_candidates, one_owes_choice, receiver_choices, selectable_participants,
    settlement_participants, ExpenseDraft, ExpenseEditorState, SettlementDraft,
    SettlementEditorState,
};
use splitmoney::model::{AppState, ExpenseIcon, NewExpenseInput, NewSettlementInput, Share, SettlementSuggestion};
use splitmoney::screens::{
    deactivation_notice, expense_title_for_history, history_matches, history_rows,
    participant_name, rename_step, suggestion_text, HistoryItem, RenameStep, Screen,
};

const A: u128 = 0x11111111_1111_4111_8111_111111111111;
const B: u128 = 0x22222222_2222_4222_8222_222222222222;
const C: u128 = 0x33333333_3333_4333_8333_333333333333;

fn share(id: u128, cents: i64) -> Share {
    Share { participant_id: id, amount_cents: cents }
}

fn people() -> AppState {
    let mut st = AppState::default();
    st.add_participant_with_id("Ann".to_string(), A).unwrap();
    st.add_participant_with_id("Bob".to_string(), B).unwrap();
    st.add_participant_with_id("Cid".to_string(), C).unwrap();
    st.last_currency = "EUR".to_string();
    st
}

fn with_records() -> AppState {
    let mut st = people();
    let input = NewExpenseInput {
        title: "Pizza".to_string(),
        icon: ExpenseIcon::Food,
        payer_id: B,
        total_cents: 300,
        currency: "eur".to_string(),
        created_at: Some(5),
        shares: vec![share(B, 100), share(C, 200)],
    };
    st.add_expense_with(input, 1, 5).unwrap();
    let pay = NewSettlementInput {
        from_id: C,
        to_id: B,
        amount_cents: 200,
        currency: "eur".to_string(),
        created_at: Some(9),
        note: "Bank transfer".to_string(),
    };
    st.add_settlement_with(pay, 2, 9).unwrap();
    let late = NewExpenseInput {
        title: "Taxi".to_string(),
        icon: ExpenseIcon::Transport,
        payer_id: A,
        total_cents: 100,
        currency: "usd".to_string(),
        created_at: Some(5),
        shares: vec![share(A, 100)],
    };
    st.add_expense_with(late, 3, 5).unwrap();
    st
}

#[test]
fn navigation_labels() {
    let all = Screen::all();
    assert_eq!(all.len(), 7);
    assert_eq!(all[0].short_label(), "Home");
    assert_eq!(Screen::ImportExport.short_label(), "CSV");
    assert_eq!(Screen::AddSettlement.short_label(), "Settle");
}

#[test]
fn names_known_and_unknown_participants() {
    let st = people();
    assert_eq!(participant_name(&st, B), "Bob");
    assert_eq!(participant_name(&st, 0xabcdef01_0000_4000_8000_000000000000), "Unknown (abcdef01)");
}

#[test]
fn suggestion_lines() {
    let st = people();
    let s = SettlementSuggestion { from_id: B, to_id: A, amount_cents: 1234, currency: "EUR".to_string() };
    assert_eq!(suggestion_text(&st, &s), "Bob pays Ann EUR 12.34");
}

#[test]
fn history_lists_latest_first_and_filters() {
    let st = with_records();
    let rows = history_rows(&st);
    let times: Vec<i64> = rows.iter().map(|r| r.timestamp()).collect();
    assert_eq!(times, vec![9, 5, 5]);
    match &rows[1] {
        HistoryItem::Expense(e) => assert_eq!(e.title, "Pizza"),
        HistoryItem::Settlement(_) => panic!("expected an expense"),
    }
    assert!(history_matches(&rows[0], &st, ""));
    assert!(history_matches(&rows[0], &st, "bank"));
    assert!(history_matches(&rows[0], &st, "cid"));
    assert!(!history_matches(&rows[0], &st, "pizza"));
    assert!(history_matches(&rows[1], &st, "pizza"));
    assert!(history_matches(&rows[1], &st, "food"));
    assert!(history_matches(&rows[1], &st, "bob eur"));
    assert!(!history_matches(&rows[1], &st, "Pizza"));
}

#[test]
fn untitled_expenses_get_a_title() {
    let st = with_records();
    let mut e = st.expenses[0].clone();
    assert_eq!(expense_title_for_history(&e), "Pizza");
    e.title = "  ".to_string();
    assert_eq!(expense_title_for_history(&e), "Untitled expense");
}

#[test]
fn committing_a_name_field() {
    assert!(matches!(rename_step(Some("  ".to_string()), "Ann"), RenameStep::Required));
    assert!(matches!(rename_step(Some(" Ann ".to_string()), "Ann"), RenameStep::Unchanged));
    assert!(matches!(rename_step(None, "Ann"), RenameStep::Unchanged));
    match rename_step(Some(" Anna ".to_string()), "Ann") {
        RenameStep::Rename(t) => assert_eq!(t, "Anna"),
        _ => panic!("expected a rename"),
    }
}

#[test]
fn deactivating_someone_with_records_is_noted() {
    let st = with_records();
    assert_eq!(
        deactivation_notice(&st, B, false).unwrap(),
        "Participant has records and is now marked inactive instead of removed."
    );
    assert!(deactivation_notice(&st, B, true).is_none());
    let fresh = people();
    assert!(deactivation_notice(&fresh, B, false).is_none());
}

#[test]
fn remembering_a_currency() {
    let mut st = people();
    assert_eq!(st.remember_currency(" gbp "), "GBP");
    assert_eq!(st.last_currency, "GBP");
}

#[test]
fn new_expense_draft_includes_active_people() {
    let mut st = people();
    st.set_participant_active(A, false).unwrap();
    let d = ExpenseDraft::from_state(&st);
    assert_eq!(d.payer_id, Some(B));
    assert_eq!(d.one_owes_id, Some(C));
    assert_eq!(d.currency, "EUR");
    assert_eq!(d.icon, ExpenseIcon::Other);
    let ids: Vec<u128> = d.shares.iter().map(|s| s.participant_id).collect();
    assert_eq!(ids, vec![B, C]);
    assert!(d.shares.iter().all(|s| s.selected && s.amount_input == "0.00"));
    let editor = ExpenseEditorState::create(&st);
    assert!(editor.editing_id.is_none());
}

#[test]
fn editing_an_expense_shows_its_values() {
    let mut st = with_records();
    st.set_participant_active(C, false).unwrap();
    st.set_participant_active(A, false).unwrap();
    let e = st.expenses[0].clone();
    let d = ExpenseDraft::from_expense(&st, &e);
    assert_eq!(d.total_input, "3.00");
    assert_eq!(d.payer_id, Some(B));
    assert_eq!(d.one_owes_id, Some(C));
    let rows: Vec<(u128, bool, String)> =
        d.shares.iter().map(|s| (s.participant_id, s.selected, s.amount_input.clone())).collect();
    assert_eq!(rows, vec![(B, true, "1.00".to_string()), (C, true, "2.00".to_string())]);
    let editor = ExpenseEditorState::edit(&st, &e);
    assert_eq!(editor.editing_id, Some(1));
}

#[test]
fn submitting_an_expense_form() {
    let st = people();
    let mut d = ExpenseDraft::from_state(&st);
    assert_eq!(d.to_input(&st).unwrap_err(), "Amount is required.");
    d.total_input = "10".to_string();
    d.set_share_amount(B, "abc".to_string());
    assert_eq!(d.to_input(&st).unwrap_err(), "Share for Bob is invalid: Amount format is invalid.");
    d.set_share_amount(B, " ".to_string());
    d.toggle_share(C);
    let input = d.to_input(&st).unwrap();
    assert_eq!(input.payer_id, A);
    assert_eq!(input.total_cents, 1000);
    assert_eq!(input.currency, "EUR");
    assert_eq!(input.shares, vec![share(A, 0), share(B, 0)]);
    d.toggle_share(A);
    d.toggle_share(B);
    assert_eq!(d.to_input(&st).unwrap_err(), "Select at least one participant share.");
    d.toggle_share(A);
    d.payer_id = None;
    assert_eq!(d.to_input(&st).unwrap_err(), "Select a payer participant.");
}

#[test]
fn split_helpers() {
    let st = people();
    let mut d = ExpenseDraft::from_state(&st);
    assert_eq!(d.split_equally().unwrap_err(), "Amount is required.");
    d.total_input = "1".to_string();
    d.toggle_share(B);
    d.split_equally().unwrap();
    let amounts: Vec<String> = d.shares.iter().map(|s| s.amount_input.clone()).collect();
    assert_eq!(amounts, vec!["0.50", "0.00", "0.50"]);
    d.one_owes_all().unwrap();
    let rows: Vec<(bool, String)> = d.shares.iter().map(|s| (s.selected, s.amount_input.clone())).collect();
    assert_eq!(
        rows,
        vec![(false, "0.00".to_string()), (true, "1.00".to_string()), (false, "0.00".to_string())]
    );
    d.one_owes_id = Some(A);
    assert_eq!(d.one_owes_all().unwrap_err(), "Who owes all must be different from the payer.");
    d.one_owes_id = None;
    assert_eq!(d.one_owes_all().unwrap_err(), "Select who owes all.");
}

#[test]
fn choosing_a_payer_moves_who_owes_all() {
    let st = people();
    let mut d = ExpenseDraft::from_state(&st);
    assert_eq!(d.one_owes_id, Some(B));
    d.set_payer(C);
    assert_eq!(d.one_owes_id, Some(B));
    d.set_payer(B);
    assert_eq!(d.payer_id, Some(B));
    assert_eq!(d.one_owes_id, Some(A));
}

#[test]
fn participant_choices() {
    let mut st = people();
    let d = ExpenseDraft::from_state(&st);
    st.set_participant_active(C, false).unwrap();
    let offered = selectable_participants(&st, &d);
    assert_eq!(offered.len(), 3);
    let others = one_owes_candidates(&offered, d.payer_id);
    let ids: Vec<u128> = others.iter().map(|p| p.id).collect();
    assert_eq!(ids, vec![B, C]);
    assert_eq!(one_owes_choice(&d, &others), Some(B));
    let fresh = ExpenseDraft::from_state(&st);
    assert_eq!(selectable_participants(&st, &fresh).len(), 2);
}

#[test]
fn settlement_forms() {
    let st = people();
    let d = SettlementDraft::from_state(&st);
    assert_eq!((d.from_id, d.to_id), (Some(A), Some(B)));
    assert_eq!(d.to_input().unwrap_err(), "Amount is required.");
    let mut d2 = SettlementEditorState::create(&st).draft;
    d2.amount_input = "2,5".to_string();
    d2.note = "n".to_string();
    let input = d2.to_input().unwrap();
    assert_eq!((input.from_id, input.to_id, input.amount_cents), (A, B, 250));
    assert_eq!(input.currency, "EUR");
    let offered = settlement_participants(&st, &d2);
    d2.set_from(B, &offered);
    assert_eq!((d2.from_id, d2.to_id), (Some(B), Some(A)));
    let receivers = receiver_choices(&offered, &d2);
    let ids: Vec<u128> = receivers.iter().map(|p| p.id).collect();
    assert_eq!(ids, vec![A, C]);
    d2.from_id = None;
    assert_eq!(d2.to_input().unwrap_err(), "Select who paid.");
    let mut lone = AppState::default();
    lone.add_participant_with_id("Solo".to_string(), A).unwrap();
    let d3 = SettlementDraft::from_state(&lone);
    assert_eq!((d3.from_id, d3.to_id), (Some(A), Some(A)));
    let recs = with_records();
    let edit = SettlementEditorState::edit(&recs.settlements[0]);
    assert_eq!(edit.editing_id, Some(2));
    assert_eq!(edit.draft.amount_input, "2.00");
    assert_eq!(edit.draft.note, "Bank transfer");
}

#[test]
fn splitting_then_submitting_gives_the_even_split() {
    let st = people();
    let mut d = ExpenseDraft::from_state(&st);
    d.title = "Lunch".to_string();
    d.total_input = "10".to_string();
    d.split_equally().unwrap();
    let input = d.to_input(&st).unwrap();
    assert_eq!(input.shares, vec![share(A, 334), share(B, 333), share(C, 333)]);
    assert_eq!(input.shares.iter().map(|s| s.amount_cents).sum::<i64>(), input.total_cents);
    let mut st2 = st.clone();
    assert!(st2.add_expense_with(input, 5, 5).is_ok());
}

#[test]
fn one_owing_all_then_submitting_gives_a_single_share() {
    let st = people();
    let mut d = ExpenseDraft::from_state(&st);
    d.title = "Gift".to_string();
    d.total_input = "12.50".to_string();
    d.one_owes_all().unwrap();
    let input = d.to_input(&st).unwrap();
    assert_eq!(input.shares, vec![share(B, 1250)]);
    assert_eq!(input.total_cents, 1250);
}
