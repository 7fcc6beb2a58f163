use splitmoney::model::{AppState, ExpenseIcon, NewExpenseInput, NewSettlementInput, Share};
use splitmoney::state::{adjust_shares_to_total, equal_split, validate_new_expense, validate_new_settlement};

const A: u128 = 0x11111111_1111_4111_8111_111111111111;
const B: u128 = 0x22222222_2222_4222_8222_222222222222;
const C: u128 = 0x33333333_3333_4333_8333_333333333333;

fn three_people() -> AppState {
    let mut st = AppState::default();
    st.add_participant_with_id("Ann".to_string(), A).unwrap();
    st.add_participant_with_id("Bob".to_string(), B).unwrap();
    st.add_participant_with_id("Cid".to_string(), C).unwrap();
    st
}

fn share(id: u128, cents: i64) -> Share {
    Share { participant_id: id, amount_cents: cents }
}

fn dinner(total: i64, shares: Vec<Share>) -> NewExpenseInput {
    NewExpenseInput {
        title: " Dinner ".to_string(),
        icon: ExpenseIcon::Food,
        payer_id: A,
        total_cents: total,
        currency: "eur".to_string(),
        created_at: Some(10),
        shares,
    }
}

#[test]
fn equal_split_handles_remainder() {
    let a = uuid::Uuid::new_v4().as_u128();
    let b = uuid::Uuid::new_v4().as_u128();
    let c = uuid::Uuid::new_v4().as_u128();
    let shares = equal_split(100, &[a, b, c]);
    assert_eq!(shares.iter().map(|share| share.amount_cents).sum::<i64>(), 100);
}

#[test]
fn equal_split_gives_the_remainder_to_the_first() {
    let shares = equal_split(100, &[A, B, C]);
    assert_eq!(shares, vec![share(A, 34), share(B, 33), share(C, 33)]);
    assert!(equal_split(0, &[A, B]).is_empty());
    assert!(equal_split(-5, &[A]).is_empty());
    assert!(equal_split(100, &[]).is_empty());
    assert_eq!(equal_split(2, &[A, B, C]), vec![share(A, 1), share(B, 1), share(C, 0)]);
}

#[test]
fn adjusting_moves_the_difference_onto_the_last_largest_share() {
    let mut shares = vec![share(A, 33), share(B, 34), share(C, 34)];
    adjust_shares_to_total(&mut shares, 100);
    assert_eq!(shares, vec![share(A, 33), share(B, 34), share(C, 33)]);
    let mut exact = vec![share(A, 50), share(B, 50)];
    adjust_shares_to_total(&mut exact, 100);
    assert_eq!(exact, vec![share(A, 50), share(B, 50)]);
    let mut none: Vec<Share> = Vec::new();
    adjust_shares_to_total(&mut none, 100);
    assert!(none.is_empty());
}

#[test]
fn participants_are_added_trimmed_and_must_have_names() {
    let mut st = AppState::default();
    assert_eq!(st.add_participant("   ".to_string()).unwrap_err(), "Participant name is required.");
    assert!(st.participants.is_empty());
    let p = st.add_participant("  Zoe ".to_string()).unwrap();
    assert_eq!(p.name, "Zoe");
    assert!(p.is_active);
    assert_eq!(st.participants.len(), 1);
    assert_eq!(st.participant_by_id(p.id).unwrap().name, "Zoe");
    assert!(st.participant_by_id(p.id ^ 1).is_none());
}

#[test]
fn renaming_and_deactivating_participants() {
    let mut st = three_people();
    assert_eq!(st.rename_participant(A, "  ".to_string()).unwrap_err(), "Participant name is required.");
    assert_eq!(st.rename_participant(7, "X".to_string()).unwrap_err(), "Participant was not found.");
    st.rename_participant(A, " Anna ".to_string()).unwrap();
    assert_eq!(st.participants[0].name, "Anna");
    st.set_participant_active(B, false).unwrap();
    assert!(!st.participants[1].is_active);
    assert_eq!(st.set_participant_active(7, true).unwrap_err(), "Participant was not found.");
}

#[test]
fn expenses_are_validated_in_order() {
    let st = three_people();
    let mut bad = dinner(100, vec![share(A, 50), share(B, 50)]);
    bad.payer_id = 9;
    assert_eq!(validate_new_expense(&st, &bad).unwrap_err(), "Payer participant was not found.");
    let zero = dinner(0, vec![share(A, 0)]);
    assert_eq!(validate_new_expense(&st, &zero).unwrap_err(), "Total amount must be greater than zero.");
    let empty = dinner(100, vec![]);
    assert_eq!(validate_new_expense(&st, &empty).unwrap_err(), "Add at least one participant share.");
    let negative = dinner(100, vec![share(A, 150), share(B, -50)]);
    assert_eq!(validate_new_expense(&st, &negative).unwrap_err(), "Shares cannot be negative.");
    let unknown = dinner(100, vec![share(A, 50), share(9, 50)]);
    assert_eq!(validate_new_expense(&st, &unknown).unwrap_err(), "One of the selected participants was not found.");
    let off = dinner(100, vec![share(A, 50), share(B, 48)]);
    assert_eq!(
        validate_new_expense(&st, &off).unwrap_err(),
        "Shares must match total. Difference is -2 cents."
    );
    let mut untitled = dinner(100, vec![share(A, 50), share(B, 50)]);
    untitled.title = "  ".to_string();
    assert_eq!(validate_new_expense(&st, &untitled).unwrap_err(), "Expense title is required.");
    assert!(validate_new_expense(&st, &dinner(100, vec![share(A, 50), share(B, 49)])).is_ok());
}

#[test]
fn adding_an_expense_records_it_adjusted() {
    let mut st = three_people();
    let e = st.add_expense_with(dinner(100, vec![share(A, 33), share(B, 33), share(C, 33)]), 42, 999).unwrap();
    assert_eq!(e.id, 42);
    assert_eq!(e.title, "Dinner");
    assert_eq!(e.currency, "EUR");
    assert_eq!(e.created_at, 10);
    assert_eq!(e.shares, vec![share(A, 33), share(B, 33), share(C, 34)]);
    assert_eq!(st.expenses.len(), 1);
    assert_eq!(st.last_currency, "EUR");
    let mut untimed = dinner(100, vec![share(A, 100)]);
    untimed.created_at = None;
    let e2 = st.add_expense_with(untimed, 43, 999).unwrap();
    assert_eq!(e2.created_at, 999);
    assert!(st.participant_is_used(A));
}

#[test]
fn failed_expense_leaves_the_ledger_alone() {
    let mut st = three_people();
    let before = st.clone();
    assert!(st.add_expense(dinner(100, vec![share(A, 10)]), 0).is_err());
    assert_eq!(st, before);
}

#[test]
fn updating_and_deleting_expenses() {
    let mut st = three_people();
    st.add_expense_with(dinner(100, vec![share(A, 50), share(B, 50)]), 42, 1).unwrap();
    let mut change = dinner(300, vec![share(C, 300)]);
    change.created_at = None;
    change.currency = "gbp".to_string();
    assert_eq!(st.update_expense(7, change.clone()).unwrap_err(), "Expense was not found.");
    st.update_expense(42, change).unwrap();
    assert_eq!(st.expenses[0].id, 42);
    assert_eq!(st.expenses[0].total_cents, 300);
    assert_eq!(st.expenses[0].created_at, 10);
    assert_eq!(st.last_currency, "GBP");
    assert_eq!(st.delete_expense(7).unwrap_err(), "Expense was not found.");
    st.delete_expense(42).unwrap();
    assert!(st.expenses.is_empty());
}

#[test]
fn settlements_are_validated_and_recorded() {
    let mut st = three_people();
    let input = NewSettlementInput {
        from_id: B,
        to_id: A,
        amount_cents: 500,
        currency: " usd".to_string(),
        created_at: None,
        note: " cash ".to_string(),
    };
    let mut same = input.clone();
    same.to_id = B;
    assert_eq!(
        validate_new_settlement(&st, &same).unwrap_err(),
        "Settlement sender and receiver must be different participants."
    );
    let mut unknown = input.clone();
    unknown.to_id = 9;
    assert_eq!(validate_new_settlement(&st, &unknown).unwrap_err(), "Settlement participant was not found.");
    let mut zero = input.clone();
    zero.amount_cents = 0;
    assert_eq!(validate_new_settlement(&st, &zero).unwrap_err(), "Settlement amount must be greater than zero.");
    let mut blank = input.clone();
    blank.currency = " ".to_string();
    assert_eq!(validate_new_settlement(&st, &blank).unwrap_err(), "Settlement currency is required.");
    let s = st.add_settlement_with(input.clone(), 77, 5).unwrap();
    assert_eq!(s.note, "cash");
    assert_eq!(s.currency, "USD");
    assert_eq!(s.created_at, 5);
    let mut change = input;
    change.amount_cents = 600;
    st.update_settlement(77, change).unwrap();
    assert_eq!(st.settlements[0].amount_cents, 600);
    assert_eq!(st.settlements[0].created_at, 5);
    assert_eq!(st.delete_settlement(78).unwrap_err(), "Settlement was not found.");
    st.delete_settlement(77).unwrap();
    assert!(st.settlements.is_empty());
}

#[test]
fn deleting_what_was_just_added_restores_the_records() {
    let mut st = three_people();
    st.add_expense_with(dinner(100, vec![share(A, 100)]), 1, 1).unwrap();
    let before = st.expenses.clone();
    st.add_expense_with(dinner(200, vec![share(B, 200)]), 2, 1).unwrap();
    st.delete_expense(2).unwrap();
    assert_eq!(st.expenses, before);
}

#[test]
fn with_defaults_normalizes_codes() {
    let mut st = three_people();
    st.add_expense_with(dinner(100, vec![share(A, 100)]), 1, 1).unwrap();
    st.expenses[0].currency = "e-u-r".to_string();
    st.last_currency = " ".to_string();
    let st = st.with_defaults();
    assert_eq!(st.expenses[0].currency, "EUR");
    assert_eq!(st.last_currency, "USD");
}

#[test]
fn records_take_the_callers_time_when_the_input_has_none() {
    let mut st = three_people();
    let mut untimed = dinner(100, vec![share(A, 100)]);
    untimed.created_at = None;
    let e = st.add_expense(untimed.clone(), 12345).unwrap();
    assert_eq!(e.created_at, 12345);
    let timed = dinner(100, vec![share(A, 100)]);
    assert_eq!(st.add_expense(timed, 12345).unwrap().created_at, 10);
    let pay = NewSettlementInput {
        from_id: B,
        to_id: A,
        amount_cents: 5,
        currency: "usd".to_string(),
        created_at: None,
        note: String::new(),
    };
    assert_eq!(st.add_settlement(pay, 777).unwrap().created_at, 777);
    assert_ne!(st.expenses[0].id, st.expenses[1].id);
}

#[test]
fn cleaning_up_twice_changes_nothing_more() {
    let mut st = three_people();
    st.add_expense_with(dinner(100, vec![share(A, 33), share(B, 33), share(C, 34)]), 1, 7).unwrap();
    st.expenses[0].title = "  Dinner  ".to_string();
    st.expenses[0].currency = "e-u-r".to_string();
    st.expenses.push(splitmoney::model::Expense {
        id: 2,
        title: "Ghost".to_string(),
        icon: ExpenseIcon::Other,
        payer_id: 99,
        total_cents: 10,
        currency: "usd".to_string(),
        created_at: 1,
        shares: vec![share(A, 10)],
    });
    st.participants.swap(0, 2);
    st.last_currency = String::new();
    st.normalize_after_import();
    let once = st.clone();
    assert_eq!(once.expenses.len(), 1);
    assert_eq!(once.expenses[0].title, "Dinner");
    assert_eq!(once.last_currency, "EUR");
    st.normalize_after_import();
    assert_eq!(st, once);
}

fn is_version_four(id: u128) -> bool {
    (id >> 76) & 0xf == 4 && (id >> 62) & 0x3 == 2
}

#[test]
fn fresh_identifiers_carry_the_version_four_bits() {
    let mut st = three_people();
    let p = st.add_participant("Dee".to_string()).unwrap();
    assert!(is_version_four(p.id));
    let e = st.add_expense(dinner(300, vec![share(A, 100), share(B, 100), share(C, 100)]), 1).unwrap();
    assert!(is_version_four(e.id));
    let s = st
        .add_settlement(
            NewSettlementInput {
                from_id: B,
                to_id: A,
                amount_cents: 100,
                currency: "EUR".to_string(),
                created_at: None,
                note: String::new(),
            },
            2,
        )
        .unwrap();
    assert!(is_version_four(s.id));
    assert_ne!(p.id, e.id);
    assert_ne!(e.id, s.id);
}
