use splitmoney::model::{AppState, ExpenseIcon, NewExpenseInput, NewSettlementInput, Share};

const A: u128 = 0x11111111_1111_4111_8111_111111111111;
const B: u128 = 0x22222222_2222_4222_8222_222222222222;
const C: u128 = 0x33333333_3333_4333_8333_333333333333;

fn share(id: u128, cents: i64) -> Share {
    Share { participant_id: id, amount_cents: cents }
}

fn ledger() -> AppState {
    let mut st = AppState::default();
    st.add_participant_with_id("Cid".to_string(), C).unwrap();
    st.add_participant_with_id("Ann".to_string(), A).unwrap();
    st.add_participant_with_id("Bob".to_string(), B).unwrap();
    let dinner = NewExpenseInput {
        title: "Dinner".to_string(),
        icon: ExpenseIcon::Food,
        payer_id: A,
        total_cents: 90,
        currency: "eur".to_string(),
        created_at: Some(1),
        shares: vec![share(A, 30), share(B, 30), share(C, 30)],
    };
    st.add_expense_with(dinner, 1, 1).unwrap();
    let taxi = NewExpenseInput {
        title: "Taxi".to_string(),
        icon: ExpenseIcon::Transport,
        payer_id: B,
        total_cents: 1000,
        currency: "usd".to_string(),
        created_at: Some(2),
        shares: vec![share(B, 500), share(C, 500)],
    };
    st.add_expense_with(taxi, 2, 2).unwrap();
    let payback = NewSettlementInput {
        from_id: C,
        to_id: B,
        amount_cents: 200,
        currency: "USD".to_string(),
        created_at: Some(3),
        note: String::new(),
    };
    st.add_settlement_with(payback, 3, 3).unwrap();
    st
}

#[test]
fn balances_are_grouped_by_currency_and_sorted_by_name() {
    let st = ledger();
    assert!(st.balances_fit());
    let groups = st.compute_balances_by_currency();
    assert_eq!(groups.len(), 2);
    assert_eq!(groups[0].currency, "EUR");
    assert_eq!(groups[1].currency, "USD");
    let eur: Vec<(String, i64)> =
        groups[0].balances.iter().map(|b| (b.participant.name.clone(), b.net_cents)).collect();
    assert_eq!(eur, vec![("Ann".to_string(), 60), ("Bob".to_string(), -30), ("Cid".to_string(), -30)]);
    let usd: Vec<(String, i64)> =
        groups[1].balances.iter().map(|b| (b.participant.name.clone(), b.net_cents)).collect();
    assert_eq!(usd, vec![("Ann".to_string(), 0), ("Bob".to_string(), 300), ("Cid".to_string(), -300)]);
}

#[test]
fn balances_sum_to_zero_in_every_currency() {
    let st = ledger();
    for group in st.compute_balances_by_currency() {
        assert_eq!(group.balances.iter().map(|b| b.net_cents).sum::<i64>(), 0);
    }
}

#[test]
fn no_records_no_groups() {
    let mut st = AppState::default();
    st.add_participant_with_id("Ann".to_string(), A).unwrap();
    assert!(st.compute_balances_by_currency().is_empty());
    assert!(st.settlement_suggestions_by_currency().is_empty());
}

#[test]
fn suggestions_pay_the_largest_creditors_first() {
    let st = ledger();
    assert!(st.suggestions_fit());
    let s = st.settlement_suggestions_by_currency();
    let got: Vec<(u128, u128, i64, String)> =
        s.iter().map(|x| (x.from_id, x.to_id, x.amount_cents, x.currency.clone())).collect();
    assert_eq!(
        got,
        vec![
            (B, A, 30, "EUR".to_string()),
            (C, A, 30, "EUR".to_string()),
            (C, B, 300, "USD".to_string()),
        ]
    );
}

#[test]
fn paying_the_suggestions_settles_everyone() {
    let mut st = ledger();
    for (k, s) in st.settlement_suggestions_by_currency().into_iter().enumerate() {
        let input = NewSettlementInput {
            from_id: s.from_id,
            to_id: s.to_id,
            amount_cents: s.amount_cents,
            currency: s.currency.clone(),
            created_at: Some(10),
            note: String::new(),
        };
        st.add_settlement_with(input, 100 + k as u128, 10).unwrap();
    }
    for group in st.compute_balances_by_currency() {
        assert!(group.balances.iter().all(|b| b.net_cents == 0));
    }
    assert!(st.settlement_suggestions_by_currency().is_empty());
}

#[test]
fn suggestions_need_fewer_transfers_than_unsettled_people() {
    let st = ledger();
    let groups = st.compute_balances_by_currency();
    let suggestions = st.settlement_suggestions_by_currency();
    for group in &groups {
        let unsettled = group.balances.iter().filter(|b| b.net_cents != 0).count();
        let transfers = suggestions.iter().filter(|s| s.currency == group.currency).count();
        assert!(transfers + 1 <= unsettled || transfers == 0);
    }
}

#[test]
fn an_expense_leaves_other_currencies_alone() {
    let mut st = ledger();
    let before = st.compute_balances_by_currency();
    let rent = NewExpenseInput {
        title: "Rent".to_string(),
        icon: ExpenseIcon::Home,
        payer_id: C,
        total_cents: 999,
        currency: "gbp".to_string(),
        created_at: Some(4),
        shares: vec![share(A, 333), share(B, 333), share(C, 333)],
    };
    st.add_expense_with(rent, 9, 4).unwrap();
    let after = st.compute_balances_by_currency();
    assert_eq!(after.len(), 3);
    assert_eq!(after[0], before[0]);
    assert_eq!(after[1].currency, "GBP");
    assert_eq!(after[2], before[1]);
}

#[test]
fn every_change_keeps_balances_summing_to_zero() {
    let mut st = ledger();
    let check = |st: &AppState| {
        for group in st.compute_balances_by_currency() {
            assert_eq!(group.balances.iter().map(|b| b.net_cents).sum::<i64>(), 0);
        }
    };
    st.set_participant_active(C, false).unwrap();
    check(&st);
    st.rename_participant(A, "Zed".to_string()).unwrap();
    check(&st);
    let edit = NewExpenseInput {
        title: "Dinner".to_string(),
        icon: ExpenseIcon::Food,
        payer_id: C,
        total_cents: 100,
        currency: "eur".to_string(),
        created_at: None,
        shares: vec![share(A, 33), share(B, 33), share(C, 33)],
    };
    st.update_expense(1, edit).unwrap();
    check(&st);
    st.delete_settlement(3).unwrap();
    check(&st);
    st.delete_expense(2).unwrap();
    check(&st);
}

#[test]
fn suggestions_are_the_greedy_pairing_not_always_the_fewest() {
    // Net balances +5, +5, -3, -3, -2, -2: four transfers would do
    // (3 + 2 into each creditor); the greedy pairing uses five.
    let mut st = AppState::default();
    for (k, name) in ["Ada", "Ben", "Cy", "Di", "Ed", "Flo"].iter().enumerate() {
        st.add_participant_with_id(name.to_string(), (k + 1) as u128).unwrap();
    }
    for (payer, big, small, id) in [(1u128, 3u128, 5u128, 10u128), (2, 4, 6, 11)] {
        let input = NewExpenseInput {
            title: "Split".to_string(),
            icon: ExpenseIcon::Other,
            payer_id: payer,
            total_cents: 5,
            currency: "EUR".to_string(),
            created_at: Some(1),
            shares: vec![share(big, 3), share(small, 2)],
        };
        st.add_expense_with(input, id, 1).unwrap();
    }
    assert!(st.suggestions_fit());
    let s = st.settlement_suggestions_by_currency();
    assert_eq!(s.len(), 5);
    let total: i64 = s.iter().map(|g| g.amount_cents).sum();
    assert_eq!(total, 10);
}

#[test]
fn paying_the_suggestions_settles_everyone_beside_unnamed_twins() {
    // Two participants share an identifier that no record names: the
    // suggestions still settle every balance.
    let mut st = ledger();
    st.add_participant_with_id("Twin".to_string(), 99).unwrap();
    st.add_participant_with_id("Twin too".to_string(), 99).unwrap();
    assert!(st.suggestions_fit());
    for (k, s) in st.settlement_suggestions_by_currency().into_iter().enumerate() {
        assert_ne!(s.from_id, 99);
        assert_ne!(s.to_id, 99);
        let input = NewSettlementInput {
            from_id: s.from_id,
            to_id: s.to_id,
            amount_cents: s.amount_cents,
            currency: s.currency.clone(),
            created_at: Some(10),
            note: String::new(),
        };
        st.add_settlement_with(input, 200 + k as u128, 10).unwrap();
    }
    for group in st.compute_balances_by_currency() {
        assert!(group.balances.iter().all(|b| b.net_cents == 0));
    }
    assert!(st.settlement_suggestions_by_currency().is_empty());
}
