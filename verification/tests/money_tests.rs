use splitmoney::model::ExpenseIcon;
use splitmoney::money::{
    default_currency_code, format_cents, format_money, format_signed_money, normalize_currency,
    normalize_expense_title, parse_money_to_cents,
};

#[test]
fn parses_money_to_cents() {
    assert_eq!(parse_money_to_cents("12").unwrap(), 1200);
    assert_eq!(parse_money_to_cents("12.3").unwrap(), 1230);
    assert_eq!(parse_money_to_cents("12.34").unwrap(), 1234);
    assert!(parse_money_to_cents("12.345").is_err());
}

#[test]
fn money_parse_accepts_comma_spaces_and_stray_characters() {
    assert_eq!(parse_money_to_cents("  7,5 ").unwrap(), 750);
    assert_eq!(parse_money_to_cents("$1,05").unwrap(), 105);
    assert_eq!(parse_money_to_cents("0").unwrap(), 0);
    assert_eq!(parse_money_to_cents("3.").unwrap(), 300);
}

#[test]
fn money_parse_errors() {
    assert_eq!(parse_money_to_cents("   ").unwrap_err(), "Amount is required.");
    assert_eq!(parse_money_to_cents("-4").unwrap_err(), "Amount cannot be negative.");
    assert_eq!(parse_money_to_cents("1.2.3").unwrap_err(), "Amount format is invalid.");
    assert_eq!(parse_money_to_cents(".50").unwrap_err(), "Amount format is invalid.");
    assert_eq!(parse_money_to_cents("1.234").unwrap_err(), "Use at most two decimal places.");
    assert_eq!(
        parse_money_to_cents("99999999999999999999").unwrap_err(),
        "Amount is too large."
    );
    assert_eq!(
        parse_money_to_cents("92233720368547758.08").unwrap_err(),
        "Amount is too large."
    );
    assert_eq!(parse_money_to_cents("92233720368547758.07").unwrap(), i64::MAX);
}

#[test]
fn formats_cents() {
    assert_eq!(format_cents(0), "0.00");
    assert_eq!(format_cents(5), "0.05");
    assert_eq!(format_cents(1234), "12.34");
    assert_eq!(format_cents(-1234), "-12.34");
    assert_eq!(format_cents(i64::MAX), "92233720368547758.07");
}

#[test]
fn parsing_a_formatted_amount_gives_it_back() {
    for cents in [0i64, 1, 99, 100, 1234, 500000, i64::MAX] {
        assert_eq!(parse_money_to_cents(&format_cents(cents)).unwrap(), cents);
    }
}

#[test]
fn formats_money_with_currency() {
    assert_eq!(format_money(1234, "EUR"), "EUR 12.34");
    assert_eq!(format_signed_money(1234, "EUR"), "+EUR 12.34");
    assert_eq!(format_signed_money(0, "USD"), "+USD 0.00");
    assert_eq!(format_signed_money(-5, "USD"), "-USD 0.05");
}

#[test]
fn normalizes_currency_codes() {
    assert_eq!(normalize_currency(" eur "), "EUR");
    assert_eq!(normalize_currency("u$d"), "UD");
    assert_eq!(normalize_currency("   "), "USD");
    assert_eq!(normalize_currency("--"), "USD");
    assert_eq!(normalize_currency("abcdefghijk"), "ABCDEFGHIJK");
    assert_eq!(default_currency_code(), "USD");
}

#[test]
fn currency_codes_are_stable_under_normalization() {
    for raw in ["eur", " gbp", "x-1", "", "ÄBC"] {
        let once = normalize_currency(raw);
        assert_eq!(normalize_currency(&once), once);
    }
}

#[test]
fn trims_expense_titles() {
    assert_eq!(normalize_expense_title("  Dinner \t"), "Dinner");
    assert_eq!(normalize_expense_title(""), "");
}

#[test]
fn icon_labels_and_order() {
    let all = ExpenseIcon::all();
    assert_eq!(all.len(), 7);
    assert_eq!(all[0], ExpenseIcon::Food);
    assert_eq!(all[6], ExpenseIcon::Other);
    assert_eq!(ExpenseIcon::Food.label(), "Food");
    assert_eq!(ExpenseIcon::Entertainment.label(), "Entertainment");
    assert_eq!(ExpenseIcon::Other.label(), "Other");
}
