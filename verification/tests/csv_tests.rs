use splitmoney::csv::{
    collect_import, csv_table, export_rows, export_state_csv, finish_import, json_cells, CsvTable,
    ExpenseJson, ImportSummary, RowJson,
};
use splitmoney::model::{AppState, ExpenseIcon, NewExpenseInput, NewSettlementInput, Share};

const A: u128 = 0x11111111_1111_4111_8111_111111111111;
const B: u128 = 0x22222222_2222_4222_8222_222222222222;
const C: u128 = 0x33333333_3333_4333_8333_333333333333;
const A_TEXT: &str = "11111111-1111-4111-8111-111111111111";
const B_TEXT: &str = "22222222-2222-4222-8222-222222222222";
const C_TEXT: &str = "33333333-3333-4333-8333-333333333333";
const E_TEXT: &str = "44444444-4444-4444-8444-444444444444";
const S_TEXT: &str = "55555555-5555-4555-8555-555555555555";
const HEADER: &str = "record_type,record_id,created_at,participant_id,participant_name,participant_active,title,icon,payer_id,total_cents,currency,shares_json,from_id,to_id,amount_cents,note";

fn icon_from_json(text: &str) -> Option<ExpenseIcon> {
    match serde_json::from_str::<serde_json::Value>(text).ok()?.as_str()? {
        "food" => Some(ExpenseIcon::Food),
        "transport" => Some(ExpenseIcon::Transport),
        "home" => Some(ExpenseIcon::Home),
        "drinks" => Some(ExpenseIcon::Drinks),
        "shopping" => Some(ExpenseIcon::Shopping),
        "entertainment" => Some(ExpenseIcon::Entertainment),
        "other" => Some(ExpenseIcon::Other),
        _ => None,
    }
}

fn shares_from_json(text: &str) -> Result<Vec<Share>, String> {
    let value: serde_json::Value = serde_json::from_str(text).map_err(|e| e.to_string())?;
    let items = value.as_array().ok_or_else(|| "not a list".to_string())?;
    let mut out = Vec::new();
    for item in items {
        let id = item["participant_id"].as_str().ok_or_else(|| "no id".to_string())?;
        let id = uuid::Uuid::parse_str(id).map_err(|e| e.to_string())?.as_u128();
        let amount = item["amount_cents"].as_i64().ok_or_else(|| "no amount".to_string())?;
        out.push(Share { participant_id: id, amount_cents: amount });
    }
    Ok(out)
}

fn parsed_json(table: &CsvTable) -> Vec<RowJson> {
    json_cells(table)
        .iter()
        .map(|c| RowJson { icon: icon_from_json(&c.icon), shares: shares_from_json(&c.shares) })
        .collect()
}

fn import(payload: &str) -> Result<(AppState, ImportSummary), String> {
    let table = csv_table(payload);
    let json = parsed_json(&table);
    let draft = collect_import(&table, &json)?;
    assert!(draft.fits());
    Ok(finish_import(draft))
}

fn sample() -> String {
    let shares = format!(
        "\"[{{\"\"participant_id\"\":\"\"{A_TEXT}\"\",\"\"amount_cents\"\":33}},{{\"\"participant_id\"\":\"\"{B_TEXT}\"\",\"\"amount_cents\"\":33}},{{\"\"participant_id\"\":\"\"{C_TEXT}\"\",\"\"amount_cents\"\":33}}]\""
    );
    format!(
        "{HEADER}\nparticipant,,,{A_TEXT},Ann,true,,,,,,,,,,\nparticipant,,,{B_TEXT}, bob ,NO,,,,,,,,,,\n\n,ignored\nexpense,{E_TEXT},5,,,,Dinner,FOOD,{A_TEXT},100,eur,{shares},,,,\nSETTLEMENT,{S_TEXT},7,,,,,,,,usd,,{B_TEXT},{A_TEXT},50, thanks \nunknown,x\n"
    )
}

#[test]
fn imports_a_full_file() {
    let (st, summary) = import(&sample()).unwrap();
    assert_eq!(summary, ImportSummary { participants: 3, expenses: 1, settlements: 1 });
    let names: Vec<&str> = st.participants.iter().map(|p| p.name.as_str()).collect();
    assert_eq!(names, vec!["Ann", "bob", "Imported 33333333"]);
    assert!(st.participants[0].is_active);
    assert!(!st.participants[1].is_active);
    assert_eq!(st.participants[2].id, C);
    let e = &st.expenses[0];
    assert_eq!(e.title, "Dinner");
    assert_eq!(e.icon, ExpenseIcon::Food);
    assert_eq!(e.currency, "EUR");
    assert_eq!(e.created_at, 5);
    assert_eq!(
        e.shares,
        vec![
            Share { participant_id: A, amount_cents: 33 },
            Share { participant_id: B, amount_cents: 33 },
            Share { participant_id: C, amount_cents: 34 },
        ]
    );
    let s = &st.settlements[0];
    assert_eq!((s.from_id, s.to_id, s.amount_cents), (B, A, 50));
    assert_eq!(s.note, "thanks");
    assert_eq!(s.currency, "USD");
    assert_eq!(st.last_currency, "EUR");
    assert_eq!(summary.message(), "Imported 3 participants, 1 expenses, 1 settlements.");
}

#[test]
fn the_reader_splits_quoted_fields() {
    let t = csv_table("a,b\n\" x , y \",2\n");
    assert_eq!(t.headers, Ok(vec!["a".to_string(), "b".to_string()]));
    assert_eq!(t.records.len(), 1);
    assert_eq!(t.records[0], Ok(vec!["x , y".to_string(), "2".to_string()]));
}

#[test]
fn import_needs_a_record_type_column() {
    assert_eq!(import("kind,name\nparticipant,Ann\n").unwrap_err(), "CSV header must include 'record_type'.");
}

#[test]
fn import_reports_row_problems() {
    let p = format!("{HEADER}\nparticipant,,,not-a-uuid,Ann,,,,,,,,,,,\n");
    assert_eq!(import(&p).unwrap_err(), "CSV row 2 has invalid UUID in 'participant_id'.");
    let p = format!("{HEADER}\nparticipant,,,,Ann,,,,,,,,,,,\n");
    assert_eq!(import(&p).unwrap_err(), "CSV row 2 is missing 'participant_id'.");
    let p = format!("{HEADER}\nparticipant,,,{A_TEXT},,,,,,,,,,,,\n");
    assert_eq!(import(&p).unwrap_err(), "CSV row 2 has empty participant_name.");
    let p = format!("{HEADER}\nparticipant,,,{A_TEXT},Ann,maybe,,,,,,,,,,\n");
    assert_eq!(import(&p).unwrap_err(), "CSV row 2 has invalid participant_active value.");
    let p = format!("{HEADER}\nexpense,{E_TEXT},,,,,Lunch,spaceship,{A_TEXT},100,,,,,,\n");
    assert_eq!(import(&p).unwrap_err(), "CSV row 2 has invalid icon value 'spaceship'.");
    let p = format!("{HEADER}\nexpense,{E_TEXT},,,,,Lunch,,{A_TEXT},0,,,,,,\n");
    assert_eq!(import(&p).unwrap_err(), "CSV row 2 total_cents must be positive.");
    let p = format!("{HEADER}\nexpense,{E_TEXT},,,,,Lunch,,{A_TEXT},abc,,,,,,\n");
    assert_eq!(import(&p).unwrap_err(), "CSV row 2 has invalid integer in 'total_cents'.");
    let p = format!("{HEADER}\nexpense,{E_TEXT},soon,,,,Lunch,,{A_TEXT},100,,,,,,\n");
    assert_eq!(import(&p).unwrap_err(), "CSV has invalid integer in 'created_at'.");
    let p = format!("{HEADER}\nexpense,{E_TEXT},,,,,Lunch,,{A_TEXT},100,,,,,,\n");
    assert_eq!(import(&p).unwrap_err(), "CSV row 2 has no shares.");
    let p = format!("{HEADER}\nexpense,{E_TEXT},,,,, ,,{A_TEXT},100,,,,,,\n");
    assert_eq!(import(&p).unwrap_err(), "CSV row 2 has empty expense title.");
    let p = format!("{HEADER}\nexpense,{E_TEXT},,,,,Lunch,,{A_TEXT},100,,oops,,,,\n");
    assert!(import(&p).unwrap_err().starts_with("CSV row 2 has invalid shares_json: "));
    let neg = format!("\"[{{\"\"participant_id\"\":\"\"{A_TEXT}\"\",\"\"amount_cents\"\":-1}}]\"");
    let p = format!("{HEADER}\nexpense,{E_TEXT},,,,,Lunch,,{A_TEXT},100,,{neg},,,,\n");
    assert_eq!(import(&p).unwrap_err(), "CSV row 2 has a negative share amount.");
    let p = format!("{HEADER}\nsettlement,{S_TEXT},,,,,,,,,,,{A_TEXT},{A_TEXT},5,\n");
    assert_eq!(import(&p).unwrap_err(), "CSV row 2 has identical from_id and to_id values.");
    let p = format!("{HEADER}\nsettlement,{S_TEXT},,,,,,,,,,,{A_TEXT},{B_TEXT},-5,\n");
    assert_eq!(import(&p).unwrap_err(), "CSV row 2 amount_cents must be positive.");
    let p = format!(
        "{HEADER}\nsettlement,{S_TEXT},,,,,,,,,,,{A_TEXT},{B_TEXT},5,\nsettlement,{S_TEXT},,,,,,,,,,,{A_TEXT},{B_TEXT},5,\n"
    );
    assert_eq!(import(&p).unwrap_err(), "CSV row 3 has duplicate record_id.");
}

#[test]
fn later_participant_rows_replace_earlier_ones() {
    let p = format!("{HEADER}\nparticipant,,,{A_TEXT},Ann,,,,,,,,,,,\nparticipant,,,{A_TEXT},Anna,0,,,,,,,,,,\n");
    let (st, summary) = import(&p).unwrap();
    assert_eq!(summary.participants, 1);
    assert_eq!(st.participants[0].name, "Anna");
    assert!(!st.participants[0].is_active);
    assert_eq!(st.last_currency, "USD");
}

fn exported_state() -> AppState {
    let mut st = AppState::default();
    st.add_participant_with_id("Ann".to_string(), A).unwrap();
    st.add_participant_with_id("Bob".to_string(), B).unwrap();
    st.set_participant_active(B, false).unwrap();
    let input = NewExpenseInput {
        title: "Dinner, late".to_string(),
        icon: ExpenseIcon::Drinks,
        payer_id: A,
        total_cents: 250,
        currency: "eur".to_string(),
        created_at: Some(9),
        shares: vec![Share { participant_id: A, amount_cents: 125 }, Share { participant_id: B, amount_cents: 125 }],
    };
    st.add_expense_with(input, 0x44444444_4444_4444_8444_444444444444, 9).unwrap();
    let pay = NewSettlementInput {
        from_id: B,
        to_id: A,
        amount_cents: 125,
        currency: "eur".to_string(),
        created_at: Some(11),
        note: "cash".to_string(),
    };
    st.add_settlement_with(pay, 0x55555555_5555_4555_8555_555555555555, 11).unwrap();
    st
}

#[test]
fn exports_every_record() {
    let st = exported_state();
    let json = vec![ExpenseJson { icon: Ok("\"drinks\"".to_string()), shares: Ok("[1]".to_string()) }];
    let rows = export_rows(&st, &json).unwrap();
    assert_eq!(rows.len(), 5);
    assert_eq!(rows[0].join(","), HEADER);
    assert_eq!(rows[1], vec!["participant", "", "", A_TEXT, "Ann", "true", "", "", "", "", "", "", "", "", "", ""]);
    assert_eq!(rows[2][5], "false");
    assert_eq!(
        rows[3],
        vec!["expense", E_TEXT, "9", "", "", "", "Dinner, late", "drinks", A_TEXT, "250", "EUR", "[1]", "", "", "", ""]
    );
    assert_eq!(
        rows[4],
        vec!["settlement", S_TEXT, "11", "", "", "", "", "", "", "", "EUR", "", B_TEXT, A_TEXT, "125", "cash"]
    );
    let text = export_state_csv(&st, &json).unwrap();
    let expected = format!(
        "{HEADER}\nparticipant,,,{A_TEXT},Ann,true,,,,,,,,,,\nparticipant,,,{B_TEXT},Bob,false,,,,,,,,,,\nexpense,{E_TEXT},9,,,,\"Dinner, late\",drinks,{A_TEXT},250,EUR,[1],,,,\nsettlement,{S_TEXT},11,,,,,,,,EUR,,{B_TEXT},{A_TEXT},125,cash\n"
    );
    assert_eq!(text, expected);
}

#[test]
fn export_reports_serializer_errors() {
    let st = exported_state();
    let bad_shares = vec![ExpenseJson { icon: Ok("\"x\"".to_string()), shares: Err("boom".to_string()) }];
    assert_eq!(export_state_csv(&st, &bad_shares).unwrap_err(), "Failed to serialize expense shares: boom");
    let bad_icon = vec![ExpenseJson { icon: Err("bang".to_string()), shares: Ok("[]".to_string()) }];
    assert_eq!(export_rows(&st, &bad_icon).unwrap_err(), "Failed to serialize expense icon: bang");
}

#[test]
fn exported_text_imports_back() {
    let st = exported_state();
    let shares = format!(
        "[{{\"participant_id\":\"{A_TEXT}\",\"amount_cents\":125}},{{\"participant_id\":\"{B_TEXT}\",\"amount_cents\":125}}]"
    );
    let json = vec![ExpenseJson { icon: Ok("\"drinks\"".to_string()), shares: Ok(shares) }];
    let text = export_state_csv(&st, &json).unwrap();
    let (back, summary) = import(&text).unwrap();
    assert_eq!(summary, ImportSummary { participants: 2, expenses: 1, settlements: 1 });
    assert_eq!(back.participants, st.participants);
    assert_eq!(back.expenses, st.expenses);
    assert_eq!(back.settlements, st.settlements);
}

#[test]
fn exports_a_single_participant_exactly() {
    let mut st = AppState::default();
    st.participants.push(splitmoney::model::Participant { id: 1, name: "Alice".to_string(), is_active: false });
    let text = export_state_csv(&st, &vec![]).unwrap();
    assert_eq!(
        text,
        format!("{HEADER}\nparticipant,,,00000000-0000-0000-0000-000000000001,Alice,false,,,,,,,,,,\n")
    );
}
