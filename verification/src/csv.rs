//! The CSV exchange format: one file of participant, expense and settlement
//! rows, read and written with the `csv` crate. The JSON that some cells
//! hold (the expense icon and the list of shares) is turned into values by
//! the caller; this module frames it.
use crate::ids::{id_prefix, id_to_string, uuid_parsed, parse_id, uuid_text};
use crate::model::{
    AppState, Expense, ExpenseIcon, ExpenseView, Participant, ParticipantView, Settlement,
    SettlementView, Share, StateView, participants_view, expenses_view, settlements_view,
};
use crate::money::{currency_code, normalize_currency, normalize_expense_title};
use crate::state::{
    lemma_share_sum_push, lemma_nonneg_shares, share_sum, adjust_shares_to_total, adjusted, adjust_fits,
    lemma_last_max_index, law_adjusted_shares_sum, last_max_index,
    find_participant, first_index, has_participant, lemma_first_index_at, participant_exists,
    participant_index,
};
use crate::normalize::{
    import_adjust_fits, keep, known_shares, name_order, normalized_state, sort_by_lowercase_name,
};
use crate::sorting::{lemma_stable_sort_contains, stable_sort};
use crate::balance_laws::ids_unique;
use crate::text::{
    chars_of, int_text, int_to_string, is_blank, lit, lowercase_of, parse_i64, parse_i64_spec,
    to_lowercase, trim, trimmed,
};
use vstd::prelude::*;
use vstd::utf8::{decode_utf8, valid_utf8};

verus! {

/// The column names of the format, in order.
pub open spec fn csv_headers() -> Seq<Seq<char>> {
    seq![
        "record_type"@,
        "record_id"@,
        "created_at"@,
        "participant_id"@,
        "participant_name"@,
        "participant_active"@,
        "title"@,
        "icon"@,
        "payer_id"@,
        "total_cents"@,
        "currency"@,
        "shares_json"@,
        "from_id"@,
        "to_id"@,
        "amount_cents"@,
        "note"@,
    ]
}

/// How many records of each kind an import brought.
#[derive(Clone, Debug, PartialEq, Eq, Structural)]
pub struct ImportSummary {
    pub participants: usize,
    pub expenses: usize,
    pub settlements: usize,
}

/// A file as the `csv` reader sees it: the header record (or the reader's
/// error) and every later record (or the reader's error for it), each field
/// trimmed.
pub struct CsvTable {
    pub headers: Result<Vec<String>, String>,
    pub records: Vec<Result<Vec<String>, String>>,
}

pub open spec fn strings_view(v: Seq<String>) -> Seq<Seq<char>> {
    v.map_values(|s: String| s@)
}

pub open spec fn record_view(r: Result<Vec<String>, String>) -> Result<Seq<Seq<char>>, Seq<char>> {
    match r {
        Ok(v) => Ok(strings_view(v@)),
        Err(e) => Err(e@),
    }
}

impl CsvTable {
    pub open spec fn headers_view(&self) -> Result<Seq<Seq<char>>, Seq<char>> {
        record_view(self.headers)
    }

    pub open spec fn records_view(&self) -> Seq<Result<Seq<Seq<char>>, Seq<char>>> {
        self.records@.map_values(|r: Result<Vec<String>, String>| record_view(r))
    }
}

/// What the `csv` reader, trimming every field and accepting records of any
/// length, yields for a text: the header record and the later records.
pub uninterp spec fn csv_parsed(payload: Seq<char>) -> (
    Result<Seq<Seq<char>>, Seq<char>>,
    Seq<Result<Seq<Seq<char>>, Seq<char>>>,
);

/// Reads `payload` with `csv::ReaderBuilder` (`Trim::All`, flexible): the
/// header record and every later record, errors as their messages. The
/// result is `csv_parsed` of the text.
#[verifier::external_body]
fn read_csv(payload: &str) -> (t: CsvTable)
    ensures
        (t.headers_view(), t.records_view()) == csv_parsed(payload@),
{
    let mut reader = ::csv::ReaderBuilder::new().trim(::csv::Trim::All).flexible(true).from_reader(
        payload.as_bytes(),
    );
    let headers = reader.headers().map(|h| h.iter().map(String::from).collect()).map_err(
        |e| e.to_string(),
    );
    let records = reader.records().map(
        |r| r.map(|rec| rec.iter().map(String::from).collect()).map_err(|e| e.to_string()),
    ).collect();
    CsvTable { headers, records }
}

/// The records of a CSV text.
pub fn csv_table(payload: &str) -> (t: CsvTable)
    ensures
        (t.headers_view(), t.records_view()) == csv_parsed(payload@),
{
    read_csv(payload)
}


/// The position of the first header named `name`.
pub open spec fn header_pos(headers: Seq<Seq<char>>, name: Seq<char>) -> Option<int> {
    first_index(headers, |h: Seq<char>| h == name)
}

/// The field of `row` under the first header named `name`, empty when there
/// is none.
pub open spec fn field_of(headers: Seq<Seq<char>>, row: Seq<Seq<char>>, name: Seq<char>) -> Seq<char> {
    match header_pos(headers, name) {
        Some(i) => if i < row.len() {
            row[i]
        } else {
            Seq::empty()
        },
        None => Seq::empty(),
    }
}

/// A message about row `n`.
pub open spec fn row_msg(n: int, tail: Seq<char>) -> Seq<char> {
    "CSV row "@ + int_text(n) + tail
}

/// The identifier in a field, or why there is none.
pub open spec fn uuid_field(headers: Seq<Seq<char>>, row: Seq<Seq<char>>, name: Seq<char>, n: int) -> Result<
    u128,
    Seq<char>,
> {
    let raw = trimmed(field_of(headers, row, name));
    if raw.len() == 0 {
        Err(row_msg(n, " is missing '"@ + name + "'."@))
    } else {
        match uuid_parsed(raw) {
            Some(v) => Ok(v),
            None => Err(row_msg(n, " has invalid UUID in '"@ + name + "'."@)),
        }
    }
}

/// The integer in a field, or why there is none.
pub open spec fn int_field(headers: Seq<Seq<char>>, row: Seq<Seq<char>>, name: Seq<char>, n: int) -> Result<
    int,
    Seq<char>,
> {
    match parse_i64_spec(trimmed(field_of(headers, row, name))) {
        Some(v) => Ok(v),
        None => Err(row_msg(n, " has invalid integer in '"@ + name + "'."@)),
    }
}

/// The integer in a field, zero when it is blank.
pub open spec fn int_or_zero(headers: Seq<Seq<char>>, row: Seq<Seq<char>>, name: Seq<char>) -> Result<
    int,
    Seq<char>,
> {
    let raw = trimmed(field_of(headers, row, name));
    if raw.len() == 0 {
        Ok(0)
    } else {
        match parse_i64_spec(raw) {
            Some(v) => Ok(v),
            None => Err("CSV has invalid integer in '"@ + name + "'."@),
        }
    }
}

/// What the caller parsed from the JSON cells of one record: the icon, if
/// the icon text names one, and the shares, or the parser's message.
pub struct RowJson {
    pub icon: Option<ExpenseIcon>,
    pub shares: Result<Vec<Share>, String>,
}

pub struct RowJsonView {
    pub icon: Option<ExpenseIcon>,
    pub shares: Result<Seq<Share>, Seq<char>>,
}

impl View for RowJson {
    type V = RowJsonView;

    open spec fn view(&self) -> RowJsonView {
        RowJsonView {
            icon: self.icon,
            shares: match self.shares {
                Ok(v) => Ok(v@),
                Err(e) => Err(e@),
            },
        }
    }
}

/// What an import has gathered so far.
pub struct Gathered {
    pub participants: Seq<ParticipantView>,
    pub expenses: Seq<ExpenseView>,
    pub settlements: Seq<SettlementView>,
    pub seen: Seq<u128>,
}

/// The participant added or replaced.
pub open spec fn upsert(ps: Seq<ParticipantView>, p: ParticipantView) -> Seq<ParticipantView> {
    match participant_index(ps, p.id) {
        Some(i) => ps.update(i, p),
        None => ps.push(p),
    }
}

/// The stand-in for a participant that a record names but no row lists.
pub open spec fn placeholder(id: u128) -> ParticipantView {
    ParticipantView { id, name: "Imported "@ + uuid_text(id).subrange(0, 8), is_active: true }
}

/// `ps` with a stand-in for `id` unless it lists `id`.
pub open spec fn ensure_listed(ps: Seq<ParticipantView>, id: u128) -> Seq<ParticipantView> {
    if has_participant(ps, id) {
        ps
    } else {
        ps.push(placeholder(id))
    }
}

/// `ps` with stand-ins for the participants of every share.
pub open spec fn ensure_shares_listed(ps: Seq<ParticipantView>, shares: Seq<Share>) -> Seq<ParticipantView>
    decreases shares.len(),
{
    if shares.len() == 0 {
        ps
    } else {
        ensure_listed(ensure_shares_listed(ps, shares.drop_last()), shares.last().participant_id)
    }
}

/// Reads a participant row.
pub open spec fn participant_row(g: Gathered, h: Seq<Seq<char>>, row: Seq<Seq<char>>, n: int) -> Result<
    Gathered,
    Seq<char>,
> {
    match uuid_field(h, row, "participant_id"@, n) {
        Err(e) => Err(e),
        Ok(pid) => {
            let name = trimmed(field_of(h, row, "participant_name"@));
            let a = lowercase_of(trimmed(field_of(h, row, "participant_active"@)));
            if name.len() == 0 {
                Err(row_msg(n, " has empty participant_name."@))
            } else if a.len() == 0 || a == "1"@ || a == "true"@ || a == "yes"@ {
                Ok(Gathered { participants: upsert(g.participants, ParticipantView { id: pid, name, is_active: true }), ..g })
            } else if a == "0"@ || a == "false"@ || a == "no"@ {
                Ok(Gathered { participants: upsert(g.participants, ParticipantView { id: pid, name, is_active: false }), ..g })
            } else {
                Err(row_msg(n, " has invalid participant_active value."@))
            }
        },
    }
}

/// The shares of an expense row, or why there are none.
pub open spec fn row_shares(h: Seq<Seq<char>>, row: Seq<Seq<char>>, json: RowJsonView, n: int) -> Result<
    Seq<Share>,
    Seq<char>,
> {
    if trimmed(field_of(h, row, "shares_json"@)).len() == 0 {
        Ok(Seq::empty())
    } else {
        match json.shares {
            Ok(s) => Ok(s),
            Err(e) => Err(row_msg(n, " has invalid shares_json: "@ + e)),
        }
    }
}

/// The icon of an expense row: `Other` when blank.
pub open spec fn row_icon(h: Seq<Seq<char>>, row: Seq<Seq<char>>, json: RowJsonView) -> Option<ExpenseIcon> {
    if trimmed(field_of(h, row, "icon"@)).len() == 0 {
        Some(ExpenseIcon::Other)
    } else {
        json.icon
    }
}

/// Reads the rest of an expense row, after its identifier and title.
pub open spec fn expense_row_rest(
    g: Gathered,
    h: Seq<Seq<char>>,
    row: Seq<Seq<char>>,
    json: RowJsonView,
    n: int,
    id: u128,
    title: Seq<char>,
    icon: ExpenseIcon,
) -> Result<Gathered, Seq<char>> {
    match uuid_field(h, row, "payer_id"@, n) {
        Err(e) => Err(e),
        Ok(payer) => match int_field(h, row, "total_cents"@, n) {
            Err(e) => Err(e),
            Ok(total) => if total <= 0 {
                Err(row_msg(n, " total_cents must be positive."@))
            } else {
                match int_or_zero(h, row, "created_at"@) {
                    Err(e) => Err(e),
                    Ok(created) => match row_shares(h, row, json, n) {
                        Err(e) => Err(e),
                        Ok(sh) => if sh.len() == 0 {
                            Err(row_msg(n, " has no shares."@))
                        } else if exists|k: int| 0 <= k < sh.len() && #[trigger] sh[k].amount_cents < 0 {
                            Err(row_msg(n, " has a negative share amount."@))
                        } else {
                            Ok(Gathered {
                                participants: ensure_shares_listed(ensure_listed(g.participants, payer), sh),
                                expenses: g.expenses.push(ExpenseView {
                                    id,
                                    title,
                                    icon,
                                    payer_id: payer,
                                    total_cents: total as i64,
                                    currency: currency_code(field_of(h, row, "currency"@)),
                                    created_at: created as i64,
                                    shares: sh,
                                }),
                                seen: g.seen.push(id),
                                ..g
                            })
                        },
                    },
                }
            },
        },
    }
}

/// Reads an expense row.
pub open spec fn expense_row(g: Gathered, h: Seq<Seq<char>>, row: Seq<Seq<char>>, json: RowJsonView, n: int) -> Result<
    Gathered,
    Seq<char>,
> {
    match uuid_field(h, row, "record_id"@, n) {
        Err(e) => Err(e),
        Ok(id) => if g.seen.contains(id) {
            Err(row_msg(n, " has duplicate record_id."@))
        } else {
            let title = trimmed(field_of(h, row, "title"@));
            if title.len() == 0 {
                Err(row_msg(n, " has empty expense title."@))
            } else {
                match row_icon(h, row, json) {
                    None => Err(row_msg(n, " has invalid icon value '"@ + field_of(h, row, "icon"@) + "'."@)),
                    Some(icon) => expense_row_rest(g, h, row, json, n, id, title, icon),
                }
            }
        },
    }
}

/// Reads a settlement row.
pub open spec fn settlement_row(g: Gathered, h: Seq<Seq<char>>, row: Seq<Seq<char>>, n: int) -> Result<
    Gathered,
    Seq<char>,
> {
    match uuid_field(h, row, "record_id"@, n) {
        Err(e) => Err(e),
        Ok(id) => if g.seen.contains(id) {
            Err(row_msg(n, " has duplicate record_id."@))
        } else {
            match uuid_field(h, row, "from_id"@, n) {
                Err(e) => Err(e),
                Ok(from) => match uuid_field(h, row, "to_id"@, n) {
                    Err(e) => Err(e),
                    Ok(to) => match int_field(h, row, "amount_cents"@, n) {
                        Err(e) => Err(e),
                        Ok(amount) => if amount <= 0 {
                            Err(row_msg(n, " amount_cents must be positive."@))
                        } else if from == to {
                            Err(row_msg(n, " has identical from_id and to_id values."@))
                        } else {
                            match int_or_zero(h, row, "created_at"@) {
                                Err(e) => Err(e),
                                Ok(created) => Ok(Gathered {
                                    participants: ensure_listed(ensure_listed(g.participants, from), to),
                                    settlements: g.settlements.push(SettlementView {
                                        id,
                                        from_id: from,
                                        to_id: to,
                                        amount_cents: amount as i64,
                                        currency: currency_code(field_of(h, row, "currency"@)),
                                        created_at: created as i64,
                                        note: trimmed(field_of(h, row, "note"@)),
                                    }),
                                    seen: g.seen.push(id),
                                    ..g
                                }),
                            }
                        },
                    },
                },
            }
        },
    }
}

/// The kind of a row: its `record_type` field, trimmed and lower-cased.
pub open spec fn row_kind(row: Seq<Seq<char>>, rt: int) -> Seq<char> {
    lowercase_of(trimmed(if 0 <= rt < row.len() { row[rt] } else { Seq::empty() }))
}

/// Reads one row; rows of an unknown or blank kind are skipped.
pub open spec fn import_row(g: Gathered, h: Seq<Seq<char>>, rt: int, row: Seq<Seq<char>>, json: RowJsonView, n: int) -> Result<
    Gathered,
    Seq<char>,
> {
    let kind = row_kind(row, rt);
    if kind.len() == 0 {
        Ok(g)
    } else if kind == "participant"@ {
        participant_row(g, h, row, n)
    } else if kind == "expense"@ {
        expense_row(g, h, row, json, n)
    } else if kind == "settlement"@ {
        settlement_row(g, h, row, n)
    } else {
        Ok(g)
    }
}

/// Nothing gathered.
pub open spec fn nothing_gathered() -> Gathered {
    Gathered {
        participants: Seq::empty(),
        expenses: Seq::empty(),
        settlements: Seq::empty(),
        seen: Seq::empty(),
    }
}

/// Reads the records in order, stopping at the first problem; record `k` is
/// row `k + 2` of the file.
pub open spec fn import_records(
    h: Seq<Seq<char>>,
    rt: int,
    records: Seq<Result<Seq<Seq<char>>, Seq<char>>>,
    json: Seq<RowJsonView>,
) -> Result<Gathered, Seq<char>>
    decreases records.len(),
{
    if records.len() == 0 {
        Ok(nothing_gathered())
    } else {
        match import_records(h, rt, records.drop_last(), json) {
            Err(e) => Err(e),
            Ok(g) => {
                let k = records.len() - 1;
                match records.last() {
                    Err(e) => Err(row_msg(k + 2, " is invalid: "@ + e)),
                    Ok(row) => import_row(g, h, rt, row, json[k], k + 2),
                }
            },
        }
    }
}

/// Reads a whole table.
pub open spec fn import_table(
    headers: Result<Seq<Seq<char>>, Seq<char>>,
    records: Seq<Result<Seq<Seq<char>>, Seq<char>>>,
    json: Seq<RowJsonView>,
) -> Result<Gathered, Seq<char>> {
    match headers {
        Err(e) => Err("Failed to read CSV header: "@ + e),
        Ok(h) => match header_pos(h, "record_type"@) {
            None => Err("CSV header must include 'record_type'."@),
            Some(rt) => import_records(h, rt, records, json),
        },
    }
}


/// The position of the first header named `name`.
fn header_index(headers: &Vec<String>, name: &str) -> (r: Option<usize>)
    ensures
        match header_pos(strings_view(headers@), name@) {
            Some(i) => 0 <= i < headers.len() && r == Some(i as usize),
            None => r is None,
        },
{
    let ghost hv = strings_view(headers@);
    let ghost p = |h: Seq<char>| h == name@;
    let target = lit(name);
    for i in 0..headers.len()
        invariant
            hv == strings_view(headers@),
            p == (|h: Seq<char>| h == name@),
            target@ == name@,
            forall|k: int| 0 <= k < i ==> !p(#[trigger] hv[k]),
    {
        if headers[i] == target {
            proof {
                lemma_first_index_at(hv, p, i as int);
            }
            return Some(i);
        }
    }
    proof {
        lemma_first_index_at(hv, p, hv.len() as int);
    }
    None
}

/// The field of `row` under the first header named `name`.
fn get_field(headers: &Vec<String>, row: &Vec<String>, name: &str) -> (r: String)
    ensures
        r@ == field_of(strings_view(headers@), strings_view(row@), name@),
{
    let ghost rv = strings_view(row@);
    match header_index(headers, name) {
        Some(i) => if i < row.len() {
            assert(rv[i as int] == row@[i as int]@);
            row[i].clone()
        } else {
            String::new()
        },
        None => String::new(),
    }
}

/// `CSV row {n}` followed by `tail`.
fn row_message(n: usize, tail: &str) -> (r: String)
    ensures
        r@ == row_msg(n as int, tail@),
{
    let mut m = lit("CSV row ");
    let num = int_to_string(n as i128);
    m.append(num.as_str());
    m.append(tail);
    m
}

/// `CSV row {n}` followed by `a`, `name` and `b`.
fn row_message_named(n: usize, a: &str, name: &str, b: &str) -> (r: String)
    ensures
        r@ == row_msg(n as int, a@ + name@ + b@),
{
    let mut m = row_message(n, a);
    m.append(name);
    m.append(b);
    assert(m@ =~= row_msg(n as int, a@ + name@ + b@));
    m
}

fn parse_uuid_field(h: &Vec<String>, row: &Vec<String>, name: &str, n: usize) -> (r: Result<u128, String>)
    ensures
        match uuid_field(strings_view(h@), strings_view(row@), name@, n as int) {
            Ok(v) => r == Ok::<u128, String>(v),
            Err(e) => r matches Err(m) && m@ == e,
        },
{
    let raw = get_field(h, row, name);
    let t = trim(raw.as_str());
    if t.as_str().is_empty() {
        return Err(row_message_named(n, " is missing '", name, "'."));
    }
    match parse_id(t.as_str()) {
        Some(v) => Ok(v),
        None => Err(row_message_named(n, " has invalid UUID in '", name, "'.")),
    }
}

fn parse_i64_field(h: &Vec<String>, row: &Vec<String>, name: &str, n: usize) -> (r: Result<i64, String>)
    ensures
        match int_field(strings_view(h@), strings_view(row@), name@, n as int) {
            Ok(v) => r == Ok::<i64, String>(v as i64) && i64::MIN <= v <= i64::MAX,
            Err(e) => r matches Err(m) && m@ == e,
        },
{
    let raw = get_field(h, row, name);
    let t = trim(raw.as_str());
    match parse_i64(&chars_of(t.as_str())) {
        Some(v) => Ok(v),
        None => Err(row_message_named(n, " has invalid integer in '", name, "'.")),
    }
}

fn parse_i64_or_default(h: &Vec<String>, row: &Vec<String>, name: &str) -> (r: Result<i64, String>)
    ensures
        match int_or_zero(strings_view(h@), strings_view(row@), name@) {
            Ok(v) => r == Ok::<i64, String>(v as i64) && i64::MIN <= v <= i64::MAX,
            Err(e) => r matches Err(m) && m@ == e,
        },
{
    let raw = get_field(h, row, name);
    let t = trim(raw.as_str());
    if t.as_str().is_empty() {
        return Ok(0);
    }
    match parse_i64(&chars_of(t.as_str())) {
        Some(v) => Ok(v),
        None => {
            let mut m = lit("CSV has invalid integer in '");
            m.append(name);
            m.append("'.");
            Err(m)
        },
    }
}

/// Records gathered from a file, before clean-up.
pub struct ImportDraft {
    pub participants: Vec<Participant>,
    pub expenses: Vec<Expense>,
    pub settlements: Vec<Settlement>,
    seen: Vec<u128>,
}

impl View for ImportDraft {
    type V = Gathered;

    closed spec fn view(&self) -> Gathered {
        Gathered {
            participants: participants_view(self.participants@),
            expenses: expenses_view(self.expenses@),
            settlements: settlements_view(self.settlements@),
            seen: self.seen@,
        }
    }
}

/// The stand-in participant for `id`.
fn placeholder_participant(id: u128) -> (p: Participant)
    ensures
        p@ == placeholder(id),
{
    let mut name = lit("Imported ");
    let prefix = crate::text::string_from_chars(&id_prefix(id));
    name.append(prefix.as_str());
    Participant { id, name, is_active: true }
}

fn ensure_listed_exec(ps: &mut Vec<Participant>, id: u128)
    ensures
        participants_view(final(ps)@) == ensure_listed(participants_view(old(ps)@), id),
{
    if !participant_exists(ps, id) {
        let p = placeholder_participant(id);
        let ghost pv = p@;
        ps.push(p);
        assert(participants_view(ps@) =~= participants_view(old(ps)@).push(pv));
    }
}

fn upsert_exec(ps: &mut Vec<Participant>, p: Participant)
    ensures
        participants_view(final(ps)@) == upsert(participants_view(old(ps)@), p@),
{
    let ghost pv = p@;
    let ghost old_v = participants_view(ps@);
    match find_participant(ps, p.id) {
        Some(i) => {
            ps.set(i, p);
            assert(participants_view(ps@) =~= old_v.update(i as int, pv));
        },
        None => {
            ps.push(p);
            assert(participants_view(ps@) =~= old_v.push(pv));
        },
    }
}


/// Whether a step's outcome agrees with what the format says.
pub open spec fn step_agrees(r: Result<(), String>, after: Gathered, expected: Result<Gathered, Seq<char>>) -> bool {
    match expected {
        Ok(g) => r is Ok && after == g,
        Err(e) => r matches Err(m) && m@ == e,
    }
}

fn participant_row_exec(d: &mut ImportDraft, h: &Vec<String>, row: &Vec<String>, n: usize) -> (r: Result<(), String>)
    ensures
        step_agrees(r, final(d)@, participant_row(old(d)@, strings_view(h@), strings_view(row@), n as int)),
{
    let ghost hv = strings_view(h@);
    let ghost rv = strings_view(row@);
    let pid = match parse_uuid_field(h, row, "participant_id", n) {
        Ok(v) => v,
        Err(e) => {
            return Err(e);
        },
    };
    let name_raw = get_field(h, row, "participant_name");
    let name = trim(name_raw.as_str());
    let active_raw = get_field(h, row, "participant_active");
    let active_trim = trim(active_raw.as_str());
    let a = to_lowercase(active_trim.as_str());
    if name.as_str().is_empty() {
        return Err(row_message(n, " has empty participant_name."));
    }
    let is_active = if a.as_str().is_empty() || a == lit("1") || a == lit("true") || a == lit("yes") {
        true
    } else if a == lit("0") || a == lit("false") || a == lit("no") {
        false
    } else {
        return Err(row_message(n, " has invalid participant_active value."));
    };
    let p = Participant { id: pid, name, is_active };
    let ghost before = d@;
    upsert_exec(&mut d.participants, p);
    assert(d@ == Gathered { participants: upsert(before.participants, p@), ..before });
    Ok(())
}

/// Whether any share is negative.
fn has_negative(shares: &Vec<Share>) -> (r: bool)
    ensures
        r == exists|k: int| 0 <= k < shares@.len() && #[trigger] shares@[k].amount_cents < 0,
{
    for i in 0..shares.len()
        invariant
            forall|k: int| 0 <= k < i ==> #[trigger] shares@[k].amount_cents >= 0,
    {
        if shares[i].amount_cents < 0 {
            return true;
        }
    }
    false
}

fn ensure_shares_listed_exec(ps: &mut Vec<Participant>, shares: &Vec<Share>)
    ensures
        participants_view(final(ps)@) == ensure_shares_listed(participants_view(old(ps)@), shares@),
{
    let ghost start = participants_view(ps@);
    for i in 0..shares.len()
        invariant
            start == participants_view(old(ps)@),
            participants_view(ps@) == ensure_shares_listed(start, shares@.take(i as int)),
    {
        ensure_listed_exec(ps, shares[i].participant_id);
        assert(shares@.take(i + 1).drop_last() =~= shares@.take(i as int));
    }
    assert(shares@.take(shares@.len() as int) =~= shares@);
}

fn expense_row_exec(
    d: &mut ImportDraft,
    h: &Vec<String>,
    row: &Vec<String>,
    json: &RowJson,
    n: usize,
) -> (r: Result<(), String>)
    ensures
        step_agrees(r, final(d)@, expense_row(old(d)@, strings_view(h@), strings_view(row@), json@, n as int)),
{
    let ghost hv = strings_view(h@);
    let ghost rv = strings_view(row@);
    let id = match parse_uuid_field(h, row, "record_id", n) {
        Ok(v) => v,
        Err(e) => {
            return Err(e);
        },
    };
    let mut seen_before = false;
    for i in 0..d.seen.len()
        invariant
            seen_before == exists|k: int| 0 <= k < i && d.seen@[k] == id,
    {
        if d.seen[i] == id {
            seen_before = true;
        }
    }
    assert(seen_before == d@.seen.contains(id));
    if seen_before {
        return Err(row_message(n, " has duplicate record_id."));
    }
    let title_raw = get_field(h, row, "title");
    let title = normalize_expense_title(title_raw.as_str());
    if title.as_str().is_empty() {
        return Err(row_message(n, " has empty expense title."));
    }
    let icon_raw = get_field(h, row, "icon");
    let icon = if is_blank(icon_raw.as_str()) {
        ExpenseIcon::Other
    } else {
        match json.icon {
            Some(i) => i,
            None => {
                return Err(row_message_named(n, " has invalid icon value '", icon_raw.as_str(), "'."));
            },
        }
    };
    let payer = match parse_uuid_field(h, row, "payer_id", n) {
        Ok(v) => v,
        Err(e) => {
            return Err(e);
        },
    };
    let total = match parse_i64_field(h, row, "total_cents", n) {
        Ok(v) => v,
        Err(e) => {
            return Err(e);
        },
    };
    if total <= 0 {
        return Err(row_message(n, " total_cents must be positive."));
    }
    let currency_raw = get_field(h, row, "currency");
    let currency = normalize_currency(currency_raw.as_str());
    let created_at = match parse_i64_or_default(h, row, "created_at") {
        Ok(v) => v,
        Err(e) => {
            return Err(e);
        },
    };
    let shares_raw = get_field(h, row, "shares_json");
    let shares: Vec<Share> = if is_blank(shares_raw.as_str()) {
        Vec::new()
    } else {
        match &json.shares {
            Ok(v) => crate::model::copy_shares(v),
            Err(e) => {
                let mut m = row_message(n, " has invalid shares_json: ");
                m.append(e.as_str());
                assert(m@ =~= row_msg(n as int, " has invalid shares_json: "@ + e@));
                return Err(m);
            },
        }
    };
    if shares.len() == 0 {
        return Err(row_message(n, " has no shares."));
    }
    if has_negative(&shares) {
        return Err(row_message(n, " has a negative share amount."));
    }
    let ghost before = d@;
    ensure_listed_exec(&mut d.participants, payer);
    ensure_shares_listed_exec(&mut d.participants, &shares);
    let expense = Expense { id, title, icon, payer_id: payer, total_cents: total, currency, created_at, shares };
    let ghost ev = expense@;
    d.expenses.push(expense);
    d.seen.push(id);
    assert(expenses_view(d.expenses@) =~= before.expenses.push(ev));
    Ok(())
}

fn settlement_row_exec(d: &mut ImportDraft, h: &Vec<String>, row: &Vec<String>, n: usize) -> (r: Result<(), String>)
    ensures
        step_agrees(r, final(d)@, settlement_row(old(d)@, strings_view(h@), strings_view(row@), n as int)),
{
    let id = match parse_uuid_field(h, row, "record_id", n) {
        Ok(v) => v,
        Err(e) => {
            return Err(e);
        },
    };
    let mut seen_before = false;
    for i in 0..d.seen.len()
        invariant
            seen_before == exists|k: int| 0 <= k < i && d.seen@[k] == id,
    {
        if d.seen[i] == id {
            seen_before = true;
        }
    }
    assert(seen_before == d@.seen.contains(id));
    if seen_before {
        return Err(row_message(n, " has duplicate record_id."));
    }
    let from = match parse_uuid_field(h, row, "from_id", n) {
        Ok(v) => v,
        Err(e) => {
            return Err(e);
        },
    };
    let to = match parse_uuid_field(h, row, "to_id", n) {
        Ok(v) => v,
        Err(e) => {
            return Err(e);
        },
    };
    let amount = match parse_i64_field(h, row, "amount_cents", n) {
        Ok(v) => v,
        Err(e) => {
            return Err(e);
        },
    };
    let currency_raw = get_field(h, row, "currency");
    let currency = normalize_currency(currency_raw.as_str());
    if amount <= 0 {
        return Err(row_message(n, " amount_cents must be positive."));
    }
    if from == to {
        return Err(row_message(n, " has identical from_id and to_id values."));
    }
    let ghost before = d@;
    ensure_listed_exec(&mut d.participants, from);
    ensure_listed_exec(&mut d.participants, to);
    let created_at = match parse_i64_or_default(h, row, "created_at") {
        Ok(v) => v,
        Err(e) => {
            return Err(e);
        },
    };
    let note_raw = get_field(h, row, "note");
    let note = trim(note_raw.as_str());
    let settlement = Settlement { id, from_id: from, to_id: to, amount_cents: amount, currency, created_at, note };
    let ghost sv = settlement@;
    d.settlements.push(settlement);
    d.seen.push(id);
    assert(settlements_view(d.settlements@) =~= before.settlements.push(sv));
    Ok(())
}


/// Whether a gathered expense has a positive total and shares that are not
/// negative, each naming a participant of `ps`.
pub open spec fn expense_wf(e: ExpenseView, ps: Seq<ParticipantView>) -> bool {
    &&& e.total_cents > 0
    &&& forall|k: int|
        #![trigger e.shares[k]]
        0 <= k < e.shares.len() ==> e.shares[k].amount_cents >= 0 && has_participant(
            ps,
            e.shares[k].participant_id,
        )
}

/// Whether every gathered expense is well formed.
pub open spec fn gathered_wf(g: Gathered) -> bool {
    forall|i: int| 0 <= i < g.expenses.len() ==> expense_wf(#[trigger] g.expenses[i], g.participants)
}

/// Every participant identifier of `a` is one of `b`.
pub open spec fn keeps_ids(a: Seq<ParticipantView>, b: Seq<ParticipantView>) -> bool {
    forall|id: u128| #[trigger] has_participant(a, id) ==> has_participant(b, id)
}

proof fn lemma_upsert_keeps(ps: Seq<ParticipantView>, p: ParticipantView)
    ensures
        keeps_ids(ps, upsert(ps, p)),
{
    crate::state::lemma_participant_index(ps, p.id);
    let r = upsert(ps, p);
    assert forall|id: u128| #[trigger] has_participant(ps, id) implies has_participant(r, id) by {
        let j = choose|j: int| 0 <= j < ps.len() && #[trigger] ps[j].id == id;
        assert(r[j].id == id);
    }
}

proof fn lemma_ensure_listed(ps: Seq<ParticipantView>, id: u128)
    ensures
        keeps_ids(ps, ensure_listed(ps, id)),
        has_participant(ensure_listed(ps, id), id),
{
    let r = ensure_listed(ps, id);
    if !has_participant(ps, id) {
        assert(r[ps.len() as int].id == id);
        assert forall|x: u128| #[trigger] has_participant(ps, x) implies has_participant(r, x) by {
            let j = choose|j: int| 0 <= j < ps.len() && #[trigger] ps[j].id == x;
            assert(r[j].id == x);
        }
    }
}

proof fn lemma_ensure_shares_listed(ps: Seq<ParticipantView>, shares: Seq<Share>)
    ensures
        keeps_ids(ps, ensure_shares_listed(ps, shares)),
        forall|k: int|
            0 <= k < shares.len() ==> has_participant(
                ensure_shares_listed(ps, shares),
                #[trigger] shares[k].participant_id,
            ),
    decreases shares.len(),
{
    if shares.len() > 0 {
        let t = shares.drop_last();
        lemma_ensure_shares_listed(ps, t);
        let mid = ensure_shares_listed(ps, t);
        lemma_ensure_listed(mid, shares.last().participant_id);
        assert forall|k: int| 0 <= k < shares.len() implies has_participant(
            ensure_shares_listed(ps, shares),
            #[trigger] shares[k].participant_id,
        ) by {
            if k < shares.len() - 1 {
                assert(shares[k] == t[k]);
                assert(has_participant(mid, t[k].participant_id));
            }
        }
    }
}

proof fn lemma_wf_grows(g: Gathered, ps: Seq<ParticipantView>)
    requires
        gathered_wf(g),
        keeps_ids(g.participants, ps),
    ensures
        gathered_wf(Gathered { participants: ps, ..g }),
{
    assert forall|i: int| 0 <= i < g.expenses.len() implies expense_wf(#[trigger] g.expenses[i], ps) by {
        let e = g.expenses[i];
        assert(expense_wf(e, g.participants));
        assert forall|k: int| #![trigger e.shares[k]] 0 <= k < e.shares.len() implies e.shares[k].amount_cents >= 0
            && has_participant(ps, e.shares[k].participant_id) by {
            assert(has_participant(g.participants, e.shares[k].participant_id));
        }
    }
}

/// Every row that is read keeps the gathered expenses well formed.
proof fn lemma_import_row_wf(
    g: Gathered,
    h: Seq<Seq<char>>,
    rt: int,
    row: Seq<Seq<char>>,
    json: RowJsonView,
    n: int,
)
    requires
        gathered_wf(g),
    ensures
        import_row(g, h, rt, row, json, n) matches Ok(g2) ==> gathered_wf(g2),
{
    let kind = row_kind(row, rt);
    if kind == "participant"@ {
        if let Ok(g2) = participant_row(g, h, row, n) {
            let pid = uuid_field(h, row, "participant_id"@, n)->Ok_0;
            let name = trimmed(field_of(h, row, "participant_name"@));
            lemma_upsert_keeps(g.participants, ParticipantView { id: pid, name, is_active: true });
            lemma_upsert_keeps(g.participants, ParticipantView { id: pid, name, is_active: false });
            lemma_wf_grows(g, g2.participants);
        }
    } else if kind == "expense"@ {
        if let Ok(g2) = expense_row(g, h, row, json, n) {
            let payer = uuid_field(h, row, "payer_id"@, n)->Ok_0;
            let sh = row_shares(h, row, json, n)->Ok_0;
            let p1 = ensure_listed(g.participants, payer);
            lemma_ensure_listed(g.participants, payer);
            lemma_ensure_shares_listed(p1, sh);
            lemma_wf_grows(g, g2.participants);
            let e = g2.expenses.last();
            assert forall|k: int| #![trigger e.shares[k]] 0 <= k < e.shares.len() implies e.shares[k].amount_cents >= 0
                && has_participant(g2.participants, e.shares[k].participant_id) by {
                if e.shares[k].amount_cents < 0 {
                    assert(sh[k].amount_cents < 0);
                }
            }
            assert forall|i: int| 0 <= i < g2.expenses.len() implies expense_wf(
                #[trigger] g2.expenses[i],
                g2.participants,
            ) by {
                if i < g.expenses.len() {
                    assert(g2.expenses[i] == g.expenses[i]);
                }
            }
        }
    } else if kind == "settlement"@ {
        if let Ok(g2) = settlement_row(g, h, row, n) {
            let from = uuid_field(h, row, "from_id"@, n)->Ok_0;
            let to = uuid_field(h, row, "to_id"@, n)->Ok_0;
            lemma_ensure_listed(g.participants, from);
            lemma_ensure_listed(ensure_listed(g.participants, from), to);
            lemma_wf_grows(g, g2.participants);
        }
    }
}


fn import_row_exec(
    d: &mut ImportDraft,
    h: &Vec<String>,
    rt: usize,
    row: &Vec<String>,
    json: &RowJson,
    n: usize,
) -> (r: Result<(), String>)
    ensures
        step_agrees(
            r,
            final(d)@,
            import_row(old(d)@, strings_view(h@), rt as int, strings_view(row@), json@, n as int),
        ),
{
    let ghost rv = strings_view(row@);
    let cell = if rt < row.len() {
        assert(rv[rt as int] == row@[rt as int]@);
        row[rt].clone()
    } else {
        String::new()
    };
    let trimmed_kind = trim(cell.as_str());
    let kind = to_lowercase(trimmed_kind.as_str());
    if kind.as_str().is_empty() {
        Ok(())
    } else if kind == lit("participant") {
        participant_row_exec(d, h, row, n)
    } else if kind == lit("expense") {
        expense_row_exec(d, h, row, json, n)
    } else if kind == lit("settlement") {
        settlement_row_exec(d, h, row, n)
    } else {
        Ok(())
    }
}

proof fn lemma_upsert_unique(ps: Seq<ParticipantView>, p: ParticipantView)
    requires
        ids_unique(ps),
    ensures
        ids_unique(upsert(ps, p)),
{
    crate::state::lemma_participant_index(ps, p.id);
    let r = upsert(ps, p);
    match participant_index(ps, p.id) {
        Some(i) => {
            assert forall|a: int, b: int| 0 <= a < b < r.len() implies #[trigger] r[a].id != #[trigger] r[b].id by {
                assert(r[a].id == ps[a].id);
                assert(r[b].id == ps[b].id);
            }
        },
        None => {
            assert forall|a: int, b: int| 0 <= a < b < r.len() implies #[trigger] r[a].id != #[trigger] r[b].id by {
                if b == ps.len() {
                    assert(r[a] == ps[a]);
                } else {
                    assert(r[a] == ps[a]);
                    assert(r[b] == ps[b]);
                }
            }
        },
    }
}

proof fn lemma_ensure_listed_unique(ps: Seq<ParticipantView>, id: u128)
    requires
        ids_unique(ps),
    ensures
        ids_unique(ensure_listed(ps, id)),
{
    let r = ensure_listed(ps, id);
    if !has_participant(ps, id) {
        assert forall|a: int, b: int| 0 <= a < b < r.len() implies #[trigger] r[a].id != #[trigger] r[b].id by {
            if b == ps.len() {
                assert(r[a] == ps[a]);
                assert(r[b].id == id);
            } else {
                assert(r[a] == ps[a]);
                assert(r[b] == ps[b]);
            }
        }
    }
}

proof fn lemma_ensure_shares_listed_unique(ps: Seq<ParticipantView>, shares: Seq<Share>)
    requires
        ids_unique(ps),
    ensures
        ids_unique(ensure_shares_listed(ps, shares)),
    decreases shares.len(),
{
    if shares.len() > 0 {
        lemma_ensure_shares_listed_unique(ps, shares.drop_last());
        lemma_ensure_listed_unique(ensure_shares_listed(ps, shares.drop_last()), shares.last().participant_id);
    }
}

/// Every row that is read keeps the participants' identifiers distinct.
proof fn lemma_import_row_unique(
    g: Gathered,
    h: Seq<Seq<char>>,
    rt: int,
    row: Seq<Seq<char>>,
    json: RowJsonView,
    n: int,
)
    requires
        ids_unique(g.participants),
    ensures
        import_row(g, h, rt, row, json, n) matches Ok(g2) ==> ids_unique(g2.participants),
{
    let kind = row_kind(row, rt);
    if kind == "participant"@ {
        if let Ok(g2) = participant_row(g, h, row, n) {
            let pid = uuid_field(h, row, "participant_id"@, n)->Ok_0;
            let name = trimmed(field_of(h, row, "participant_name"@));
            lemma_upsert_unique(g.participants, ParticipantView { id: pid, name, is_active: true });
            lemma_upsert_unique(g.participants, ParticipantView { id: pid, name, is_active: false });
        }
    } else if kind == "expense"@ {
        if let Ok(g2) = expense_row(g, h, row, json, n) {
            let payer = uuid_field(h, row, "payer_id"@, n)->Ok_0;
            let sh = row_shares(h, row, json, n)->Ok_0;
            lemma_ensure_listed_unique(g.participants, payer);
            lemma_ensure_shares_listed_unique(ensure_listed(g.participants, payer), sh);
        }
    } else if kind == "settlement"@ {
        if let Ok(g2) = settlement_row(g, h, row, n) {
            let from = uuid_field(h, row, "from_id"@, n)->Ok_0;
            let to = uuid_field(h, row, "to_id"@, n)->Ok_0;
            lemma_ensure_listed_unique(g.participants, from);
            lemma_ensure_listed_unique(ensure_listed(g.participants, from), to);
        }
    }
}

/// Once a prefix of the records fails, the whole import fails the same way.
proof fn lemma_import_records_err(
    h: Seq<Seq<char>>,
    rt: int,
    records: Seq<Result<Seq<Seq<char>>, Seq<char>>>,
    json: Seq<RowJsonView>,
    j: int,
)
    requires
        0 <= j <= records.len(),
        import_records(h, rt, records.take(j), json) is Err,
    ensures
        import_records(h, rt, records, json) == import_records(h, rt, records.take(j), json),
    decreases records.len() - j,
{
    if j < records.len() {
        let t = records.take(j + 1);
        assert(t.drop_last() =~= records.take(j));
        lemma_import_records_err(h, rt, records, json, j + 1);
    } else {
        assert(records.take(j) =~= records);
    }
}

/// The parsed JSON cells of every record, as views.
pub open spec fn json_views(v: Seq<RowJson>) -> Seq<RowJsonView> {
    v.map_values(|j: RowJson| j@)
}

/// The outcome of an import, as a value.
pub open spec fn draft_result(r: Result<ImportDraft, String>) -> Result<Gathered, Seq<char>> {
    match r {
        Ok(d) => Ok(d@),
        Err(e) => Err(e@),
    }
}

/// Reads every record of a table, with the JSON cells of record `k` parsed
/// by the caller into `json[k]`, and gathers participants, expenses and
/// settlements. The first problem ends the import with its message.
pub fn collect_import(table: &CsvTable, json: &Vec<RowJson>) -> (r: Result<ImportDraft, String>)
    requires
        json.len() == table.records.len(),
        table.records.len() <= usize::MAX - 2,
    ensures
        draft_result(r) == import_table(table.headers_view(), table.records_view(), json_views(json@)),
        r matches Ok(d) ==> gathered_wf(d@) && ids_unique(d@.participants),
{
    let headers = match &table.headers {
        Ok(h) => h,
        Err(e) => {
            let mut m = lit("Failed to read CSV header: ");
            m.append(e.as_str());
            return Err(m);
        },
    };
    let ghost hv = strings_view(headers@);
    let rt = match header_index(headers, "record_type") {
        Some(i) => i,
        None => {
            return Err(lit("CSV header must include 'record_type'."));
        },
    };
    let ghost recs = table.records_view();
    let ghost jv = json_views(json@);
    let mut d = ImportDraft {
        participants: Vec::new(),
        expenses: Vec::new(),
        settlements: Vec::new(),
        seen: Vec::new(),
    };
    proof {
        assert(d@ == nothing_gathered()) by {
            assert(d@.participants =~= Seq::<ParticipantView>::empty());
            assert(d@.expenses =~= Seq::<ExpenseView>::empty());
            assert(d@.settlements =~= Seq::<SettlementView>::empty());
            assert(d@.seen =~= Seq::<u128>::empty());
        }
        assert(recs.take(0) =~= Seq::<Result<Seq<Seq<char>>, Seq<char>>>::empty());
    }
    for k in 0..table.records.len()
        invariant
            recs == table.records_view(),
            jv == json_views(json@),
            json.len() == table.records.len(),
            table.records.len() <= usize::MAX - 2,
            table.headers == Ok::<Vec<String>, String>(*headers),
            hv == strings_view(headers@),
            header_pos(hv, "record_type"@) == Some(rt as int),
            import_records(hv, rt as int, recs.take(k as int), jv) == Ok::<Gathered, Seq<char>>(d@),
            gathered_wf(d@),
            ids_unique(d@.participants),
    {
        let n = k + 2;
        proof {
            assert(recs.take(k + 1).drop_last() =~= recs.take(k as int));
            assert(recs.take(k + 1).last() == recs[k as int]);
            assert(jv[k as int] == json@[k as int]@);
        }
        match &table.records[k] {
            Err(e) => {
                let mut m = row_message(n, " is invalid: ");
                m.append(e.as_str());
                assert(m@ =~= row_msg(n as int, " is invalid: "@ + e@));
                proof {
                    lemma_import_records_err(hv, rt as int, recs, jv, k + 1);
                }
                return Err(m);
            },
            Ok(row) => {
                let ghost before = d@;
                proof {
                    lemma_import_row_wf(before, hv, rt as int, strings_view(row@), jv[k as int], n as int);
                    lemma_import_row_unique(before, hv, rt as int, strings_view(row@), jv[k as int], n as int);
                }
                match import_row_exec(&mut d, headers, rt, row, &json[k], n) {
                    Ok(()) => {},
                    Err(e) => {
                        proof {
                            lemma_import_records_err(hv, rt as int, recs, jv, k + 1);
                        }
                        return Err(e);
                    },
                }
            },
        }
    }
    proof {
        assert(recs.take(recs.len() as int) =~= recs);
    }
    Ok(d)
}


/// The icon cell as a JSON string: trimmed, lower-cased, in double quotes.
pub open spec fn icon_literal(raw: Seq<char>) -> Seq<char> {
    seq!['"'] + lowercase_of(trimmed(raw)) + seq!['"']
}

/// The JSON texts of one record for the caller to parse: its icon as a JSON
/// string and its list of shares.
pub struct JsonCells {
    pub icon: String,
    pub shares: String,
}

/// What `json_cells` gives for one record.
pub open spec fn cells_of(
    headers: Result<Seq<Seq<char>>, Seq<char>>,
    record: Result<Seq<Seq<char>>, Seq<char>>,
) -> (Seq<char>, Seq<char>) {
    match (headers, record) {
        (Ok(h), Ok(row)) => (icon_literal(field_of(h, row, "icon"@)), field_of(h, row, "shares_json"@)),
        _ => (Seq::empty(), Seq::empty()),
    }
}

/// The JSON texts of every record of a table, in order; empty for a record
/// that could not be read.
pub fn json_cells(table: &CsvTable) -> (r: Vec<JsonCells>)
    ensures
        r.len() == table.records.len(),
        forall|k: int|
            0 <= k < r.len() ==> (#[trigger] r@[k].icon@, r@[k].shares@) == cells_of(
                table.headers_view(),
                table.records_view()[k],
            ),
{
    let mut out: Vec<JsonCells> = Vec::new();
    for k in 0..table.records.len()
        invariant
            out.len() == k,
            forall|j: int|
                0 <= j < k ==> (#[trigger] out@[j].icon@, out@[j].shares@) == cells_of(
                    table.headers_view(),
                    table.records_view()[j],
                ),
    {
        let cells = match (&table.headers, &table.records[k]) {
            (Ok(h), Ok(row)) => {
                let raw = get_field(h, row, "icon");
                let t = trim(raw.as_str());
                let lower = to_lowercase(t.as_str());
                let mut icon = lit("\"");
                icon.append(lower.as_str());
                icon.append("\"");
                proof {
                    reveal_strlit("\"");
                }
                let ghost expect = icon_literal(raw@);
                assert(icon@ =~= expect);
                JsonCells { icon, shares: get_field(h, row, "shares_json") }
            },
            _ => JsonCells { icon: String::new(), shares: String::new() },
        };
        out.push(cells);
    }
    out
}

/// Whether the shares of every gathered expense sum to at most `i64::MAX`.
pub open spec fn import_fits(g: Gathered) -> bool {
    forall|i: int| 0 <= i < g.expenses.len() ==> share_sum(#[trigger] g.expenses[i].shares) <= i64::MAX
}

/// The sum of a list of shares.
fn share_total(shares: &Vec<Share>) -> (r: i128)
    ensures
        r == share_sum(shares@),
{
    let ghost s = shares@;
    let mut sum: i128 = 0;
    assert(s.take(0) =~= Seq::<Share>::empty());
    for i in 0..shares.len()
        invariant
            s == shares@,
            sum == share_sum(s.take(i as int)),
            -(i as int) * 9223372036854775808 <= sum <= (i as int) * 9223372036854775807,
    {
        proof {
            lemma_share_sum_push(s, i as int);
        }
        sum = sum + shares[i].amount_cents as i128;
    }
    assert(s.take(s.len() as int) =~= s);
    sum
}

impl ImportDraft {
    /// Whether the shares of every gathered expense sum to at most
    /// `i64::MAX`, as finishing the import needs.
    pub fn fits(&self) -> (r: bool)
        ensures
            r == import_fits(self@),
    {
        let ghost g = self@;
        for i in 0..self.expenses.len()
            invariant
                g == self@,
                forall|j: int| 0 <= j < i ==> share_sum(#[trigger] g.expenses[j].shares) <= i64::MAX,
        {
            assert(g.expenses[i as int].shares == self.expenses@[i as int].shares@);
            if share_total(&self.expenses[i].shares) > i64::MAX as i128 {
                return false;
            }
        }
        true
    }
}


/// An expense with its shares adjusted to its total.
pub open spec fn with_adjusted_shares(e: ExpenseView) -> ExpenseView {
    ExpenseView { shares: adjusted(e.shares, e.total_cents as int), ..e }
}

/// The ledger that a gathered import is turned into before clean-up:
/// participants sorted by lower-cased name, every expense's shares adjusted
/// to its total, and no currency chosen yet.
pub open spec fn assembled_state(g: Gathered) -> StateView {
    StateView {
        participants: stable_sort(g.participants, |a: ParticipantView, b: ParticipantView| name_order(a, b)),
        expenses: g.expenses.map_values(|e: ExpenseView| with_adjusted_shares(e)),
        settlements: g.settlements,
        last_currency: Seq::empty(),
    }
}

/// The ledger an import yields.
pub open spec fn imported_state(g: Gathered) -> StateView {
    normalized_state(assembled_state(g))
}

proof fn lemma_keep_all<T>(s: Seq<T>, p: spec_fn(T) -> bool)
    requires
        forall|k: int| 0 <= k < s.len() ==> p(#[trigger] s[k]),
    ensures
        keep(s, p) == s,
    decreases s.len(),
{
    if s.len() > 0 {
        let t = s.drop_last();
        assert forall|k: int| 0 <= k < t.len() implies p(#[trigger] t[k]) by {
            assert(t[k] == s[k]);
        }
        lemma_keep_all(t, p);
        assert(p(s[s.len() - 1]));
        assert(t.push(s.last()) =~= s);
    }
}

/// A well-formed expense whose shares fit can take its rounding difference,
/// and afterwards its shares sum to its total and name the same participants.
proof fn lemma_gathered_adjust(e: ExpenseView, ps: Seq<ParticipantView>)
    requires
        expense_wf(e, ps),
        share_sum(e.shares) <= i64::MAX,
    ensures
        adjust_fits(e.shares, e.total_cents as int),
        adjusted(e.shares, e.total_cents as int).len() == e.shares.len(),
        e.shares.len() > 0 ==> share_sum(adjusted(e.shares, e.total_cents as int)) == e.total_cents,
        forall|k: int|
            0 <= k < e.shares.len() ==> (#[trigger] adjusted(e.shares, e.total_cents as int)[k]).participant_id
                == e.shares[k].participant_id,
{
    let s = e.shares;
    assert forall|k: int| 0 <= k < s.len() implies #[trigger] s[k].amount_cents >= 0 by {
        assert(s[k].amount_cents >= 0);
    }
    lemma_nonneg_shares(s);
    if s.len() > 0 {
        lemma_last_max_index(s);
        let m = last_max_index(s);
        assert(s[m].amount_cents <= share_sum(s));
        law_adjusted_shares_sum(s, e.total_cents as int);
    }
}

proof fn lemma_assembled_fits(g: Gathered)
    requires
        gathered_wf(g),
        import_fits(g),
    ensures
        import_adjust_fits(assembled_state(g)),
{
    let st = assembled_state(g);
    let ps = st.participants;
    lemma_stable_sort_contains(g.participants, |a: ParticipantView, b: ParticipantView| name_order(a, b));
    assert forall|i: int| 0 <= i < st.expenses.len() implies adjust_fits(
        known_shares(#[trigger] st.expenses[i].shares, ps),
        st.expenses[i].total_cents as int,
    ) by {
        let e = g.expenses[i];
        assert(expense_wf(e, g.participants));
        lemma_gathered_adjust(e, g.participants);
        let a = adjusted(e.shares, e.total_cents as int);
        assert(st.expenses[i].shares == a);
        assert forall|k: int| 0 <= k < a.len() implies has_participant(ps, #[trigger] a[k].participant_id) by {
            assert(a[k].participant_id == e.shares[k].participant_id);
            let id = e.shares[k].participant_id;
            assert(has_participant(g.participants, id));
            let j = choose|j: int| 0 <= j < g.participants.len() && #[trigger] g.participants[j].id == id;
            assert(g.participants.contains(g.participants[j]));
            assert(ps.contains(g.participants[j]));
            let j2 = choose|j2: int| 0 <= j2 < ps.len() && ps[j2] == g.participants[j];
            assert(ps[j2].id == id);
        }
        lemma_keep_all(a, |sh: Share| has_participant(ps, sh.participant_id));
        assert(known_shares(a, ps) == a);
    }
}

/// The ledger an import yields is one the balance laws speak of: distinct
/// participant identifiers, records naming only listed participants, and
/// balanced expenses.
pub proof fn law_import_yields_valid_ledger(g: Gathered)
    requires
        gathered_wf(g),
        ids_unique(g.participants),
        import_fits(g),
    ensures
        crate::ledger_laws::ledger_valid(imported_state(g)),
{
    let st = assembled_state(g);
    lemma_assembled_fits(g);
    crate::ledger_laws::law_cleanup_yields_known_balanced_records(st);
    let key = |p: ParticipantView| p.id;
    let name_le = |a: ParticipantView, b: ParticipantView| name_order(a, b);
    assert(crate::sorting::distinct_keys(g.participants, key)) by {
        assert forall|i: int, j: int| 0 <= i < j < g.participants.len() implies key(
            #[trigger] g.participants[i],
        ) != key(#[trigger] g.participants[j]) by {
            assert(g.participants[i].id != g.participants[j].id);
        }
    }
    crate::sorting::lemma_stable_sort_distinct(g.participants, name_le, key);
    crate::sorting::lemma_stable_sort_distinct(st.participants, name_le, key);
    let ps = imported_state(g).participants;
    assert(ps == stable_sort(st.participants, name_le));
    assert forall|i: int, j: int| 0 <= i < j < ps.len() implies #[trigger] ps[i].id != #[trigger] ps[j].id by {
        assert(key(ps[i]) != key(ps[j]));
    }
}

/// Turns what an import gathered into the ledger: sorts the participants by
/// lower-cased name, moves each expense's rounding difference onto its
/// largest share, then cleans the ledger up; and counts what it holds.
pub fn finish_import(d: ImportDraft) -> (r: (AppState, ImportSummary))
    requires
        gathered_wf(d@),
        import_fits(d@),
    ensures
        r.0@ == imported_state(d@),
        r.1 == (ImportSummary {
            participants: r.0.participants.len(),
            expenses: r.0.expenses.len(),
            settlements: r.0.settlements.len(),
        }),
{
    let ghost g = d@;
    let ImportDraft { participants, expenses, settlements, seen: _ } = d;
    let people = sort_by_lowercase_name(participants);
    let ghost orig = expenses@;
    let mut adjusted_expenses: Vec<Expense> = Vec::new();
    for e in it: expenses.into_iter()
        invariant
            it.seq() == orig,
            g.expenses == expenses_view(orig),
            gathered_wf(g),
            import_fits(g),
            expenses_view(adjusted_expenses@) == expenses_view(orig.take(it.index() as int)).map_values(
                |e: ExpenseView| with_adjusted_shares(e),
            ),
    {
        let ghost i = it.index();
        let ghost ev = e@;
        proof {
            assert(g.expenses[i as int] == ev);
            assert(expense_wf(ev, g.participants));
            lemma_gathered_adjust(ev, g.participants);
        }
        let Expense { id, title, icon, payer_id, total_cents, currency, created_at, shares } = e;
        let mut shares = shares;
        adjust_shares_to_total(&mut shares, total_cents);
        let done = Expense { id, title, icon, payer_id, total_cents, currency, created_at, shares };
        let ghost before = adjusted_expenses@;
        adjusted_expenses.push(done);
        proof {
            assert(done@ == with_adjusted_shares(ev));
            assert(expenses_view(orig.take(i + 1)) =~= expenses_view(orig.take(i as int)).push(ev));
            assert(expenses_view(adjusted_expenses@) =~= expenses_view(before).push(done@));
        }
    }
    proof {
        assert(orig.take(orig.len() as int) =~= orig);
    }
    let mut state = AppState {
        participants: people,
        expenses: adjusted_expenses,
        settlements,
        last_currency: String::new(),
    };
    proof {
        assert(state@.last_currency =~= Seq::<char>::empty());
        assert(state@ == assembled_state(g));
        lemma_assembled_fits(g);
    }
    state.normalize_after_import();
    let summary = ImportSummary {
        participants: state.participants.len(),
        expenses: state.expenses.len(),
        settlements: state.settlements.len(),
    };
    (state, summary)
}


/// A `csv::Writer` into memory. Verus cannot take the writer's type by
/// itself (its parameter is bound by `std::io::Write`), so it is held here,
/// out of Verus's sight, and used through the functions below.
#[verifier::external_body]
pub struct CsvOut {
    w: ::csv::Writer<Vec<u8>>,
}

/// The records that a writer has accepted so far, each as its list of
/// fields.
pub uninterp spec fn csv_written(w: CsvOut) -> Seq<Seq<Seq<char>>>;

/// The bytes that a `csv` writer with its default settings (comma
/// delimiter, `\n` terminator, quoting only where needed) produces for a
/// list of records.
pub uninterp spec fn csv_encoding(records: Seq<Seq<Seq<char>>>) -> Seq<u8>;

/// `csv::WriterBuilder::new().has_headers(true).from_writer(Vec::new())`:
/// a writer into memory that has accepted no record yet.
#[verifier::external_body]
fn new_csv_writer() -> (w: CsvOut)
    ensures
        csv_written(w) == Seq::<Seq<Seq<char>>>::empty(),
{
    CsvOut { w: ::csv::WriterBuilder::new().has_headers(true).from_writer(Vec::new()) }
}

/// `csv::Writer::write_record` with the fields of `record`, taking the
/// writer and handing it back on success, when it has accepted the record
/// after the earlier ones. Writing into memory cannot fail, and the writer
/// (not flexible) refuses a record only when its number of fields differs
/// from the first record's: so it succeeds when the record has fields and
/// every earlier record has as many. The error is the writer's message.
#[verifier::external_body]
fn write_csv_record(w: CsvOut, record: &Vec<String>) -> (r: Result<CsvOut, String>)
    ensures
        r matches Ok(w2) ==> csv_written(w2) == csv_written(w).push(strings_view(record@)),
        record@.len() > 0 && (forall|k: int|
            0 <= k < csv_written(w).len() ==> #[trigger] csv_written(w)[k].len() == record@.len())
            ==> r is Ok,
{
    let mut w = w;
    match w.w.write_record(record.iter()) {
        Ok(()) => Ok(w),
        Err(e) => Err(e.to_string()),
    }
}

/// `csv::Writer::into_inner`: flushes the writer into memory, which cannot
/// fail, and hands back its bytes, which encode every record it accepted.
/// The writer copies the fields' bytes, adding only ASCII quotes, commas and
/// line ends, so the bytes of string fields are valid UTF-8. The error is the
/// writer's message.
#[verifier::external_body]
fn csv_into_bytes(w: CsvOut) -> (r: Result<Vec<u8>, String>)
    ensures
        r matches Ok(b) ==> b@ == csv_encoding(csv_written(w)) && valid_utf8(b@),
        r is Ok,
{
    w.w.into_inner().map_err(|e| e.to_string())
}

/// `String::from_utf8`: the text that `bytes` encode when they are valid
/// UTF-8, else the error's message.
#[verifier::external_body]
fn utf8_string(bytes: Vec<u8>) -> (r: Result<String, String>)
    ensures
        match r {
            Ok(s) => valid_utf8(bytes@) && s@ == decode_utf8(bytes@),
            Err(_) => !valid_utf8(bytes@),
        },
{
    String::from_utf8(bytes).map_err(|e| e.to_string())
}

/// What the caller's JSON serializer wrote for one expense: its icon and its
/// list of shares, or the serializer's message.
pub struct ExpenseJson {
    pub icon: Result<String, String>,
    pub shares: Result<String, String>,
}

pub struct ExpenseJsonView {
    pub icon: Result<Seq<char>, Seq<char>>,
    pub shares: Result<Seq<char>, Seq<char>>,
}

pub open spec fn text_result(r: Result<String, String>) -> Result<Seq<char>, Seq<char>> {
    match r {
        Ok(s) => Ok(s@),
        Err(e) => Err(e@),
    }
}

impl View for ExpenseJson {
    type V = ExpenseJsonView;

    open spec fn view(&self) -> ExpenseJsonView {
        ExpenseJsonView { icon: text_result(self.icon), shares: text_result(self.shares) }
    }
}

pub open spec fn expense_json_views(v: Seq<ExpenseJson>) -> Seq<ExpenseJsonView> {
    v.map_values(|j: ExpenseJson| j@)
}

/// `true` or `false`.
pub open spec fn bool_text(b: bool) -> Seq<char> {
    if b {
        "true"@
    } else {
        "false"@
    }
}

/// A text without its double quotes.
pub open spec fn unquoted(s: Seq<char>) -> Seq<char> {
    s.filter(|c: char| c != '"')
}

/// The record of a participant.
pub open spec fn participant_record(p: ParticipantView) -> Seq<Seq<char>> {
    let e = Seq::<char>::empty();
    seq!["participant"@, e, e, uuid_text(p.id), p.name, bool_text(p.is_active), e, e, e, e, e, e, e, e, e, e]
}

/// The record of an expense, with its icon and shares as JSON.
pub open spec fn expense_record(x: ExpenseView, icon_json: Seq<char>, shares_json: Seq<char>) -> Seq<Seq<char>> {
    let e = Seq::<char>::empty();
    seq![
        "expense"@,
        uuid_text(x.id),
        int_text(x.created_at as int),
        e,
        e,
        e,
        x.title,
        unquoted(icon_json),
        uuid_text(x.payer_id),
        int_text(x.total_cents as int),
        x.currency,
        shares_json,
        e,
        e,
        e,
        e,
    ]
}

/// The record of a settlement.
pub open spec fn settlement_record(x: SettlementView) -> Seq<Seq<char>> {
    let e = Seq::<char>::empty();
    seq![
        "settlement"@,
        uuid_text(x.id),
        int_text(x.created_at as int),
        e,
        e,
        e,
        e,
        e,
        e,
        e,
        x.currency,
        e,
        uuid_text(x.from_id),
        uuid_text(x.to_id),
        int_text(x.amount_cents as int),
        x.note,
    ]
}

/// The records of the expenses, or the first serializer message.
pub open spec fn expense_records(es: Seq<ExpenseView>, json: Seq<ExpenseJsonView>) -> Result<
    Seq<Seq<Seq<char>>>,
    Seq<char>,
>
    decreases es.len(),
{
    if es.len() == 0 {
        Ok(Seq::empty())
    } else {
        match expense_records(es.drop_last(), json) {
            Err(e) => Err(e),
            Ok(rows) => {
                let k = es.len() - 1;
                match json[k].shares {
                    Err(e) => Err("Failed to serialize expense shares: "@ + e),
                    Ok(sj) => match json[k].icon {
                        Err(e) => Err("Failed to serialize expense icon: "@ + e),
                        Ok(ij) => Ok(rows.push(expense_record(es[k], ij, sj))),
                    },
                }
            },
        }
    }
}

/// Every record of an export, in order: the header, the participants, the
/// expenses and the settlements; or the first serializer message.
pub open spec fn export_records(st: StateView, json: Seq<ExpenseJsonView>) -> Result<
    Seq<Seq<Seq<char>>>,
    Seq<char>,
> {
    match expense_records(st.expenses, json) {
        Err(e) => Err(e),
        Ok(er) => Ok(
            seq![csv_headers()] + st.participants.map_values(|p: ParticipantView| participant_record(p))
                + er + st.settlements.map_values(|x: SettlementView| settlement_record(x)),
        ),
    }
}



fn bool_string(b: bool) -> (r: String)
    ensures
        r@ == bool_text(b),
{
    if b {
        lit("true")
    } else {
        lit("false")
    }
}

/// `s` without its double quotes.
fn unquote(s: &str) -> (r: String)
    ensures
        r@ == unquoted(s@),
{
    let chars = chars_of(s);
    let ghost f = |c: char| c != '"';
    let mut out: Vec<char> = Vec::new();
    proof {
        reveal(Seq::filter);
        assert(chars@.take(0).filter(f) =~= Seq::<char>::empty());
    }
    for i in 0..chars.len()
        invariant
            chars@ == s@,
            f == (|c: char| c != '"'),
            out@ == chars@.take(i as int).filter(f),
    {
        let c = chars[i];
        proof {
            reveal(Seq::filter);
            let t = chars@.take(i + 1);
            assert(t.drop_last() =~= chars@.take(i as int));
            assert(t.last() == c);
            assert(t.filter(f) == if f(c) {
                chars@.take(i as int).filter(f).push(c)
            } else {
                chars@.take(i as int).filter(f)
            });
        }
        if c != '"' {
            out.push(c);
        }
    }
    assert(chars@.take(chars@.len() as int) =~= chars@);
    crate::text::string_from_chars(&out)
}

fn header_record() -> (r: Vec<String>)
    ensures
        strings_view(r@) == csv_headers(),
{
    let r = vec![
        lit("record_type"),
        lit("record_id"),
        lit("created_at"),
        lit("participant_id"),
        lit("participant_name"),
        lit("participant_active"),
        lit("title"),
        lit("icon"),
        lit("payer_id"),
        lit("total_cents"),
        lit("currency"),
        lit("shares_json"),
        lit("from_id"),
        lit("to_id"),
        lit("amount_cents"),
        lit("note"),
    ];
    assert(strings_view(r@) =~= csv_headers());
    r
}

fn participant_record_exec(p: &Participant) -> (r: Vec<String>)
    ensures
        strings_view(r@) == participant_record(p@),
{
    let r = vec![
        lit("participant"),
        String::new(),
        String::new(),
        id_to_string(p.id),
        p.name.clone(),
        bool_string(p.is_active),
        String::new(),
        String::new(),
        String::new(),
        String::new(),
        String::new(),
        String::new(),
        String::new(),
        String::new(),
        String::new(),
        String::new(),
    ];
    assert(strings_view(r@) =~= participant_record(p@));
    r
}

fn expense_record_exec(x: &Expense, icon_json: &str, shares_json: &str) -> (r: Vec<String>)
    ensures
        strings_view(r@) == expense_record(x@, icon_json@, shares_json@),
{
    let r = vec![
        lit("expense"),
        id_to_string(x.id),
        int_to_string(x.created_at as i128),
        String::new(),
        String::new(),
        String::new(),
        x.title.clone(),
        unquote(icon_json),
        id_to_string(x.payer_id),
        int_to_string(x.total_cents as i128),
        x.currency.clone(),
        lit(shares_json),
        String::new(),
        String::new(),
        String::new(),
        String::new(),
    ];
    assert(strings_view(r@) =~= expense_record(x@, icon_json@, shares_json@));
    r
}

fn settlement_record_exec(x: &Settlement) -> (r: Vec<String>)
    ensures
        strings_view(r@) == settlement_record(x@),
{
    let r = vec![
        lit("settlement"),
        id_to_string(x.id),
        int_to_string(x.created_at as i128),
        String::new(),
        String::new(),
        String::new(),
        String::new(),
        String::new(),
        String::new(),
        String::new(),
        x.currency.clone(),
        String::new(),
        id_to_string(x.from_id),
        id_to_string(x.to_id),
        int_to_string(x.amount_cents as i128),
        x.note.clone(),
    ];
    assert(strings_view(r@) =~= settlement_record(x@));
    r
}

/// The records of a list of lists of strings, as values.
pub open spec fn records_of(v: Seq<Vec<String>>) -> Seq<Seq<Seq<char>>> {
    v.map_values(|r: Vec<String>| strings_view(r@))
}

/// The outcome of building the records, as a value.
pub open spec fn rows_result(r: Result<Vec<Vec<String>>, String>) -> Result<Seq<Seq<Seq<char>>>, Seq<char>> {
    match r {
        Ok(v) => Ok(records_of(v@)),
        Err(e) => Err(e@),
    }
}

proof fn lemma_expense_records_err(es: Seq<ExpenseView>, json: Seq<ExpenseJsonView>, j: int)
    requires
        0 <= j <= es.len(),
        expense_records(es.take(j), json) is Err,
    ensures
        expense_records(es, json) == expense_records(es.take(j), json),
    decreases es.len() - j,
{
    if j < es.len() {
        assert(es.take(j + 1).drop_last() =~= es.take(j));
        lemma_expense_records_err(es, json, j + 1);
    } else {
        assert(es.take(j) =~= es);
    }
}

/// Every record of the export of `state`, with `json[k]` what the JSON
/// serializer wrote for expense `k`: the header, then one record per
/// participant, expense and settlement, in the ledger's order; or the first
/// serializer error.
pub fn export_rows(state: &AppState, json: &Vec<ExpenseJson>) -> (r: Result<Vec<Vec<String>>, String>)
    requires
        json.len() == state.expenses.len(),
    ensures
        rows_result(r) == export_records(state@, expense_json_views(json@)),
{
    let ghost st = state@;
    let ghost jv = expense_json_views(json@);
    let mut rows: Vec<Vec<String>> = Vec::new();
    rows.push(header_record());
    for i in 0..state.participants.len()
        invariant
            st == state@,
            records_of(rows@) == seq![csv_headers()] + st.participants.take(i as int).map_values(
                |p: ParticipantView| participant_record(p),
            ),
    {
        let ghost before = rows@;
        let rec = participant_record_exec(&state.participants[i]);
        rows.push(rec);
        proof {
            assert(st.participants[i as int] == state.participants@[i as int]@);
            assert(st.participants.take(i + 1) =~= st.participants.take(i as int).push(st.participants[i as int]));
            assert(records_of(rows@) =~= records_of(before).push(strings_view(rows@.last()@)));
            assert(records_of(rows@) =~= seq![csv_headers()] + st.participants.take(i + 1).map_values(
                |p: ParticipantView| participant_record(p),
            ));
        }
    }
    let ghost base = records_of(rows@);
    assert(st.participants.take(st.participants.len() as int) =~= st.participants);
    assert(st.expenses.take(0) =~= Seq::<ExpenseView>::empty());
    for i in 0..state.expenses.len()
        invariant
            st == state@,
            jv == expense_json_views(json@),
            json.len() == state.expenses.len(),
            base == seq![csv_headers()] + st.participants.map_values(|p: ParticipantView| participant_record(p)),
            expense_records(st.expenses.take(i as int), jv) matches Ok(er) && records_of(rows@) == base + er,
    {
        let ghost before = rows@;
        let ghost er = expense_records(st.expenses.take(i as int), jv)->Ok_0;
        proof {
            assert(st.expenses.take(i + 1).drop_last() =~= st.expenses.take(i as int));
            assert(st.expenses.take(i + 1)[i as int] == st.expenses[i as int]);
            assert(jv[i as int] == json@[i as int]@);
            assert(st.expenses[i as int] == state.expenses@[i as int]@);
        }
        let shares_json = match &json[i].shares {
            Ok(t) => t,
            Err(e) => {
                let mut m = lit("Failed to serialize expense shares: ");
                m.append(e.as_str());
                proof {
                    lemma_expense_records_err(st.expenses, jv, i + 1);
                }
                return Err(m);
            },
        };
        let icon_json = match &json[i].icon {
            Ok(t) => t,
            Err(e) => {
                let mut m = lit("Failed to serialize expense icon: ");
                m.append(e.as_str());
                proof {
                    lemma_expense_records_err(st.expenses, jv, i + 1);
                }
                return Err(m);
            },
        };
        let rec = expense_record_exec(&state.expenses[i], icon_json.as_str(), shares_json.as_str());
        rows.push(rec);
        proof {
            assert(records_of(rows@) =~= records_of(before).push(strings_view(rows@.last()@)));
            assert(records_of(rows@) =~= base + er.push(expense_record(
                st.expenses[i as int],
                icon_json@,
                shares_json@,
            )));
        }
    }
    assert(st.expenses.take(st.expenses.len() as int) =~= st.expenses);
    let ghost mid = records_of(rows@);
    for i in 0..state.settlements.len()
        invariant
            st == state@,
            records_of(rows@) == mid + st.settlements.take(i as int).map_values(
                |x: SettlementView| settlement_record(x),
            ),
    {
        let ghost before = rows@;
        let rec = settlement_record_exec(&state.settlements[i]);
        rows.push(rec);
        proof {
            assert(st.settlements[i as int] == state.settlements@[i as int]@);
            assert(st.settlements.take(i + 1) =~= st.settlements.take(i as int).push(st.settlements[i as int]));
            assert(records_of(rows@) =~= records_of(before).push(strings_view(rows@.last()@)));
            assert(records_of(rows@) =~= mid + st.settlements.take(i + 1).map_values(
                |x: SettlementView| settlement_record(x),
            ));
        }
    }
    proof {
        assert(st.settlements.take(st.settlements.len() as int) =~= st.settlements);
        let er = expense_records(st.expenses, jv)->Ok_0;
        assert(records_of(rows@) =~= seq![csv_headers()] + st.participants.map_values(
            |p: ParticipantView| participant_record(p),
        ) + er + st.settlements.map_values(|x: SettlementView| settlement_record(x)));
    }
    Ok(rows)
}


/// `prefix` followed by `e`.
fn prefixed(prefix: &str, e: &str) -> (m: String)
    ensures
        m@ == prefix@ + e@,
        prefix@.is_prefix_of(m@),
{
    let mut m = lit(prefix);
    m.append(e);
    assert(m@.subrange(0, prefix@.len() as int) =~= prefix@);
    m
}

proof fn lemma_expense_records_width(es: Seq<ExpenseView>, json: Seq<ExpenseJsonView>)
    ensures
        expense_records(es, json) matches Ok(rows) ==> forall|k: int| 0 <= k < rows.len() ==> #[trigger] rows[k].len() == 16,
    decreases es.len(),
{
    if es.len() > 0 {
        lemma_expense_records_width(es.drop_last(), json);
    }
}

/// Every record of an export has the sixteen fields of the header.
proof fn lemma_export_records_width(st: StateView, json: Seq<ExpenseJsonView>, rows: Seq<Seq<Seq<char>>>)
    requires
        export_records(st, json) == Ok::<Seq<Seq<Seq<char>>>, Seq<char>>(rows),
    ensures
        forall|k: int| 0 <= k < rows.len() ==> #[trigger] rows[k].len() == 16,
{
    lemma_expense_records_width(st.expenses, json);
    {
        let er = expense_records(st.expenses, json)->Ok_0;
        let pr = st.participants.map_values(|p: ParticipantView| participant_record(p));
        let sr = st.settlements.map_values(|x: SettlementView| settlement_record(x));
        assert forall|k: int| 0 <= k < rows.len() implies #[trigger] rows[k].len() == 16 by {
            let a = 1 + pr.len();
            let b = a + er.len();
            if k == 0 {
                assert(rows[k] == csv_headers());
            } else if k < a {
                assert(rows[k] == pr[k - 1]);
            } else if k < b {
                assert(rows[k] == er[k - a]);
            } else {
                assert(rows[k] == sr[k - b]);
            }
        }
    }
}

/// Writes the ledger as CSV text: the header, then one record per
/// participant, expense and settlement, with `json[k]` what the JSON
/// serializer wrote for expense `k`. A serializer error ends the export with
/// its message; otherwise the export succeeds with the text of those records.
pub fn export_state_csv(state: &AppState, json: &Vec<ExpenseJson>) -> (r: Result<String, String>)
    requires
        json.len() == state.expenses.len(),
    ensures
        match export_records(state@, expense_json_views(json@)) {
            Ok(rows) => r matches Ok(text) && valid_utf8(csv_encoding(rows)) && text@ == decode_utf8(
                csv_encoding(rows),
            ),
            Err(e) => r matches Err(m) && m@ == e,
        },
{
    let rows = match export_rows(state, json) {
        Ok(rows) => rows,
        Err(e) => {
            return Err(e);
        },
    };
    let ghost all = records_of(rows@);
    proof {
        lemma_export_records_width(state@, expense_json_views(json@), all);
    }
    let np = state.participants.len();
    let ne = state.expenses.len();
    let mut w = new_csv_writer();
    assert(all.take(0) =~= Seq::<Seq<Seq<char>>>::empty());
    for i in 0..rows.len()
        invariant
            all == records_of(rows@),
            forall|k: int| 0 <= k < all.len() ==> #[trigger] all[k].len() == 16,
            csv_written(w) == all.take(i as int),
    {
        assert(all[i as int] == strings_view(rows@[i as int]@));
        assert forall|k: int| 0 <= k < csv_written(w).len() implies #[trigger] csv_written(w)[k].len()
            == rows@[i as int]@.len() by {
            assert(csv_written(w)[k] == all[k]);
        }
        w = match write_csv_record(w, &rows[i]) {
            Ok(w2) => {
                assert(all.take(i + 1) =~= all.take(i as int).push(strings_view(rows@[i as int]@)));
                w2
            },
            Err(e) => {
                let m = if i == 0 {
                    prefixed("Failed to write CSV header: ", e.as_str())
                } else if i <= np {
                    prefixed("Failed to export participant: ", e.as_str())
                } else if i - np <= ne {
                    prefixed("Failed to export expense: ", e.as_str())
                } else {
                    prefixed("Failed to export settlement: ", e.as_str())
                };
                return Err(m);
            },
        };
    }
    assert(all.take(all.len() as int) =~= all);
    let bytes = match csv_into_bytes(w) {
        Ok(b) => b,
        Err(e) => {
            return Err(prefixed("Failed to finalize CSV: ", e.as_str()));
        },
    };
    match utf8_string(bytes) {
        Ok(text) => Ok(text),
        Err(e) => Err(prefixed("Exported CSV is not valid UTF-8: ", e.as_str())),
    }
}

} // verus!
