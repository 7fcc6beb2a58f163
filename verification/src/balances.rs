//! Net balances per currency and the transfers that settle them.
use crate::model::{
    AppState, CurrencyBalanceGroup, ExpenseView, Participant, ParticipantBalance,
    ParticipantView, SettlementSuggestion, SettlementView, Share, StateView, participants_view,
};
use crate::money::{currency_code, normalize_currency};
use crate::sorting::{
    lemma_stable_sort_all, lemma_stable_sort_len, lemma_stable_sort_map, sort_stable, stable_sort,
};
use crate::text::{chars_le, chars_of, lex_le, string_from_chars};
use vstd::prelude::*;

verus! {

/// One change to one participant's balance in one currency.
pub struct EntryView {
    pub currency: Seq<char>,
    pub participant: u128,
    pub delta: int,
}

/// What an expense changes: its payer is owed the total, and each share is
/// owed by its participant.
pub open spec fn expense_entries(e: ExpenseView) -> Seq<EntryView> {
    let c = currency_code(e.currency);
    seq![EntryView { currency: c, participant: e.payer_id, delta: e.total_cents as int }]
        + share_entries(e.shares, c)
}

/// What the shares of an expense in currency `c` change.
pub open spec fn share_entries(shares: Seq<Share>, c: Seq<char>) -> Seq<EntryView> {
    shares.map_values(
        |sh: Share| EntryView { currency: c, participant: sh.participant_id, delta: -(sh.amount_cents as int) },
    )
}

/// What a settlement changes: the payer's debt shrinks and the receiver's
/// claim shrinks by the amount.
pub open spec fn settlement_entries(s: SettlementView) -> Seq<EntryView> {
    let c = currency_code(s.currency);
    seq![
        EntryView { currency: c, participant: s.from_id, delta: s.amount_cents as int },
        EntryView { currency: c, participant: s.to_id, delta: -(s.amount_cents as int) },
    ]
}

pub open spec fn expense_ledger(es: Seq<ExpenseView>) -> Seq<EntryView>
    decreases es.len(),
{
    if es.len() == 0 {
        Seq::empty()
    } else {
        expense_ledger(es.drop_last()) + expense_entries(es.last())
    }
}

pub open spec fn settlement_ledger(ss: Seq<SettlementView>) -> Seq<EntryView>
    decreases ss.len(),
{
    if ss.len() == 0 {
        Seq::empty()
    } else {
        settlement_ledger(ss.drop_last()) + settlement_entries(ss.last())
    }
}

/// Every balance change of the ledger, expenses first, in record order.
pub open spec fn ledger(st: StateView) -> Seq<EntryView> {
    expense_ledger(st.expenses) + settlement_ledger(st.settlements)
}

/// The net balance of participant `p` in currency `c` after the changes `l`.
pub open spec fn net(l: Seq<EntryView>, c: Seq<char>, p: u128) -> int
    decreases l.len(),
{
    if l.len() == 0 {
        0
    } else {
        net(l.drop_last(), c, p) + if l.last().currency == c && l.last().participant == p {
            l.last().delta
        } else {
            0
        }
    }
}

/// Whether every running balance, after every change, fits in `i64`.
pub open spec fn ledger_fits(l: Seq<EntryView>) -> bool {
    forall|k: int, c: Seq<char>, p: u128|
        0 <= k <= l.len() ==> i64::MIN <= #[trigger] net(l.take(k), c, p) <= i64::MAX
}

struct LedgerEntry {
    currency: Vec<char>,
    participant: u128,
    amount: i64,
    credit: bool,
}

impl View for LedgerEntry {
    type V = EntryView;

    closed spec fn view(&self) -> EntryView {
        EntryView {
            currency: self.currency@,
            participant: self.participant,
            delta: if self.credit {
                self.amount as int
            } else {
                -(self.amount as int)
            },
        }
    }
}

spec fn entries_view(v: Seq<LedgerEntry>) -> Seq<EntryView> {
    v.map_values(|e: LedgerEntry| e@)
}

fn copy_chars(v: &Vec<char>) -> (r: Vec<char>)
    ensures
        r@ == v@,
{
    let mut r: Vec<char> = Vec::new();
    for i in 0..v.len()
        invariant
            r@ == v@.take(i as int),
    {
        r.push(v[i]);
        assert(r@ =~= v@.take(i + 1));
    }
    assert(r@ =~= v@);
    r
}

fn chars_eq(a: &Vec<char>, b: &Vec<char>) -> (r: bool)
    ensures
        r == (a@ == b@),
{
    if a.len() != b.len() {
        return false;
    }
    for i in 0..a.len()
        invariant
            a.len() == b.len(),
            forall|k: int| 0 <= k < i ==> a@[k] == b@[k],
    {
        if a[i] != b[i] {
            return false;
        }
    }
    assert(a@ =~= b@);
    true
}

/// The balance changes of the ledger.
fn ledger_of(state: &AppState) -> (r: Vec<LedgerEntry>)
    ensures
        entries_view(r@) == ledger(state@),
{
    let ghost st = state@;
    let mut out: Vec<LedgerEntry> = Vec::new();
    for i in 0..state.expenses.len()
        invariant
            st == state@,
            entries_view(out@) == expense_ledger(st.expenses.take(i as int)),
    {
        let e = &state.expenses[i];
        let ghost ev = e@;
        assert(st.expenses[i as int] == ev);
        let code = normalize_currency(e.currency.as_str());
        let c = chars_of(code.as_str());
        let ghost before = entries_view(out@);
        out.push(LedgerEntry { currency: copy_chars(&c), participant: e.payer_id, amount: e.total_cents, credit: true });
        for j in 0..e.shares.len()
            invariant
                ev == e@,
                c@ == currency_code(ev.currency),
                entries_view(out@) == before + expense_entries(ev).take(j + 1),
        {
            let sh = e.shares[j];
            let ghost prev = out@;
            out.push(LedgerEntry { currency: copy_chars(&c), participant: sh.participant_id, amount: sh.amount_cents, credit: false });
            assert(entries_view(out@) =~= entries_view(prev).push(out@.last()@));
            assert(expense_entries(ev).take(j + 2) =~= expense_entries(ev).take(j + 1).push(
                expense_entries(ev)[j + 1],
            ));
        }
        proof {
            assert(expense_entries(ev).take(ev.shares.len() as int + 1) =~= expense_entries(ev));
            assert(st.expenses.take(i + 1).drop_last() =~= st.expenses.take(i as int));
        }
    }
    assert(st.expenses.take(st.expenses.len() as int) =~= st.expenses);
    let ghost mid = entries_view(out@);
    for i in 0..state.settlements.len()
        invariant
            st == state@,
            mid == expense_ledger(st.expenses),
            entries_view(out@) == mid + settlement_ledger(st.settlements.take(i as int)),
    {
        let s = &state.settlements[i];
        let ghost sv = s@;
        assert(st.settlements[i as int] == sv);
        let code = normalize_currency(s.currency.as_str());
        let c = chars_of(code.as_str());
        let ghost prev = entries_view(out@);
        out.push(LedgerEntry { currency: copy_chars(&c), participant: s.from_id, amount: s.amount_cents, credit: true });
        out.push(LedgerEntry { currency: c, participant: s.to_id, amount: s.amount_cents, credit: false });
        proof {
            assert(st.settlements.take(i + 1).drop_last() =~= st.settlements.take(i as int));
            assert(entries_view(out@) =~= prev + settlement_entries(sv));
        }
    }
    assert(st.settlements.take(st.settlements.len() as int) =~= st.settlements);
    out
}


struct NetEntry {
    currency: Vec<char>,
    participant: u128,
    net: i64,
}

spec fn key_stored(nets: Seq<NetEntry>, c: Seq<char>, p: u128) -> bool {
    exists|j: int| 0 <= j < nets.len() && #[trigger] nets[j].currency@ == c && nets[j].participant == p
}

spec fn nets_correct(nets: Seq<NetEntry>, l: Seq<EntryView>) -> bool {
    &&& forall|j: int|
        0 <= j < nets.len() ==> #[trigger] nets[j].net == net(l, nets[j].currency@, nets[j].participant)
    &&& forall|j1: int, j2: int|
        0 <= j1 < j2 < nets.len() ==> !(#[trigger] nets[j1].currency@ == #[trigger] nets[j2].currency@
            && nets[j1].participant == nets[j2].participant)
    &&& forall|c: Seq<char>, p: u128| !key_stored(nets, c, p) ==> #[trigger] net(l, c, p) == 0
}

proof fn lemma_net_step(l: Seq<EntryView>, i: int, c: Seq<char>, p: u128)
    requires
        0 <= i < l.len(),
    ensures
        net(l.take(i + 1), c, p) == net(l.take(i), c, p) + if l[i].currency == c && l[i].participant
            == p {
            l[i].delta
        } else {
            0
        },
{
    assert(l.take(i + 1).drop_last() =~= l.take(i));
}

/// The position of the stored key `(c, p)`, if it is stored.
fn find_key(nets: &Vec<NetEntry>, c: &Vec<char>, p: u128) -> (r: Option<usize>)
    ensures
        r matches Some(j) ==> j < nets.len() && nets@[j as int].currency@ == c@ && nets@[j as int].participant == p,
        r is None ==> !key_stored(nets@, c@, p),
{
    for j in 0..nets.len()
        invariant
            forall|k: int| 0 <= k < j ==> !(#[trigger] nets@[k].currency@ == c@ && nets@[k].participant == p),
    {
        if nets[j].participant == p && chars_eq(&nets[j].currency, c) {
            return Some(j);
        }
    }
    None
}

/// Running balances per currency and participant, or nothing when one of
/// them leaves `i64`.
fn fold_nets(entries: &Vec<LedgerEntry>) -> (r: Option<Vec<NetEntry>>)
    ensures
        r is Some <==> ledger_fits(entries_view(entries@)),
        r matches Some(n) ==> nets_correct(n@, entries_view(entries@)),
{
    let ghost l = entries_view(entries@);
    let mut nets: Vec<NetEntry> = Vec::new();
    proof {
        assert(l.take(0) =~= Seq::<EntryView>::empty());
    }
    for i in 0..entries.len()
        invariant
            l == entries_view(entries@),
            nets_correct(nets@, l.take(i as int)),
            forall|k: int, c: Seq<char>, p: u128|
                0 <= k <= i ==> i64::MIN <= #[trigger] net(l.take(k), c, p) <= i64::MAX,
    {
        let e = &entries[i];
        let ghost ev = e@;
        assert(l[i as int] == ev);
        let ghost before = nets@;
        let delta: i128 = if e.credit {
            e.amount as i128
        } else {
            -(e.amount as i128)
        };
        assert(delta == ev.delta);
        match find_key(&nets, &e.currency, e.participant) {
            Some(j) => {
                let updated = nets[j].net as i128 + delta;
                proof {
                    lemma_net_step(l, i as int, ev.currency, ev.participant);
                }
                if updated < i64::MIN as i128 || updated > i64::MAX as i128 {
                    proof {
                        assert(!(i64::MIN <= net(l.take(i + 1), ev.currency, ev.participant) <= i64::MAX));
                    }
                    return None;
                }
                let cur = copy_chars(&nets[j].currency);
                let entry = NetEntry { currency: cur, participant: e.participant, net: updated as i64 };
                nets.set(j, entry);
                proof {
                    let li = l.take(i + 1);
                    assert forall|q: int| 0 <= q < nets@.len() implies #[trigger] nets@[q].net == net(
                        li,
                        nets@[q].currency@,
                        nets@[q].participant,
                    ) by {
                        lemma_net_step(l, i as int, nets@[q].currency@, nets@[q].participant);
                        if q != j {
                            assert(nets@[q] == before[q]);
                            assert(!(before[q].currency@ == before[j as int].currency@
                                && before[q].participant == before[j as int].participant));
                        }
                    }
                    assert forall|c: Seq<char>, p: u128| !key_stored(nets@, c, p) implies #[trigger] net(
                        li,
                        c,
                        p,
                    ) == 0 by {
                        lemma_net_step(l, i as int, c, p);
                        if key_stored(before, c, p) {
                            let q = choose|q: int| 0 <= q < before.len() && #[trigger] before[q].currency@ == c && before[q].participant == p;
                            assert(nets@[q].currency@ == c);
                        }
                        if c == ev.currency && p == ev.participant {
                            assert(nets@[j as int].currency@ == c);
                        }
                    }
                    assert forall|j1: int, j2: int|
                        0 <= j1 < j2 < nets@.len() implies !(#[trigger] nets@[j1].currency@
                        == #[trigger] nets@[j2].currency@ && nets@[j1].participant == nets@[j2].participant) by {
                        assert(nets@[j1].currency@ == before[j1].currency@);
                        assert(nets@[j2].currency@ == before[j2].currency@);
                    }
                    assert forall|k: int, c: Seq<char>, p: u128|
                        0 <= k <= i + 1 implies i64::MIN <= #[trigger] net(l.take(k), c, p) <= i64::MAX by {
                        if k == i + 1 {
                            lemma_net_step(l, i as int, c, p);
                            if !(c == ev.currency && p == ev.participant) {
                                assert(net(l.take(i as int), c, p) == net(l.take(i as int), c, p));
                            } else {
                                assert(before[j as int].net == net(l.take(i as int), c, p));
                            }
                        }
                    }
                }
            },
            None => {
                proof {
                    lemma_net_step(l, i as int, ev.currency, ev.participant);
                    assert(net(l.take(i as int), ev.currency, ev.participant) == 0);
                }
                if delta < i64::MIN as i128 || delta > i64::MAX as i128 {
                    proof {
                        assert(!(i64::MIN <= net(l.take(i + 1), ev.currency, ev.participant) <= i64::MAX));
                    }
                    return None;
                }
                let cur = copy_chars(&e.currency);
                nets.push(NetEntry { currency: cur, participant: e.participant, net: delta as i64 });
                proof {
                    let li = l.take(i + 1);
                    let n = before.len() as int;
                    assert forall|q: int| 0 <= q < nets@.len() implies #[trigger] nets@[q].net == net(
                        li,
                        nets@[q].currency@,
                        nets@[q].participant,
                    ) by {
                        lemma_net_step(l, i as int, nets@[q].currency@, nets@[q].participant);
                        if q < n {
                            assert(nets@[q] == before[q]);
                            if before[q].currency@ == ev.currency && before[q].participant == ev.participant {
                                assert(key_stored(before, ev.currency, ev.participant));
                            }
                        }
                    }
                    assert forall|c: Seq<char>, p: u128| !key_stored(nets@, c, p) implies #[trigger] net(
                        li,
                        c,
                        p,
                    ) == 0 by {
                        lemma_net_step(l, i as int, c, p);
                        if key_stored(before, c, p) {
                            let q = choose|q: int| 0 <= q < before.len() && #[trigger] before[q].currency@ == c && before[q].participant == p;
                            assert(nets@[q].currency@ == c);
                        }
                        if c == ev.currency && p == ev.participant {
                            assert(nets@[n].currency@ == c);
                        }
                    }
                    assert forall|j1: int, j2: int|
                        0 <= j1 < j2 < nets@.len() implies !(#[trigger] nets@[j1].currency@
                        == #[trigger] nets@[j2].currency@ && nets@[j1].participant == nets@[j2].participant) by {
                        if j2 == n {
                            assert(nets@[j1] == before[j1]);
                            if nets@[j1].currency@ == nets@[j2].currency@ && nets@[j1].participant == nets@[j2].participant {
                                assert(key_stored(before, ev.currency, ev.participant));
                            }
                        } else {
                            assert(nets@[j1] == before[j1]);
                            assert(nets@[j2] == before[j2]);
                        }
                    }
                    assert forall|k: int, c: Seq<char>, p: u128|
                        0 <= k <= i + 1 implies i64::MIN <= #[trigger] net(l.take(k), c, p) <= i64::MAX by {
                        if k == i + 1 {
                            lemma_net_step(l, i as int, c, p);
                        }
                    }
                }
            },
        }
    }
    proof {
        assert(l.take(l.len() as int) =~= l);
    }
    Some(nets)
}

/// The stored balance of `(c, p)`, zero when it has none.
fn net_of(nets: &Vec<NetEntry>, c: &Vec<char>, p: u128, Ghost(l): Ghost<Seq<EntryView>>) -> (r: i64)
    requires
        nets_correct(nets@, l),
    ensures
        r == net(l, c@, p),
{
    match find_key(nets, c, p) {
        Some(j) => nets[j].net,
        None => 0,
    }
}


/// `c` added to the ascending list `s` of distinct codes, unless it is there.
pub open spec fn insert_currency(s: Seq<Seq<char>>, c: Seq<char>) -> Seq<Seq<char>>
    decreases s.len(),
{
    if s.len() == 0 {
        seq![c]
    } else if s[0] == c {
        s
    } else if lex_le(c, s[0]) {
        seq![c] + s
    } else {
        seq![s[0]] + insert_currency(s.drop_first(), c)
    }
}

/// The distinct currencies of the changes `l`, in ascending order.
pub open spec fn currencies_of(l: Seq<EntryView>) -> Seq<Seq<char>>
    decreases l.len(),
{
    if l.len() == 0 {
        Seq::empty()
    } else {
        insert_currency(currencies_of(l.drop_last()), l.last().currency)
    }
}

proof fn lemma_insert_currency_at(s: Seq<Seq<char>>, c: Seq<char>, j: int)
    requires
        0 <= j <= s.len(),
        forall|k: int| 0 <= k < j ==> #[trigger] s[k] != c && !lex_le(c, s[k]),
        j == s.len() || s[j] == c || lex_le(c, s[j]),
    ensures
        insert_currency(s, c) == if j < s.len() && s[j] == c {
            s
        } else {
            s.insert(j, c)
        },
    decreases j,
{
    if s.len() == 0 {
        assert(s.insert(j, c) =~= seq![c]);
    } else if j == 0 {
        assert(s.insert(0, c) =~= seq![c] + s);
    } else {
        let t = s.drop_first();
        assert forall|k: int| 0 <= k < j - 1 implies #[trigger] t[k] != c && !lex_le(c, t[k]) by {
            assert(t[k] == s[k + 1]);
        }
        if j < s.len() {
            assert(t[j - 1] == s[j]);
        }
        assert(s[0] != c && !lex_le(c, s[0]));
        lemma_insert_currency_at(t, c, j - 1);
        if j < s.len() && s[j] == c {
            assert(seq![s[0]] + t =~= s);
        } else {
            assert(seq![s[0]] + t.insert(j - 1, c) =~= s.insert(j, c));
        }
    }
}

/// The view of a list of currency codes.
spec fn codes_view(v: Seq<Vec<char>>) -> Seq<Seq<char>> {
    v.map_values(|c: Vec<char>| c@)
}

/// The distinct currencies of the changes, in ascending order.
fn currencies_in(entries: &Vec<LedgerEntry>) -> (r: Vec<Vec<char>>)
    ensures
        codes_view(r@) == currencies_of(entries_view(entries@)),
{
    let ghost l = entries_view(entries@);
    let mut list: Vec<Vec<char>> = Vec::new();
    for i in 0..entries.len()
        invariant
            l == entries_view(entries@),
            codes_view(list@) == currencies_of(l.take(i as int)),
    {
        let c = &entries[i].currency;
        let ghost cs = codes_view(list@);
        assert(l[i as int].currency == c@);
        let mut j: usize = 0;
        while j < list.len() && !chars_eq(&list[j], c) && !chars_le(c, &list[j])
            invariant
                j <= list.len(),
                cs == codes_view(list@),
                forall|k: int| 0 <= k < j ==> #[trigger] cs[k] != c@ && !lex_le(c@, cs[k]),
            decreases list.len() - j,
        {
            j += 1;
        }
        proof {
            lemma_insert_currency_at(cs, c@, j as int);
            assert(l.take(i + 1).drop_last() =~= l.take(i as int));
        }
        if j < list.len() && chars_eq(&list[j], c) {
        } else {
            list.insert(j, copy_chars(c));
            assert(codes_view(list@) =~= cs.insert(j as int, c@));
        }
    }
    assert(l.take(l.len() as int) =~= l);
    list
}

/// A participant's balance in one currency.
pub struct BalanceView {
    pub participant: ParticipantView,
    pub net_cents: int,
}

impl View for ParticipantBalance {
    type V = BalanceView;

    open spec fn view(&self) -> BalanceView {
        BalanceView { participant: self.participant@, net_cents: self.net_cents as int }
    }
}

/// The balances of one currency.
pub struct GroupView {
    pub currency: Seq<char>,
    pub balances: Seq<BalanceView>,
}

impl View for CurrencyBalanceGroup {
    type V = GroupView;

    open spec fn view(&self) -> GroupView {
        GroupView {
            currency: self.currency@,
            balances: self.balances@.map_values(|b: ParticipantBalance| b@),
        }
    }
}

/// Participants in the order of their exact names.
pub open spec fn exact_name_order(a: ParticipantView, b: ParticipantView) -> bool {
    lex_le(a.name, b.name)
}

/// The balances of every participant, ordered by name, in currency `c`.
pub open spec fn group_balances(st: StateView, c: Seq<char>) -> Seq<BalanceView> {
    stable_sort(st.participants, |a: ParticipantView, b: ParticipantView| exact_name_order(a, b)).map_values(
        |p: ParticipantView| BalanceView { participant: p, net_cents: net(ledger(st), c, p.id) },
    )
}

/// One group per currency that the records use, in ascending order of code.
pub open spec fn balance_groups(st: StateView) -> Seq<GroupView> {
    currencies_of(ledger(st)).map_values(
        |c: Seq<char>| GroupView { currency: c, balances: group_balances(st, c) },
    )
}

pub open spec fn groups_view(v: Seq<CurrencyBalanceGroup>) -> Seq<GroupView> {
    v.map_values(|g: CurrencyBalanceGroup| g@)
}

/// Participants ordered by exact name (copies).
fn participants_by_name(ps: &Vec<Participant>) -> (r: Vec<Participant>)
    ensures
        participants_view(r@) == stable_sort(
            participants_view(ps@),
            |a: ParticipantView, b: ParticipantView| exact_name_order(a, b),
        ),
{
    let mut copies: Vec<Participant> = Vec::new();
    for i in 0..ps.len()
        invariant
            participants_view(copies@) == participants_view(ps@.take(i as int)),
    {
        let x = ps[i].duplicate();
        let ghost before = copies@;
        let ghost xv = x@;
        copies.push(x);
        assert(participants_view(copies@) =~= participants_view(before).push(xv));
        assert(participants_view(ps@.take(i + 1)) =~= participants_view(ps@.take(i as int)).push(
            ps@[i as int]@,
        ));
        assert(participants_view(copies@) =~= participants_view(ps@.take(i + 1)));
    }
    assert(ps@.take(ps@.len() as int) =~= ps@);
    let ghost copied = copies@;
    let name_le = |a: &Participant, b: &Participant| -> (r: bool)
        ensures
            r == lex_le(a.name@, b.name@),
        {
            chars_le(&chars_of(a.name.as_str()), &chars_of(b.name.as_str()))
        };
    let ghost p_le = |a: Participant, b: Participant| lex_le(a.name@, b.name@);
    let sorted = sort_stable(copies, &name_le, Ghost(p_le));
    proof {
        lemma_stable_sort_map(
            copied,
            |p: Participant| p@,
            p_le,
            |a: ParticipantView, b: ParticipantView| exact_name_order(a, b),
        );
    }
    sorted
}

impl AppState {
    /// Whether every running balance stays within `i64`, which computing
    /// balances needs.
    pub fn balances_fit(&self) -> (r: bool)
        ensures
            r == ledger_fits(ledger(self@)),
    {
        let entries = ledger_of(self);
        fold_nets(&entries).is_some()
    }

    /// The net balance of every participant in every currency that the
    /// records use: what they paid or received minus what they owe or paid
    /// back, groups ordered by currency code and balances by name.
    pub fn compute_balances_by_currency(&self) -> (r: Vec<CurrencyBalanceGroup>)
        requires
            ledger_fits(ledger(self@)),
        ensures
            groups_view(r@) == balance_groups(self@),
    {
        let ghost st = self@;
        let entries = ledger_of(self);
        let ghost l = entries_view(entries@);
        let nets = match fold_nets(&entries) {
            Some(n) => n,
            None => {
                return Vec::new();
            },
        };
        let codes = currencies_in(&entries);
        let people = participants_by_name(&self.participants);
        let ghost sorted_people = participants_view(people@);
        let mut groups: Vec<CurrencyBalanceGroup> = Vec::new();
        for g in 0..codes.len()
            invariant
                st == self@,
                l == ledger(st),
                nets_correct(nets@, l),
                codes_view(codes@) == currencies_of(l),
                sorted_people == participants_view(people@),
                sorted_people == stable_sort(
                    st.participants,
                    |a: ParticipantView, b: ParticipantView| exact_name_order(a, b),
                ),
                groups_view(groups@) == balance_groups(st).take(g as int),
        {
            let code = &codes[g];
            let ghost c = code@;
            assert(codes_view(codes@)[g as int] == c);
            let mut balances: Vec<ParticipantBalance> = Vec::new();
            for k in 0..people.len()
                invariant
                    l == ledger(st),
                    nets_correct(nets@, l),
                    c == code@,
                    sorted_people == participants_view(people@),
                    balances@.map_values(|b: ParticipantBalance| b@) == sorted_people.take(k as int).map_values(
                        |p: ParticipantView| BalanceView { participant: p, net_cents: net(l, c, p.id) },
                    ),
            {
                let p = &people[k];
                let amount = net_of(&nets, code, p.id, Ghost(l));
                let ghost before = balances@;
                let b = ParticipantBalance { participant: p.duplicate(), net_cents: amount };
                let ghost bv = b@;
                assert(sorted_people[k as int] == p@);
                assert(bv == BalanceView { participant: sorted_people[k as int], net_cents: net(l, c, sorted_people[k as int].id) });
                balances.push(b);
                assert(balances@.map_values(|b: ParticipantBalance| b@) =~= before.map_values(
                    |b: ParticipantBalance| b@,
                ).push(bv));
                assert(sorted_people.take(k + 1).map_values(
                    |p: ParticipantView| BalanceView { participant: p, net_cents: net(l, c, p.id) },
                ) =~= sorted_people.take(k as int).map_values(
                    |p: ParticipantView| BalanceView { participant: p, net_cents: net(l, c, p.id) },
                ).push(bv));
                assert(balances@.map_values(|b: ParticipantBalance| b@) =~= sorted_people.take(
                    k + 1,
                ).map_values(
                    |p: ParticipantView| BalanceView { participant: p, net_cents: net(l, c, p.id) },
                ));
            }
            assert(sorted_people.take(people.len() as int) =~= sorted_people);
            let group = CurrencyBalanceGroup { currency: string_from_chars(code), balances };
            let ghost gv = group@;
            assert(gv == balance_groups(st)[g as int]);
            let ghost gbefore = groups@;
            groups.push(group);
            assert(groups_view(groups@) =~= groups_view(gbefore).push(gv));
            assert(groups_view(groups@) =~= balance_groups(st).take(g + 1));
        }
        assert(balance_groups(st).take(codes.len() as int) =~= balance_groups(st));
        groups
    }
}


/// The participants who owe money, with how much.
pub open spec fn debtors(bs: Seq<BalanceView>) -> Seq<(u128, int)>
    decreases bs.len(),
{
    if bs.len() == 0 {
        Seq::empty()
    } else if bs.last().net_cents < 0 {
        debtors(bs.drop_last()).push((bs.last().participant.id, -bs.last().net_cents))
    } else {
        debtors(bs.drop_last())
    }
}

/// The participants who are owed money, with how much.
pub open spec fn creditors(bs: Seq<BalanceView>) -> Seq<(u128, int)>
    decreases bs.len(),
{
    if bs.len() == 0 {
        Seq::empty()
    } else if bs.last().net_cents > 0 {
        creditors(bs.drop_last()).push((bs.last().participant.id, bs.last().net_cents))
    } else {
        creditors(bs.drop_last())
    }
}

/// Larger amounts first.
pub open spec fn larger_first(a: (u128, int), b: (u128, int)) -> bool {
    -a.1 <= -b.1
}

/// Transfers that settle debts against claims, largest first: the first
/// debtor pays the first creditor as much as both allow, and whoever is done
/// leaves the line.
pub open spec fn greedy(ds: Seq<(u128, int)>, cs: Seq<(u128, int)>) -> Seq<(u128, u128, int)>
    decreases ds.len() + cs.len(),
{
    if ds.len() == 0 || cs.len() == 0 {
        Seq::empty()
    } else {
        let t = if ds[0].1 <= cs[0].1 {
            ds[0].1
        } else {
            cs[0].1
        };
        let head = if t > 0 {
            seq![(ds[0].0, cs[0].0, t)]
        } else {
            Seq::empty()
        };
        let nd = if ds[0].1 - t == 0 {
            ds.drop_first()
        } else {
            ds.update(0, (ds[0].0, ds[0].1 - t))
        };
        let nc = if cs[0].1 - t == 0 {
            cs.drop_first()
        } else {
            cs.update(0, (cs[0].0, cs[0].1 - t))
        };
        head + greedy(nd, nc)
    }
}

/// A proposed transfer, as a value.
pub struct SuggestionView {
    pub from_id: u128,
    pub to_id: u128,
    pub amount_cents: int,
    pub currency: Seq<char>,
}

impl View for SettlementSuggestion {
    type V = SuggestionView;

    open spec fn view(&self) -> SuggestionView {
        SuggestionView {
            from_id: self.from_id,
            to_id: self.to_id,
            amount_cents: self.amount_cents as int,
            currency: self.currency@,
        }
    }
}

pub open spec fn suggestions_view(v: Seq<SettlementSuggestion>) -> Seq<SuggestionView> {
    v.map_values(|s: SettlementSuggestion| s@)
}

/// The transfers that settle one currency.
pub open spec fn group_suggestions(g: GroupView) -> Seq<SuggestionView> {
    greedy(
        stable_sort(debtors(g.balances), |a: (u128, int), b: (u128, int)| larger_first(a, b)),
        stable_sort(creditors(g.balances), |a: (u128, int), b: (u128, int)| larger_first(a, b)),
    ).map_values(
        |t: (u128, u128, int)| SuggestionView { from_id: t.0, to_id: t.1, amount_cents: t.2, currency: g.currency },
    )
}

/// The transfers of every currency, currency by currency.
pub open spec fn all_suggestions(gs: Seq<GroupView>) -> Seq<SuggestionView>
    decreases gs.len(),
{
    if gs.len() == 0 {
        Seq::empty()
    } else {
        all_suggestions(gs.drop_last()) + group_suggestions(gs.last())
    }
}

/// Whether no participant's balance is the one `i64` value without a
/// negation.
pub open spec fn balances_negatable(st: StateView) -> bool {
    forall|c: Seq<char>, i: int|
        0 <= i < st.participants.len() ==> #[trigger] net(ledger(st), c, st.participants[i].id) > i64::MIN
}

spec fn amounts_view(v: Seq<(u128, i64)>) -> Seq<(u128, int)> {
    v.map_values(|p: (u128, i64)| (p.0, p.1 as int))
}

/// Debtors and creditors of a list of balances, each ordered by amount,
/// largest first.
fn sides(balances: &Vec<ParticipantBalance>) -> (r: (Vec<(u128, i64)>, Vec<(u128, i64)>))
    requires
        forall|k: int| 0 <= k < balances@.len() ==> #[trigger] balances@[k].net_cents > i64::MIN,
    ensures
        amounts_view(r.0@) == stable_sort(
            debtors(balances@.map_values(|b: ParticipantBalance| b@)),
            |a: (u128, int), b: (u128, int)| larger_first(a, b),
        ),
        amounts_view(r.1@) == stable_sort(
            creditors(balances@.map_values(|b: ParticipantBalance| b@)),
            |a: (u128, int), b: (u128, int)| larger_first(a, b),
        ),
        forall|k: int| 0 <= k < r.0@.len() ==> #[trigger] r.0@[k].1 > 0,
        forall|k: int| 0 <= k < r.1@.len() ==> #[trigger] r.1@[k].1 > 0,
{
    let ghost bv = balances@.map_values(|b: ParticipantBalance| b@);
    let mut ds: Vec<(u128, i64)> = Vec::new();
    let mut cs: Vec<(u128, i64)> = Vec::new();
    for i in 0..balances.len()
        invariant
            bv == balances@.map_values(|b: ParticipantBalance| b@),
            forall|k: int| 0 <= k < balances@.len() ==> #[trigger] balances@[k].net_cents > i64::MIN,
            amounts_view(ds@) == debtors(bv.take(i as int)),
            amounts_view(cs@) == creditors(bv.take(i as int)),
            forall|k: int| 0 <= k < ds@.len() ==> #[trigger] ds@[k].1 > 0,
            forall|k: int| 0 <= k < cs@.len() ==> #[trigger] cs@[k].1 > 0,
    {
        let b = &balances[i];
        proof {
            assert(bv.take(i + 1).drop_last() =~= bv.take(i as int));
            assert(bv.take(i + 1).last() == b@);
        }
        if b.net_cents < 0 {
            let ghost before = ds@;
            ds.push((b.participant.id, -b.net_cents));
            assert(amounts_view(ds@) =~= amounts_view(before).push((b.participant.id, -(b.net_cents as int))));
        } else if b.net_cents > 0 {
            let ghost before = cs@;
            cs.push((b.participant.id, b.net_cents));
            assert(amounts_view(cs@) =~= amounts_view(before).push((b.participant.id, b.net_cents as int)));
        }
    }
    assert(bv.take(balances@.len() as int) =~= bv);
    let larger = |a: &(u128, i64), b: &(u128, i64)| -> (r: bool)
        ensures
            r == (-(a.1 as int) <= -(b.1 as int)),
        { b.1 <= a.1 };
    let ghost le = |a: (u128, i64), b: (u128, i64)| -(a.1 as int) <= -(b.1 as int);
    let ghost f = |p: (u128, i64)| (p.0, p.1 as int);
    let ghost pos = |p: (u128, i64)| p.1 > 0;
    let ghost ds0 = ds@;
    let ghost cs0 = cs@;
    let sorted_d = sort_stable(ds, &larger, Ghost(le));
    let sorted_c = sort_stable(cs, &larger, Ghost(le));
    proof {
        let lf = |a: (u128, int), b: (u128, int)| larger_first(a, b);
        lemma_stable_sort_map(ds0, f, le, lf);
        lemma_stable_sort_map(cs0, f, le, lf);
        assert(amounts_view(ds0) =~= ds0.map_values(f));
        assert(amounts_view(cs0) =~= cs0.map_values(f));
        assert(amounts_view(sorted_d@) =~= sorted_d@.map_values(f));
        assert(amounts_view(sorted_c@) =~= sorted_c@.map_values(f));
        lemma_stable_sort_all(ds0, le, pos);
        lemma_stable_sort_all(cs0, le, pos);
    }
    (sorted_d, sorted_c)
}


/// The suggestion of a transfer in a currency.
pub open spec fn transfer_view(t: (u128, u128, int), c: Seq<char>) -> SuggestionView {
    SuggestionView { from_id: t.0, to_id: t.1, amount_cents: t.2, currency: c }
}

/// Appends the transfers that settle `ds` against `cs` in `currency`.
fn settle(
    ds: Vec<(u128, i64)>,
    cs: Vec<(u128, i64)>,
    currency: &Vec<char>,
    out: &mut Vec<SettlementSuggestion>,
)
    requires
        forall|k: int| 0 <= k < ds@.len() ==> #[trigger] ds@[k].1 > 0,
        forall|k: int| 0 <= k < cs@.len() ==> #[trigger] cs@[k].1 > 0,
    ensures
        suggestions_view(final(out)@) == suggestions_view(old(out)@) + greedy(
            amounts_view(ds@),
            amounts_view(cs@),
        ).map_values(|t: (u128, u128, int)| transfer_view(t, currency@)),
{
    let ghost d0 = amounts_view(ds@);
    let ghost c0 = amounts_view(cs@);
    let ghost cur = currency@;
    let mut ds = ds;
    let mut cs = cs;
    let mut di: usize = 0;
    let mut ci: usize = 0;
    let ghost mut emitted: Seq<(u128, u128, int)> = Seq::empty();
    assert(amounts_view(ds@).skip(0) =~= d0);
    assert(amounts_view(cs@).skip(0) =~= c0);
    while di < ds.len() && ci < cs.len()
        invariant
            di <= ds.len(),
            ci <= cs.len(),
            cur == currency@,
            forall|k: int| di <= k < ds@.len() ==> #[trigger] ds@[k].1 > 0,
            forall|k: int| ci <= k < cs@.len() ==> #[trigger] cs@[k].1 > 0,
            greedy(d0, c0) == emitted + greedy(
                amounts_view(ds@).skip(di as int),
                amounts_view(cs@).skip(ci as int),
            ),
            suggestions_view(out@) == suggestions_view(old(out)@) + emitted.map_values(
                |t: (u128, u128, int)| transfer_view(t, cur),
            ),
        decreases (ds.len() - di) + (cs.len() - ci),
    {
        let ghost dv = amounts_view(ds@).skip(di as int);
        let ghost cv = amounts_view(cs@).skip(ci as int);
        let (debtor_id, debtor_left) = ds[di];
        let (creditor_id, creditor_left) = cs[ci];
        assert(dv[0] == (debtor_id, debtor_left as int));
        assert(cv[0] == (creditor_id, creditor_left as int));
        let transfer = if debtor_left <= creditor_left {
            debtor_left
        } else {
            creditor_left
        };
        let ghost before_out = out@;
        let suggestion = SettlementSuggestion {
            from_id: debtor_id,
            to_id: creditor_id,
            amount_cents: transfer,
            currency: string_from_chars(currency),
        };
        out.push(suggestion);
        let ghost t = (debtor_id, creditor_id, transfer as int);
        proof {
            assert(suggestions_view(out@) =~= suggestions_view(before_out).push(transfer_view(t, cur)));
            assert(emitted.push(t).map_values(|t: (u128, u128, int)| transfer_view(t, cur))
                =~= emitted.map_values(|t: (u128, u128, int)| transfer_view(t, cur)).push(
                transfer_view(t, cur),
            ));
        }
        let d_rest = debtor_left - transfer;
        let c_rest = creditor_left - transfer;
        let ghost ds_before = ds@;
        let ghost cs_before = cs@;
        ds.set(di, (debtor_id, d_rest));
        cs.set(ci, (creditor_id, c_rest));
        let ghost di0 = di;
        let ghost ci0 = ci;
        if d_rest == 0 {
            di += 1;
        }
        if c_rest == 0 {
            ci += 1;
        }
        proof {
            let nd = if dv[0].1 - transfer == 0 {
                dv.drop_first()
            } else {
                dv.update(0, (dv[0].0, dv[0].1 - transfer))
            };
            let nc = if cv[0].1 - transfer == 0 {
                cv.drop_first()
            } else {
                cv.update(0, (cv[0].0, cv[0].1 - transfer))
            };
            assert(amounts_view(ds@).skip(di as int) =~= nd);
            assert(amounts_view(cs@).skip(ci as int) =~= nc);
            assert(greedy(dv, cv) == seq![t] + greedy(nd, nc));
            emitted = emitted.push(t);
            assert(greedy(d0, c0) =~= emitted + greedy(nd, nc));
        }
    }
    proof {
        let dv = amounts_view(ds@).skip(di as int);
        let cv = amounts_view(cs@).skip(ci as int);
        assert(dv.len() == 0 || cv.len() == 0);
        assert(greedy(dv, cv) =~= Seq::<(u128, u128, int)>::empty());
        assert(greedy(d0, c0) =~= emitted);
    }
}

impl AppState {
    /// Transfers that settle every currency's balances: in each currency,
    /// those who owe most pay those who are owed most, as much as both allow.
    /// This takes at most one transfer fewer than the participants with a
    /// balance in that currency (`law_suggestions_fewer_than_unsettled`); it
    /// is not always the fewest transfers possible, which would take a search
    /// over the ways to split the balances into groups that settle among
    /// themselves.
    pub fn settlement_suggestions_by_currency(&self) -> (r: Vec<SettlementSuggestion>)
        requires
            ledger_fits(ledger(self@)),
            balances_negatable(self@),
        ensures
            suggestions_view(r@) == all_suggestions(balance_groups(self@)),
    {
        let ghost st = self@;
        let groups = self.compute_balances_by_currency();
        let ghost gs = balance_groups(st);
        let mut out: Vec<SettlementSuggestion> = Vec::new();
        for g in 0..groups.len()
            invariant
                st == self@,
                gs == balance_groups(st),
                groups_view(groups@) == gs,
                balances_negatable(st),
                suggestions_view(out@) == all_suggestions(gs.take(g as int)),
        {
            let group = &groups[g];
            let ghost gv = group@;
            assert(gs[g as int] == gv);
            proof {
                let c = gv.currency;
                let l = ledger(st);
                let pred = |p: ParticipantView| net(l, c, p.id) > i64::MIN;
                assert forall|k: int| 0 <= k < st.participants.len() implies pred(#[trigger] st.participants[k]) by {
                    assert(net(ledger(st), c, st.participants[k].id) > i64::MIN);
                }
                let sorted = stable_sort(
                    st.participants,
                    |a: ParticipantView, b: ParticipantView| exact_name_order(a, b),
                );
                lemma_stable_sort_all(
                    st.participants,
                    |a: ParticipantView, b: ParticipantView| exact_name_order(a, b),
                    pred,
                );
                lemma_stable_sort_len(
                    st.participants,
                    |a: ParticipantView, b: ParticipantView| exact_name_order(a, b),
                );
                assert(gv.balances == group_balances(st, c));
                assert(gv.balances.len() == sorted.len());
                assert forall|k: int| 0 <= k < group.balances@.len() implies #[trigger] group.balances@[k].net_cents
                    > i64::MIN by {
                    assert(group.balances@[k]@ == gv.balances[k]);
                    assert(gv.balances[k].net_cents == net(l, c, sorted[k].id));
                    assert(pred(sorted[k]));
                }
            }
            let (ds, cs) = sides(&group.balances);
            let code = chars_of(group.currency.as_str());
            let ghost before = out@;
            settle(ds, cs, &code, &mut out);
            proof {
                assert(gs.take(g + 1).drop_last() =~= gs.take(g as int));
                assert(group.balances@.map_values(|b: ParticipantBalance| b@) == gv.balances);
                assert(greedy(
                    stable_sort(debtors(gv.balances), |a: (u128, int), b: (u128, int)| larger_first(a, b)),
                    stable_sort(creditors(gv.balances), |a: (u128, int), b: (u128, int)| larger_first(a, b)),
                ).map_values(|t: (u128, u128, int)| transfer_view(t, gv.currency)) =~= group_suggestions(gv));
            }
        }
        assert(gs.take(groups.len() as int) =~= gs);
        out
    }
}


impl AppState {
    /// Whether suggestions can be computed: every running balance stays
    /// within `i64`, and no participant's balance is `i64::MIN`.
    pub fn suggestions_fit(&self) -> (r: bool)
        ensures
            r == (ledger_fits(ledger(self@)) && balances_negatable(self@)),
    {
        let ghost st = self@;
        let entries = ledger_of(self);
        let ghost l = entries_view(entries@);
        let nets = match fold_nets(&entries) {
            Some(n) => n,
            None => {
                return false;
            },
        };
        for i in 0..self.participants.len()
            invariant
                st == self@,
                l == ledger(st),
                nets_correct(nets@, l),
                forall|q: int, j: int|
                    0 <= q < i && 0 <= j < nets@.len() && #[trigger] nets@[j].participant == #[trigger] st.participants[q].id
                        ==> nets@[j].net != i64::MIN,
        {
            let id = self.participants[i].id;
            assert(st.participants[i as int].id == id);
            for j in 0..nets.len()
                invariant
                    st == self@,
                    l == ledger(st),
                    nets_correct(nets@, l),
                    id == st.participants[i as int].id,
                    i < st.participants.len(),
                    forall|q: int, jj: int|
                        0 <= q < i && 0 <= jj < nets@.len() && #[trigger] nets@[jj].participant == #[trigger] st.participants[q].id
                            ==> nets@[jj].net != i64::MIN,
                    forall|jj: int| 0 <= jj < j && #[trigger] nets@[jj].participant == id ==> nets@[jj].net != i64::MIN,
            {
                if nets[j].participant == id && nets[j].net == i64::MIN {
                    proof {
                        let c = nets@[j as int].currency@;
                        assert(net(l, c, st.participants[i as int].id) == i64::MIN);
                        assert(!balances_negatable(st));
                    }
                    return false;
                }
            }
        }
        proof {
            assert forall|c: Seq<char>, q: int| 0 <= q < st.participants.len() implies #[trigger] net(
                ledger(st),
                c,
                st.participants[q].id,
            ) > i64::MIN by {
                let id = st.participants[q].id;
                if key_stored(nets@, c, id) {
                    let j = choose|j: int| 0 <= j < nets@.len() && #[trigger] nets@[j].currency@ == c && nets@[j].participant == id;
                    assert(nets@[j].net == net(l, c, id));
                    assert(nets@[j].net != i64::MIN);
                } else {
                    assert(net(l, c, id) == 0);
                }
            }
        }
        true
    }
}

} // verus!
