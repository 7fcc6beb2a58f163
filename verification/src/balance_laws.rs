//! What holds of balances and currencies across the ledger.
use crate::balances::{
    BalanceView, SuggestionView, all_suggestions, group_balances, creditors, debtors, greedy, group_suggestions, larger_first, EntryView, GroupView, balance_groups, exact_name_order, share_entries, currencies_of, expense_entries, expense_ledger, insert_currency,
    ledger, net, settlement_entries, settlement_ledger,
};
use crate::model::{ExpenseView, ParticipantView, SettlementView, Share, StateView};
use crate::sorting::{
    lemma_stable_sort_all, lemma_stable_sort_contains, lemma_stable_sort_sorted, sorted_insert, stable_sort,
    total_preorder,
};
use crate::state::{has_participant, share_sum};
use crate::money::currency_code;
use crate::text::{lemma_lex_le_antisym, lemma_lex_le_total, lemma_lex_le_trans, lex_le};
use vstd::prelude::*;

verus! {

/// Each code comes before the next, and none repeats.
pub open spec fn strictly_ascending(s: Seq<Seq<char>>) -> bool {
    forall|i: int, j: int| 0 <= i < j < s.len() ==> lex_le(#[trigger] s[i], #[trigger] s[j]) && s[i] != s[j]
}

proof fn lemma_insert_currency(s: Seq<Seq<char>>, c: Seq<char>)
    requires
        strictly_ascending(s),
    ensures
        strictly_ascending(insert_currency(s, c)),
        forall|x: Seq<char>| #[trigger] insert_currency(s, c).contains(x) <==> s.contains(x) || x == c,
    decreases s.len(),
{
    let r = insert_currency(s, c);
    if s.len() == 0 {
        assert forall|x: Seq<char>| #[trigger] r.contains(x) <==> s.contains(x) || x == c by {
            if x == c {
                assert(r[0] == x);
            }
        }
    } else if s[0] == c {
        assert forall|x: Seq<char>| #[trigger] r.contains(x) <==> s.contains(x) || x == c by {
            if x == c {
                assert(s[0] == x);
            }
        }
    } else if lex_le(c, s[0]) {
        assert forall|i: int, j: int| 0 <= i < j < r.len() implies lex_le(#[trigger] r[i], #[trigger] r[j])
            && r[i] != r[j] by {
            if i == 0 {
                if j > 1 {
                    lemma_lex_le_trans(c, s[0], s[j - 1]);
                    if c == s[j - 1] {
                        lemma_lex_le_antisym(s[0], c);
                    }
                }
            } else {
                assert(r[i] == s[i - 1] && r[j] == s[j - 1]);
            }
        }
        assert forall|x: Seq<char>| #[trigger] r.contains(x) <==> s.contains(x) || x == c by {
            if s.contains(x) {
                let k = choose|k: int| 0 <= k < s.len() && s[k] == x;
                assert(r[k + 1] == x);
            }
            if r.contains(x) && x != c {
                let k = choose|k: int| 0 <= k < r.len() && r[k] == x;
                assert(s[k - 1] == x);
            }
            if x == c {
                assert(r[0] == x);
            }
        }
    } else {
        let t = s.drop_first();
        assert(strictly_ascending(t)) by {
            assert forall|i: int, j: int| 0 <= i < j < t.len() implies lex_le(#[trigger] t[i], #[trigger] t[j])
                && t[i] != t[j] by {
                assert(t[i] == s[i + 1] && t[j] == s[j + 1]);
            }
        }
        lemma_insert_currency(t, c);
        let u = insert_currency(t, c);
        lemma_lex_le_total(c, s[0]);
        assert forall|i: int, j: int| 0 <= i < j < r.len() implies lex_le(#[trigger] r[i], #[trigger] r[j])
            && r[i] != r[j] by {
            if i == 0 {
                assert(r[j] == u[j - 1]);
                assert(u.contains(u[j - 1]));
                if t.contains(u[j - 1]) {
                    let k = choose|k: int| 0 <= k < t.len() && t[k] == u[j - 1];
                    assert(s[k + 1] == u[j - 1]);
                }
            } else {
                assert(r[i] == u[i - 1] && r[j] == u[j - 1]);
            }
        }
        assert forall|x: Seq<char>| #[trigger] r.contains(x) <==> s.contains(x) || x == c by {
            if s.contains(x) {
                let k = choose|k: int| 0 <= k < s.len() && s[k] == x;
                if k == 0 {
                    assert(r[0] == x);
                } else {
                    assert(t[k - 1] == x);
                    assert(u.contains(x));
                    let q = choose|q: int| 0 <= q < u.len() && u[q] == x;
                    assert(r[q + 1] == x);
                }
            }
            if r.contains(x) {
                let k = choose|k: int| 0 <= k < r.len() && r[k] == x;
                if k == 0 {
                    assert(s[0] == x);
                } else {
                    assert(u[k - 1] == x);
                    assert(u.contains(x));
                    if t.contains(x) {
                        let q = choose|q: int| 0 <= q < t.len() && t[q] == x;
                        assert(s[q + 1] == x);
                    }
                }
            }
            if x == c {
                assert(u.contains(x));
                let q = choose|q: int| 0 <= q < u.len() && u[q] == x;
                assert(r[q + 1] == x);
            }
        }
    }
}

/// Whether some change of `l` is in currency `c`.
pub open spec fn ledger_uses(l: Seq<EntryView>, c: Seq<char>) -> bool {
    exists|k: int| 0 <= k < l.len() && #[trigger] l[k].currency == c
}

proof fn lemma_currencies_of(l: Seq<EntryView>)
    ensures
        strictly_ascending(currencies_of(l)),
        forall|c: Seq<char>| #[trigger] currencies_of(l).contains(c) <==> ledger_uses(l, c),
    decreases l.len(),
{
    if l.len() > 0 {
        let t = l.drop_last();
        lemma_currencies_of(t);
        lemma_insert_currency(currencies_of(t), l.last().currency);
        assert forall|c: Seq<char>| #[trigger] currencies_of(l).contains(c) <==> ledger_uses(l, c) by {
            if ledger_uses(t, c) {
                let k = choose|k: int| 0 <= k < t.len() && #[trigger] t[k].currency == c;
                assert(l[k].currency == c);
            }
            if ledger_uses(l, c) && l.last().currency != c {
                let k = choose|k: int| 0 <= k < l.len() && #[trigger] l[k].currency == c;
                assert(t[k].currency == c);
            }
            if l.last().currency == c {
                assert(l[l.len() - 1].currency == c);
            }
        }
    }
}

/// Whether some expense of `es` is in currency `c` once normalized.
pub open spec fn expenses_use(es: Seq<ExpenseView>, c: Seq<char>) -> bool {
    exists|i: int| 0 <= i < es.len() && currency_code(#[trigger] es[i].currency) == c
}

/// Whether some settlement of `ss` is in currency `c` once normalized.
pub open spec fn settlements_use(ss: Seq<SettlementView>, c: Seq<char>) -> bool {
    exists|i: int| 0 <= i < ss.len() && currency_code(#[trigger] ss[i].currency) == c
}

proof fn lemma_concat_uses(a: Seq<EntryView>, b: Seq<EntryView>, c: Seq<char>)
    ensures
        ledger_uses(a + b, c) <==> ledger_uses(a, c) || ledger_uses(b, c),
{
    let ab = a + b;
    if ledger_uses(a, c) {
        let k = choose|k: int| 0 <= k < a.len() && #[trigger] a[k].currency == c;
        assert(ab[k].currency == c);
    }
    if ledger_uses(b, c) {
        let k = choose|k: int| 0 <= k < b.len() && #[trigger] b[k].currency == c;
        assert(ab[a.len() + k].currency == c);
    }
    if ledger_uses(ab, c) {
        let k = choose|k: int| 0 <= k < ab.len() && #[trigger] ab[k].currency == c;
        if k < a.len() {
            assert(a[k].currency == c);
        } else {
            assert(b[k - a.len()].currency == c);
        }
    }
}

proof fn lemma_expense_ledger_uses(es: Seq<ExpenseView>, c: Seq<char>)
    ensures
        ledger_uses(expense_ledger(es), c) <==> expenses_use(es, c),
    decreases es.len(),
{
    if es.len() > 0 {
        let t = es.drop_last();
        let e = es.last();
        lemma_expense_ledger_uses(t, c);
        lemma_concat_uses(expense_ledger(t), expense_entries(e), c);
        let ee = expense_entries(e);
        assert(ee[0].currency == currency_code(e.currency));
        assert forall|k: int| 0 <= k < ee.len() implies #[trigger] ee[k].currency == currency_code(e.currency) by {
            if k > 0 {
                assert(ee[k] == ee.drop_first()[k - 1]);
            }
        }
        if expenses_use(t, c) {
            let i = choose|i: int| 0 <= i < t.len() && currency_code(#[trigger] t[i].currency) == c;
            assert(es[i] == t[i]);
        }
        if expenses_use(es, c) && currency_code(e.currency) != c {
            let i = choose|i: int| 0 <= i < es.len() && currency_code(#[trigger] es[i].currency) == c;
            assert(t[i] == es[i]);
        }
        if currency_code(e.currency) == c {
            assert(currency_code(es[es.len() - 1].currency) == c);
        }
        if ledger_uses(ee, c) {
            let k = choose|k: int| 0 <= k < ee.len() && #[trigger] ee[k].currency == c;
            assert(currency_code(es[es.len() - 1].currency) == c);
        }
    }
}

proof fn lemma_settlement_ledger_uses(ss: Seq<SettlementView>, c: Seq<char>)
    ensures
        ledger_uses(settlement_ledger(ss), c) <==> settlements_use(ss, c),
    decreases ss.len(),
{
    if ss.len() > 0 {
        let t = ss.drop_last();
        let s = ss.last();
        lemma_settlement_ledger_uses(t, c);
        lemma_concat_uses(settlement_ledger(t), settlement_entries(s), c);
        let se = settlement_entries(s);
        if settlements_use(t, c) {
            let i = choose|i: int| 0 <= i < t.len() && currency_code(#[trigger] t[i].currency) == c;
            assert(ss[i] == t[i]);
        }
        if settlements_use(ss, c) && currency_code(s.currency) != c {
            let i = choose|i: int| 0 <= i < ss.len() && currency_code(#[trigger] ss[i].currency) == c;
            assert(t[i] == ss[i]);
        }
        if currency_code(s.currency) == c {
            assert(currency_code(ss[ss.len() - 1].currency) == c);
            assert(se[0].currency == c);
        }
        if ledger_uses(se, c) {
            assert(currency_code(ss[ss.len() - 1].currency) == c);
        }
    }
}

/// The currency codes of the balance groups, in order.
pub open spec fn group_currencies(st: StateView) -> Seq<Seq<char>> {
    balance_groups(st).map_values(|g: GroupView| g.currency)
}

/// There is one balance group per currency that some expense or settlement
/// uses, and no other; the groups come in ascending order of code, each code
/// once.
pub proof fn law_one_group_per_used_currency(st: StateView)
    ensures
        strictly_ascending(group_currencies(st)),
        forall|c: Seq<char>|
            #[trigger] group_currencies(st).contains(c) <==> expenses_use(st.expenses, c)
                || settlements_use(st.settlements, c),
{
    let l = ledger(st);
    lemma_currencies_of(l);
    let cs = group_currencies(st);
    assert(cs =~= currencies_of(l));
    assert forall|c: Seq<char>| #[trigger] cs.contains(c) <==> expenses_use(st.expenses, c)
        || settlements_use(st.settlements, c) by {
        lemma_concat_uses(expense_ledger(st.expenses), settlement_ledger(st.settlements), c);
        lemma_expense_ledger_uses(st.expenses, c);
        lemma_settlement_ledger_uses(st.settlements, c);
    }
}


/// The sum of `f` over `s`.
pub open spec fn seq_sum<T>(s: Seq<T>, f: spec_fn(T) -> int) -> int
    decreases s.len(),
{
    if s.len() == 0 {
        0
    } else {
        seq_sum(s.drop_last(), f) + f(s.last())
    }
}

proof fn lemma_seq_sum_prepend<T>(x: T, s: Seq<T>, f: spec_fn(T) -> int)
    ensures
        seq_sum(seq![x] + s, f) == f(x) + seq_sum(s, f),
    decreases s.len(),
{
    let xs = seq![x] + s;
    if s.len() > 0 {
        lemma_seq_sum_prepend(x, s.drop_last(), f);
        assert(xs.drop_last() =~= seq![x] + s.drop_last());
        assert(xs.last() == s.last());
        assert(seq_sum(xs, f) == seq_sum(xs.drop_last(), f) + f(xs.last()));
        assert(seq_sum(s, f) == seq_sum(s.drop_last(), f) + f(s.last()));
    } else {
        assert(xs.drop_last() =~= Seq::<T>::empty());
        assert(xs.last() == x);
        assert(seq_sum(xs, f) == seq_sum(xs.drop_last(), f) + f(xs.last()));
    }
}

proof fn lemma_seq_sum_sorted_insert<T>(s: Seq<T>, x: T, le: spec_fn(T, T) -> bool, f: spec_fn(T) -> int)
    ensures
        seq_sum(sorted_insert(s, x, le), f) == seq_sum(s, f) + f(x),
    decreases s.len(),
{
    if s.len() == 0 {
        lemma_seq_sum_prepend(x, s, f);
    } else if !le(s[0], x) {
        lemma_seq_sum_prepend(x, s, f);
    } else {
        let t = s.drop_first();
        lemma_seq_sum_sorted_insert(t, x, le, f);
        lemma_seq_sum_prepend(s[0], sorted_insert(t, x, le), f);
        lemma_seq_sum_prepend(s[0], t, f);
        assert(seq![s[0]] + t =~= s);
    }
}

/// Sorting does not change a sum.
pub proof fn lemma_seq_sum_stable_sort<T>(s: Seq<T>, le: spec_fn(T, T) -> bool, f: spec_fn(T) -> int)
    ensures
        seq_sum(stable_sort(s, le), f) == seq_sum(s, f),
    decreases s.len(),
{
    if s.len() > 0 {
        lemma_seq_sum_stable_sort(s.drop_last(), le, f);
        lemma_seq_sum_sorted_insert(stable_sort(s.drop_last(), le), s.last(), le, f);
    }
}

proof fn lemma_seq_sum_map<A, B>(s: Seq<A>, g: spec_fn(A) -> B, f: spec_fn(B) -> int, h: spec_fn(A) -> int)
    requires
        forall|a: A| #[trigger] h(a) == f(g(a)),
    ensures
        seq_sum(s.map_values(g), f) == seq_sum(s, h),
    decreases s.len(),
{
    if s.len() > 0 {
        lemma_seq_sum_map(s.drop_last(), g, f, h);
        assert(s.map_values(g).drop_last() =~= s.drop_last().map_values(g));
    }
}

/// The sum of the changes of `l` in currency `c`.
pub open spec fn currency_total(l: Seq<EntryView>, c: Seq<char>) -> int
    decreases l.len(),
{
    if l.len() == 0 {
        0
    } else {
        currency_total(l.drop_last(), c) + if l.last().currency == c {
            l.last().delta
        } else {
            0
        }
    }
}

/// No two participants share an identifier.
pub open spec fn ids_unique(ps: Seq<ParticipantView>) -> bool {
    forall|i: int, j: int| 0 <= i < j < ps.len() ==> #[trigger] ps[i].id != #[trigger] ps[j].id
}

/// The sum of the balances of `ps` in currency `c`.
pub open spec fn sum_nets(ps: Seq<ParticipantView>, l: Seq<EntryView>, c: Seq<char>) -> int {
    seq_sum(ps, |p: ParticipantView| net(l, c, p.id))
}

proof fn lemma_sum_nets_push(ps: Seq<ParticipantView>, l: Seq<EntryView>, e: EntryView, c: Seq<char>)
    ensures
        sum_nets(ps, l.push(e), c) == sum_nets(ps, l, c) + if e.currency == c {
            id_count(ps, e.participant) * e.delta
        } else {
            0
        },
    decreases ps.len(),
{
    assert(l.push(e).drop_last() =~= l);
    if ps.len() == 0 {
        assert(id_count(ps, e.participant) == 0);
        assert(0 * e.delta == 0);
    } else {
        let t = ps.drop_last();
        lemma_sum_nets_push(t, l, e, c);
        let n = id_count(t, e.participant);
        if ps.last().id == e.participant {
            assert(id_count(ps, e.participant) == n + 1);
            assert((n + 1) * e.delta == n * e.delta + e.delta) by (nonlinear_arith);
        } else {
            assert(id_count(ps, e.participant) == n);
        }
    }
}

/// When every change names an identifier of exactly one listed participant,
/// the balances of the participants in a currency add up to the sum of the
/// changes in it.
proof fn lemma_sum_nets_total(ps: Seq<ParticipantView>, l: Seq<EntryView>, c: Seq<char>)
    requires
        forall|k: int| 0 <= k < l.len() ==> id_count(ps, #[trigger] l[k].participant) == 1,
    ensures
        sum_nets(ps, l, c) == currency_total(l, c),
    decreases l.len(),
{
    if l.len() == 0 {
        assert(sum_nets(ps, l, c) == 0) by {
            lemma_sum_nets_zero(ps, l, c);
        }
    } else {
        let t = l.drop_last();
        assert forall|k: int| 0 <= k < t.len() implies id_count(ps, #[trigger] t[k].participant) == 1 by {
            assert(t[k] == l[k]);
        }
        lemma_sum_nets_total(ps, t, c);
        assert(t.push(l.last()) =~= l);
        let e = l.last();
        assert(id_count(ps, l[l.len() - 1].participant) == 1);
        assert(id_count(ps, e.participant) * e.delta == e.delta) by (nonlinear_arith)
            requires
                id_count(ps, e.participant) == 1,
        ;
        lemma_sum_nets_push(ps, t, e, c);
    }
}

proof fn lemma_sum_nets_zero(ps: Seq<ParticipantView>, l: Seq<EntryView>, c: Seq<char>)
    requires
        l.len() == 0,
    ensures
        sum_nets(ps, l, c) == 0,
    decreases ps.len(),
{
    if ps.len() > 0 {
        lemma_sum_nets_zero(ps.drop_last(), l, c);
    }
}

proof fn lemma_total_concat(a: Seq<EntryView>, b: Seq<EntryView>, c: Seq<char>)
    ensures
        currency_total(a + b, c) == currency_total(a, c) + currency_total(b, c),
    decreases b.len(),
{
    if b.len() == 0 {
        assert(a + b =~= a);
    } else {
        lemma_total_concat(a, b.drop_last(), c);
        assert((a + b).drop_last() =~= a + b.drop_last());
    }
}

proof fn lemma_share_entries_total(shares: Seq<Share>, code: Seq<char>, c: Seq<char>)
    ensures
        currency_total(share_entries(shares, code), c) == if code == c {
            -share_sum(shares)
        } else {
            0
        },
    decreases shares.len(),
{
    let f = |sh: Share| EntryView { currency: code, participant: sh.participant_id, delta: -(sh.amount_cents as int) };
    if shares.len() > 0 {
        lemma_share_entries_total(shares.drop_last(), code, c);
        assert(shares.map_values(f).drop_last() =~= shares.drop_last().map_values(f));
    }
}

/// Whether each expense's shares add up to its total.
pub open spec fn shares_balanced(st: StateView) -> bool {
    forall|i: int| 0 <= i < st.expenses.len() ==> share_sum(#[trigger] st.expenses[i].shares) == st.expenses[i].total_cents
}

/// Whether every record names only listed participants.
pub open spec fn records_known(st: StateView) -> bool {
    &&& forall|i: int| 0 <= i < st.expenses.len() ==> has_participant(st.participants, #[trigger] st.expenses[i].payer_id)
    &&& forall|i: int, j: int|
        0 <= i < st.expenses.len() && 0 <= j < st.expenses[i].shares.len() ==> has_participant(
            st.participants,
            #[trigger] st.expenses[i].shares[j].participant_id,
        )
    &&& forall|k: int| 0 <= k < st.settlements.len() ==> has_participant(st.participants, #[trigger] st.settlements[k].from_id)
    &&& forall|k: int| 0 <= k < st.settlements.len() ==> has_participant(st.participants, #[trigger] st.settlements[k].to_id)
}

/// Whether every identifier that a record names (an expense's payer and
/// share holders, a settlement's sender and receiver) is the identifier of
/// exactly one participant.
pub open spec fn records_named_once(st: StateView) -> bool {
    let ps = st.participants;
    &&& forall|i: int| 0 <= i < st.expenses.len() ==> id_count(ps, #[trigger] st.expenses[i].payer_id) == 1
    &&& forall|i: int, j: int|
        0 <= i < st.expenses.len() && 0 <= j < st.expenses[i].shares.len() ==> id_count(
            ps,
            #[trigger] st.expenses[i].shares[j].participant_id,
        ) == 1
    &&& forall|k: int| 0 <= k < st.settlements.len() ==> id_count(ps, #[trigger] st.settlements[k].from_id) == 1
    &&& forall|k: int| 0 <= k < st.settlements.len() ==> id_count(ps, #[trigger] st.settlements[k].to_id) == 1
}

proof fn lemma_expense_ledger_total(es: Seq<ExpenseView>, c: Seq<char>)
    requires
        forall|i: int| 0 <= i < es.len() ==> share_sum(#[trigger] es[i].shares) == es[i].total_cents,
    ensures
        currency_total(expense_ledger(es), c) == 0,
    decreases es.len(),
{
    if es.len() > 0 {
        let t = es.drop_last();
        let e = es.last();
        assert forall|i: int| 0 <= i < t.len() implies share_sum(#[trigger] t[i].shares) == t[i].total_cents by {
            assert(t[i] == es[i]);
        }
        lemma_expense_ledger_total(t, c);
        lemma_total_concat(expense_ledger(t), expense_entries(e), c);
        let code = currency_code(e.currency);
        let head = seq![EntryView { currency: code, participant: e.payer_id, delta: e.total_cents as int }];
        let rest = share_entries(e.shares, code);
        lemma_total_concat(head, rest, c);
        assert(head.drop_last() =~= Seq::<EntryView>::empty());
        assert(currency_total(head.drop_last(), c) == 0);
        assert(head.last() == head[0]);
        assert(currency_total(head, c) == if code == c { e.total_cents as int } else { 0 });
        lemma_share_entries_total(e.shares, code, c);
        assert(share_sum(es[es.len() - 1].shares) == es[es.len() - 1].total_cents);
        assert(expense_entries(e) == head + rest);
        assert(expense_ledger(es) == expense_ledger(t) + expense_entries(e));
        assert(currency_total(expense_entries(e), c) == 0);
    }
}

proof fn lemma_settlement_ledger_total(ss: Seq<SettlementView>, c: Seq<char>)
    ensures
        currency_total(settlement_ledger(ss), c) == 0,
    decreases ss.len(),
{
    if ss.len() > 0 {
        let t = ss.drop_last();
        lemma_settlement_ledger_total(t, c);
        lemma_total_concat(settlement_ledger(t), settlement_entries(ss.last()), c);
        let se = settlement_entries(ss.last());
        assert(se.drop_last() =~= seq![se[0]]);
        assert(se.drop_last().drop_last() =~= Seq::<EntryView>::empty());
        assert(currency_total(se.drop_last(), c) == currency_total(se.drop_last().drop_last(), c) + if se[0].currency == c {
            se[0].delta
        } else {
            0
        });
    }
}

/// What holds of every identifier the records name holds of every
/// identifier their balance changes name.
proof fn lemma_entries_named(es: Seq<ExpenseView>, ss: Seq<SettlementView>, ok: spec_fn(u128) -> bool)
    requires
        forall|i: int| 0 <= i < es.len() ==> ok(#[trigger] es[i].payer_id),
        forall|i: int, j: int|
            0 <= i < es.len() && 0 <= j < es[i].shares.len() ==> ok(#[trigger] es[i].shares[j].participant_id),
        forall|k: int| 0 <= k < ss.len() ==> ok(#[trigger] ss[k].from_id),
        forall|k: int| 0 <= k < ss.len() ==> ok(#[trigger] ss[k].to_id),
    ensures
        forall|k: int| 0 <= k < expense_ledger(es).len() ==> ok(#[trigger] expense_ledger(es)[k].participant),
        forall|k: int| 0 <= k < settlement_ledger(ss).len() ==> ok(#[trigger] settlement_ledger(ss)[k].participant),
    decreases es.len() + ss.len(),
{
    if es.len() > 0 {
        let t = es.drop_last();
        assert forall|i: int| 0 <= i < t.len() implies ok(#[trigger] t[i].payer_id) by {
            assert(t[i] == es[i]);
        }
        assert forall|i: int, j: int| 0 <= i < t.len() && 0 <= j < t[i].shares.len() implies ok(#[trigger] t[i].shares[j].participant_id) by {
            assert(t[i] == es[i]);
        }
        lemma_entries_named(t, ss, ok);
        let e = es.last();
        let n = es.len() - 1;
        let a = expense_ledger(t);
        let b = expense_entries(e);
        assert forall|k: int| 0 <= k < expense_ledger(es).len() implies ok(#[trigger] expense_ledger(es)[k].participant) by {
            if k < a.len() {
                assert(expense_ledger(es)[k] == a[k]);
            } else {
                let q = k - a.len();
                assert(expense_ledger(es)[k] == b[q]);
                if q == 0 {
                    assert(ok(es[n].payer_id));
                } else {
                    assert(b[q].participant == e.shares[q - 1].participant_id);
                    assert(ok(es[n].shares[q - 1].participant_id));
                }
            }
        }
    } else if ss.len() > 0 {
        let t = ss.drop_last();
        assert forall|k: int| 0 <= k < t.len() implies ok(#[trigger] t[k].from_id) by {
            assert(t[k] == ss[k]);
        }
        assert forall|k: int| 0 <= k < t.len() implies ok(#[trigger] t[k].to_id) by {
            assert(t[k] == ss[k]);
        }
        lemma_entries_named(es, t, ok);
        let n = ss.len() - 1;
        let a = settlement_ledger(t);
        assert forall|k: int| 0 <= k < settlement_ledger(ss).len() implies ok(#[trigger] settlement_ledger(ss)[k].participant) by {
            if k < a.len() {
                assert(settlement_ledger(ss)[k] == a[k]);
            } else {
                assert(ok(ss[n].from_id));
                assert(ok(ss[n].to_id));
            }
        }
    }
}

/// Every identifier the ledger's balance changes name belongs to exactly one
/// participant, when the records name each such identifier once.
proof fn lemma_ledger_named_once(st: StateView)
    requires
        records_named_once(st),
    ensures
        forall|k: int| 0 <= k < ledger(st).len() ==> id_count(st.participants, #[trigger] ledger(st)[k].participant) == 1,
{
    let ps = st.participants;
    let l = ledger(st);
    let once = |id: u128| id_count(ps, id) == 1;
    lemma_entries_named(st.expenses, st.settlements, once);
    assert forall|k: int| 0 <= k < l.len() implies id_count(ps, #[trigger] l[k].participant) == 1 by {
        let a = expense_ledger(st.expenses);
        if k < a.len() {
            assert(l[k] == a[k]);
            assert(once(a[k].participant));
        } else {
            assert(l[k] == settlement_ledger(st.settlements)[k - a.len()]);
            assert(once(settlement_ledger(st.settlements)[k - a.len()].participant));
        }
    }
}

/// Balances add up to zero in every currency: what some are owed, others
/// owe. This holds when every identifier a record names belongs to exactly
/// one participant and each expense's shares add up to its total (as
/// recording an expense makes them).
pub proof fn law_balances_sum_to_zero(st: StateView, g: int)
    requires
        records_named_once(st),
        shares_balanced(st),
        0 <= g < balance_groups(st).len(),
    ensures
        seq_sum(balance_groups(st)[g].balances, |b: BalanceView| b.net_cents) == 0,
{
    let l = ledger(st);
    let c = currencies_of(l)[g];
    let ps = st.participants;
    let le = |a: ParticipantView, b: ParticipantView| exact_name_order(a, b);
    let f = |p: ParticipantView| net(l, c, p.id);
    let mk = |p: ParticipantView| BalanceView { participant: p, net_cents: net(l, c, p.id) };
    assert(balance_groups(st)[g].balances == stable_sort(ps, le).map_values(mk));
    lemma_seq_sum_map(stable_sort(ps, le), mk, |b: BalanceView| b.net_cents, f);
    lemma_seq_sum_stable_sort(ps, le, f);
    lemma_ledger_named_once(st);
    lemma_sum_nets_total(ps, l, c);
    lemma_total_concat(expense_ledger(st.expenses), settlement_ledger(st.settlements), c);
    lemma_expense_ledger_total(st.expenses, c);
    lemma_settlement_ledger_total(st.settlements, c);
}


/// What the transfers `ts` change for participant `id`: what they pay minus
/// what they receive.
pub open spec fn flow(ts: Seq<(u128, u128, int)>, id: u128) -> int
    decreases ts.len(),
{
    if ts.len() == 0 {
        0
    } else {
        flow(ts.drop_last(), id) + (if ts.last().0 == id {
            ts.last().2
        } else {
            0
        }) - (if ts.last().1 == id {
            ts.last().2
        } else {
            0
        })
    }
}

/// What the suggested transfers `ts` change for participant `id`: what they
/// pay minus what they receive.
pub open spec fn suggested_flow(ts: Seq<SuggestionView>, id: u128) -> int
    decreases ts.len(),
{
    if ts.len() == 0 {
        0
    } else {
        suggested_flow(ts.drop_last(), id) + (if ts.last().from_id == id {
            ts.last().amount_cents
        } else {
            0
        }) - (if ts.last().to_id == id {
            ts.last().amount_cents
        } else {
            0
        })
    }
}

proof fn lemma_flow_concat(a: Seq<(u128, u128, int)>, b: Seq<(u128, u128, int)>, id: u128)
    ensures
        flow(a + b, id) == flow(a, id) + flow(b, id),
    decreases b.len(),
{
    if b.len() == 0 {
        assert(a + b =~= a);
    } else {
        lemma_flow_concat(a, b.drop_last(), id);
        assert((a + b).drop_last() =~= a + b.drop_last());
    }
}

proof fn lemma_suggested_flow_map(ts: Seq<(u128, u128, int)>, c: Seq<char>, id: u128)
    ensures
        suggested_flow(
            ts.map_values(
                |t: (u128, u128, int)| SuggestionView { from_id: t.0, to_id: t.1, amount_cents: t.2, currency: c },
            ),
            id,
        ) == flow(ts, id),
    decreases ts.len(),
{
    let f = |t: (u128, u128, int)| SuggestionView { from_id: t.0, to_id: t.1, amount_cents: t.2, currency: c };
    if ts.len() > 0 {
        lemma_suggested_flow_map(ts.drop_last(), c, id);
        assert(ts.map_values(f).drop_last() =~= ts.drop_last().map_values(f));
    }
}

/// The amount of an entry if it belongs to `id`, else zero.
pub open spec fn amount_if(id: u128) -> spec_fn((u128, int)) -> int {
    |d: (u128, int)| if d.0 == id { d.1 } else { 0 }
}

/// The amount of an entry.
pub open spec fn amount_any() -> spec_fn((u128, int)) -> int {
    |d: (u128, int)| d.1
}

/// The amounts of `s` that belong to `id`.
pub open spec fn amount_of(s: Seq<(u128, int)>, id: u128) -> int {
    seq_sum(s, amount_if(id))
}

/// All the amounts of `s`.
pub open spec fn amount_total(s: Seq<(u128, int)>) -> int {
    seq_sum(s, amount_any())
}

proof fn lemma_seq_sum_head<T>(s: Seq<T>, f: spec_fn(T) -> int)
    requires
        s.len() > 0,
    ensures
        seq_sum(s, f) == f(s[0]) + seq_sum(s.drop_first(), f),
{
    lemma_seq_sum_prepend(s[0], s.drop_first(), f);
    assert(seq![s[0]] + s.drop_first() =~= s);
}

proof fn lemma_positive_total(s: Seq<(u128, int)>)
    requires
        forall|k: int| 0 <= k < s.len() ==> #[trigger] s[k].1 > 0,
    ensures
        amount_total(s) >= 0,
        s.len() > 0 ==> amount_total(s) > 0,
    decreases s.len(),
{
    if s.len() > 0 {
        let t = s.drop_last();
        assert forall|k: int| 0 <= k < t.len() implies #[trigger] t[k].1 > 0 by {
            assert(t[k] == s[k]);
        }
        lemma_positive_total(t);
        assert(s.last().1 > 0);
    }
}

proof fn lemma_greedy_flow(ds: Seq<(u128, int)>, cs: Seq<(u128, int)>, id: u128)
    requires
        forall|k: int| 0 <= k < ds.len() ==> #[trigger] ds[k].1 > 0,
        forall|k: int| 0 <= k < cs.len() ==> #[trigger] cs[k].1 > 0,
        amount_total(ds) == amount_total(cs),
    ensures
        flow(greedy(ds, cs), id) == amount_of(ds, id) - amount_of(cs, id),
    decreases ds.len() + cs.len(),
{
    let fa = amount_if(id);
    let ft = amount_any();
    if ds.len() == 0 || cs.len() == 0 {
        lemma_positive_total(ds);
        lemma_positive_total(cs);
        assert(ds.len() == 0 && cs.len() == 0);
        assert(greedy(ds, cs) =~= Seq::<(u128, u128, int)>::empty());
        assert(amount_of(ds, id) == 0);
        assert(amount_of(cs, id) == 0);
    } else {
        let t = if ds[0].1 <= cs[0].1 { ds[0].1 } else { cs[0].1 };
        let nd = if ds[0].1 - t == 0 {
            ds.drop_first()
        } else {
            ds.update(0, (ds[0].0, ds[0].1 - t))
        };
        let nc = if cs[0].1 - t == 0 {
            cs.drop_first()
        } else {
            cs.update(0, (cs[0].0, cs[0].1 - t))
        };
        let head = seq![(ds[0].0, cs[0].0, t)];
        lemma_seq_sum_head(ds, fa);
        lemma_seq_sum_head(ds, ft);
        lemma_seq_sum_head(cs, fa);
        lemma_seq_sum_head(cs, ft);
        if ds[0].1 - t != 0 {
            lemma_seq_sum_head(nd, fa);
            lemma_seq_sum_head(nd, ft);
            assert(nd.drop_first() =~= ds.drop_first());
        }
        if cs[0].1 - t != 0 {
            lemma_seq_sum_head(nc, fa);
            lemma_seq_sum_head(nc, ft);
            assert(nc.drop_first() =~= cs.drop_first());
        }
        assert forall|k: int| 0 <= k < nd.len() implies #[trigger] nd[k].1 > 0 by {
            if ds[0].1 - t == 0 {
                assert(nd[k] == ds[k + 1]);
            } else if k > 0 {
                assert(nd[k] == ds[k]);
            }
        }
        assert forall|k: int| 0 <= k < nc.len() implies #[trigger] nc[k].1 > 0 by {
            if cs[0].1 - t == 0 {
                assert(nc[k] == cs[k + 1]);
            } else if k > 0 {
                assert(nc[k] == cs[k]);
            }
        }
        lemma_greedy_flow(nd, nc, id);
        lemma_flow_concat(head, greedy(nd, nc), id);
        assert(head.drop_last() =~= Seq::<(u128, u128, int)>::empty());
        assert(head.last() == (ds[0].0, cs[0].0, t));
        assert(flow(head.drop_last(), id) == 0);
        assert(flow(head, id) == (if ds[0].0 == id { t } else { 0 }) - (if cs[0].0 == id { t } else { 0 }));
        assert(t > 0);
        assert(greedy(ds, cs) == head + greedy(nd, nc));
        assert(amount_of(nd, id) == amount_of(ds, id) - (if ds[0].0 == id { t } else { 0 }));
        assert(amount_of(nc, id) == amount_of(cs, id) - (if cs[0].0 == id { t } else { 0 }));
    }
}

proof fn lemma_sides_totals(bs: Seq<BalanceView>, id: u128)
    ensures
        amount_total(debtors(bs)) - amount_total(creditors(bs)) == -seq_sum(bs, |b: BalanceView| b.net_cents),
        amount_of(debtors(bs), id) - amount_of(creditors(bs), id) == -seq_sum(
            bs,
            |b: BalanceView| if b.participant.id == id { b.net_cents } else { 0 },
        ),
        forall|k: int| 0 <= k < debtors(bs).len() ==> #[trigger] debtors(bs)[k].1 > 0,
        forall|k: int| 0 <= k < creditors(bs).len() ==> #[trigger] creditors(bs)[k].1 > 0,
    decreases bs.len(),
{
    if bs.len() > 0 {
        let t = bs.drop_last();
        lemma_sides_totals(t, id);
        let d = debtors(bs);
        let c = creditors(bs);
        if bs.last().net_cents < 0 {
            assert(d.drop_last() =~= debtors(t));
            assert forall|k: int| 0 <= k < d.len() implies #[trigger] d[k].1 > 0 by {
                if k < d.len() - 1 {
                    assert(d[k] == debtors(t)[k]);
                }
            }
        }
        if bs.last().net_cents > 0 {
            assert(c.drop_last() =~= creditors(t));
            assert forall|k: int| 0 <= k < c.len() implies #[trigger] c[k].1 > 0 by {
                if k < c.len() - 1 {
                    assert(c[k] == creditors(t)[k]);
                }
            }
        }
    }
}

/// How many participants of `ps` have identifier `id`.
pub open spec fn id_count(ps: Seq<ParticipantView>, id: u128) -> int {
    seq_sum(ps, |p: ParticipantView| if p.id == id { 1int } else { 0int })
}

proof fn lemma_single_net(bs: Seq<BalanceView>, k: int)
    requires
        0 <= k < bs.len(),
        seq_sum(bs, |b: BalanceView| if b.participant.id == bs[k].participant.id { 1int } else { 0int }) <= 1,
    ensures
        seq_sum(
            bs,
            |b: BalanceView| if b.participant.id == bs[k].participant.id { b.net_cents } else { 0 },
        ) == bs[k].net_cents,
    decreases bs.len(),
{
    let id = bs[k].participant.id;
    let cnt = |b: BalanceView| if b.participant.id == id { 1int } else { 0int };
    let nf = |b: BalanceView| if b.participant.id == id { b.net_cents } else { 0 };
    let t = bs.drop_last();
    lemma_count_nonneg_b(t, id);
    if k == bs.len() - 1 {
        lemma_count_zero_b(t, id);
    } else {
        assert(t[k] == bs[k]);
        lemma_count_at_b(t, k);
        lemma_single_net(t, k);
    }
}

proof fn lemma_count_nonneg_b(bs: Seq<BalanceView>, id: u128)
    ensures
        seq_sum(bs, |b: BalanceView| if b.participant.id == id { 1int } else { 0int }) >= 0,
    decreases bs.len(),
{
    if bs.len() > 0 {
        lemma_count_nonneg_b(bs.drop_last(), id);
    }
}

proof fn lemma_count_at_b(bs: Seq<BalanceView>, k: int)
    requires
        0 <= k < bs.len(),
    ensures
        seq_sum(bs, |b: BalanceView| if b.participant.id == bs[k].participant.id { 1int } else { 0int }) >= 1,
    decreases bs.len(),
{
    let id = bs[k].participant.id;
    let t = bs.drop_last();
    lemma_count_nonneg_b(t, id);
    if k < bs.len() - 1 {
        assert(t[k] == bs[k]);
        lemma_count_at_b(t, k);
    }
}

proof fn lemma_count_zero_b(bs: Seq<BalanceView>, id: u128)
    requires
        seq_sum(bs, |b: BalanceView| if b.participant.id == id { 1int } else { 0int }) == 0,
    ensures
        seq_sum(bs, |b: BalanceView| if b.participant.id == id { b.net_cents } else { 0 }) == 0,
    decreases bs.len(),
{
    if bs.len() > 0 {
        lemma_count_nonneg_b(bs.drop_last(), id);
        lemma_count_zero_b(bs.drop_last(), id);
    }
}

/// The suggested transfers settle everyone: in every currency, paying them
/// brings each participant's balance to zero. This holds under the same
/// conditions as `law_balances_sum_to_zero`.
pub proof fn law_suggestions_settle_balances(st: StateView, g: int, k: int)
    requires
        records_named_once(st),
        shares_balanced(st),
        0 <= g < balance_groups(st).len(),
        0 <= k < balance_groups(st)[g].balances.len(),
    ensures
        ({
            let grp = balance_groups(st)[g];
            grp.balances[k].net_cents + suggested_flow(group_suggestions(grp), grp.balances[k].participant.id) == 0
        }),
{
    let grp = balance_groups(st)[g];
    let bs = grp.balances;
    let id = bs[k].participant.id;
    let lf = |a: (u128, int), b: (u128, int)| larger_first(a, b);
    let ds0 = debtors(bs);
    let cs0 = creditors(bs);
    let ds = stable_sort(ds0, lf);
    let cs = stable_sort(cs0, lf);
    law_balances_sum_to_zero(st, g);
    lemma_sides_totals(bs, id);
    let fa = amount_if(id);
    let ft = amount_any();
    lemma_seq_sum_stable_sort(ds0, lf, fa);
    lemma_seq_sum_stable_sort(ds0, lf, ft);
    lemma_seq_sum_stable_sort(cs0, lf, fa);
    lemma_seq_sum_stable_sort(cs0, lf, ft);
    let pos = |d: (u128, int)| d.1 > 0;
    lemma_stable_sort_all(ds0, lf, pos);
    lemma_stable_sort_all(cs0, lf, pos);
    lemma_greedy_flow(ds, cs, id);
    lemma_suggested_flow_map(greedy(ds, cs), grp.currency, id);
    assert(group_suggestions(grp) == greedy(ds, cs).map_values(
        |t: (u128, u128, int)| SuggestionView { from_id: t.0, to_id: t.1, amount_cents: t.2, currency: grp.currency },
    ));
    // each identifier occurs once among the balances
    let l = ledger(st);
    let c = grp.currency;
    let ple = |a: ParticipantView, b: ParticipantView| exact_name_order(a, b);
    let mk = |p: ParticipantView| BalanceView { participant: p, net_cents: net(l, c, p.id) };
    let pc = |p: ParticipantView| if p.id == id { 1int } else { 0int };
    let bc = |b: BalanceView| if b.participant.id == id { 1int } else { 0int };
    assert(bs == stable_sort(st.participants, ple).map_values(mk));
    lemma_seq_sum_map(stable_sort(st.participants, ple), mk, bc, pc);
    lemma_seq_sum_stable_sort(st.participants, ple, pc);
    if id_count(st.participants, id) <= 1 {
        lemma_single_net(bs, k);
    } else {
        // an identifier that several participants share is named by no record
        lemma_ledger_named_once(st);
        assert forall|j: int| 0 <= j < l.len() implies #[trigger] l[j].participant != id by {
            assert(id_count(st.participants, l[j].participant) == 1);
        }
        lemma_net_unnamed(l, c, id);
        let sorted = stable_sort(st.participants, ple);
        assert forall|j: int| 0 <= j < bs.len() && #[trigger] bs[j].participant.id == id implies bs[j].net_cents == 0 by {
            assert(bs[j] == mk(sorted[j]));
        }
        lemma_unnamed_sum(bs, id);
    }
}

proof fn lemma_net_unnamed(l: Seq<EntryView>, c: Seq<char>, p: u128)
    requires
        forall|k: int| 0 <= k < l.len() ==> #[trigger] l[k].participant != p,
    ensures
        net(l, c, p) == 0,
    decreases l.len(),
{
    if l.len() > 0 {
        let t = l.drop_last();
        assert forall|k: int| 0 <= k < t.len() implies #[trigger] t[k].participant != p by {
            assert(t[k] == l[k]);
        }
        lemma_net_unnamed(t, c, p);
        assert(l[l.len() - 1].participant != p);
    }
}

proof fn lemma_unnamed_sum(bs: Seq<BalanceView>, id: u128)
    requires
        forall|j: int| 0 <= j < bs.len() && #[trigger] bs[j].participant.id == id ==> bs[j].net_cents == 0,
    ensures
        seq_sum(bs, |b: BalanceView| if b.participant.id == id { b.net_cents } else { 0 }) == 0,
    decreases bs.len(),
{
    if bs.len() > 0 {
        let t = bs.drop_last();
        assert forall|j: int| 0 <= j < t.len() && #[trigger] t[j].participant.id == id implies t[j].net_cents == 0 by {
            assert(t[j] == bs[j]);
            assert(bs[j].participant.id == id);
        }
        lemma_unnamed_sum(t, id);
        if bs[bs.len() - 1].participant.id == id {
            assert(bs[bs.len() - 1].net_cents == 0);
        }
    }
}


/// How many balances are not zero.
pub open spec fn unsettled_count(bs: Seq<BalanceView>) -> nat
    decreases bs.len(),
{
    if bs.len() == 0 {
        0
    } else {
        unsettled_count(bs.drop_last()) + if bs.last().net_cents != 0 {
            1nat
        } else {
            0nat
        }
    }
}

proof fn lemma_sides_count(bs: Seq<BalanceView>)
    ensures
        debtors(bs).len() + creditors(bs).len() == unsettled_count(bs),
        forall|k: int| 0 <= k < debtors(bs).len() ==> #[trigger] debtors(bs)[k].1 > 0,
        forall|k: int| 0 <= k < creditors(bs).len() ==> #[trigger] creditors(bs)[k].1 > 0,
    decreases bs.len(),
{
    if bs.len() > 0 {
        let t = bs.drop_last();
        lemma_sides_count(t);
        let d = debtors(bs);
        let c = creditors(bs);
        assert forall|k: int| 0 <= k < d.len() implies #[trigger] d[k].1 > 0 by {
            if k < debtors(t).len() {
                assert(d[k] == debtors(t)[k]);
            }
        }
        assert forall|k: int| 0 <= k < c.len() implies #[trigger] c[k].1 > 0 by {
            if k < creditors(t).len() {
                assert(c[k] == creditors(t)[k]);
            }
        }
    }
}

proof fn lemma_greedy_len(ds: Seq<(u128, int)>, cs: Seq<(u128, int)>)
    requires
        forall|k: int| 0 <= k < ds.len() ==> #[trigger] ds[k].1 > 0,
        forall|k: int| 0 <= k < cs.len() ==> #[trigger] cs[k].1 > 0,
    ensures
        greedy(ds, cs).len() + 1 <= ds.len() + cs.len() || greedy(ds, cs).len() == 0,
    decreases ds.len() + cs.len(),
{
    if ds.len() > 0 && cs.len() > 0 {
        let t = if ds[0].1 <= cs[0].1 {
            ds[0].1
        } else {
            cs[0].1
        };
        let nd = if ds[0].1 - t == 0 {
            ds.drop_first()
        } else {
            ds.update(0, (ds[0].0, ds[0].1 - t))
        };
        let nc = if cs[0].1 - t == 0 {
            cs.drop_first()
        } else {
            cs.update(0, (cs[0].0, cs[0].1 - t))
        };
        assert forall|k: int| 0 <= k < nd.len() implies #[trigger] nd[k].1 > 0 by {
            if ds[0].1 - t == 0 {
                assert(nd[k] == ds[k + 1]);
            } else if k > 0 {
                assert(nd[k] == ds[k]);
            }
        }
        assert forall|k: int| 0 <= k < nc.len() implies #[trigger] nc[k].1 > 0 by {
            if cs[0].1 - t == 0 {
                assert(nc[k] == cs[k + 1]);
            } else if k > 0 {
                assert(nc[k] == cs[k]);
            }
        }
        lemma_greedy_len(nd, nc);
        assert(nd.len() + nc.len() < ds.len() + cs.len());
    }
}

/// The suggestions of a currency take at most one transfer fewer than there
/// are participants whose balance is not zero (and none when everyone is
/// settled).
pub proof fn law_suggestions_fewer_than_unsettled(g: GroupView)
    ensures
        group_suggestions(g).len() + 1 <= unsettled_count(g.balances) || group_suggestions(g).len() == 0,
{
    let bs = g.balances;
    lemma_sides_count(bs);
    let le = |a: (u128, int), b: (u128, int)| larger_first(a, b);
    let ds = stable_sort(debtors(bs), le);
    let cs = stable_sort(creditors(bs), le);
    crate::sorting::lemma_stable_sort_len(debtors(bs), le);
    crate::sorting::lemma_stable_sort_len(creditors(bs), le);
    lemma_stable_sort_all(debtors(bs), le, |x: (u128, int)| x.1 > 0);
    lemma_stable_sort_all(creditors(bs), le, |x: (u128, int)| x.1 > 0);
    assert forall|k: int| 0 <= k < ds.len() implies #[trigger] ds[k].1 > 0 by {
        assert((|x: (u128, int)| x.1 > 0)(ds[k]));
    }
    assert forall|k: int| 0 <= k < cs.len() implies #[trigger] cs[k].1 > 0 by {
        assert((|x: (u128, int)| x.1 > 0)(cs[k]));
    }
    lemma_greedy_len(ds, cs);
}


proof fn lemma_net_concat(a: Seq<EntryView>, b: Seq<EntryView>, c: Seq<char>, p: u128)
    ensures
        net(a + b, c, p) == net(a, c, p) + net(b, c, p),
    decreases b.len(),
{
    if b.len() > 0 {
        lemma_net_concat(a, b.drop_last(), c, p);
        assert((a + b).drop_last() =~= a + b.drop_last());
    } else {
        assert(a + b =~= a);
    }
}

proof fn lemma_net_elsewhere(l: Seq<EntryView>, c: Seq<char>, p: u128)
    requires
        forall|k: int| 0 <= k < l.len() ==> #[trigger] l[k].currency != c,
    ensures
        net(l, c, p) == 0,
    decreases l.len(),
{
    if l.len() > 0 {
        let t = l.drop_last();
        assert forall|k: int| 0 <= k < t.len() implies #[trigger] t[k].currency != c by {
            assert(t[k] == l[k]);
        }
        lemma_net_elsewhere(t, c, p);
        assert(l[l.len() - 1].currency != c);
    }
}

/// Recording an expense changes no balance in any other currency than its
/// own.
pub proof fn law_expense_leaves_other_currencies(st: StateView, e: ExpenseView, c: Seq<char>, p: u128)
    requires
        currency_code(e.currency) != c,
    ensures
        net(ledger(StateView { expenses: st.expenses.push(e), ..st }), c, p) == net(ledger(st), c, p),
{
    let el = expense_ledger(st.expenses);
    let sl = settlement_ledger(st.settlements);
    let en = expense_entries(e);
    assert(st.expenses.push(e).drop_last() =~= st.expenses);
    assert(expense_ledger(st.expenses.push(e)) == el + en);
    assert forall|k: int| 0 <= k < en.len() implies #[trigger] en[k].currency != c by {
        if k > 0 {
            assert(en[k] == share_entries(e.shares, currency_code(e.currency))[k - 1]);
        }
    }
    lemma_net_elsewhere(en, c, p);
    lemma_net_concat(el + en, sl, c, p);
    lemma_net_concat(el, en, c, p);
    lemma_net_concat(el, sl, c, p);
}

/// Recording a settlement changes no balance in any other currency than its
/// own.
pub proof fn law_settlement_leaves_other_currencies(st: StateView, x: SettlementView, c: Seq<char>, p: u128)
    requires
        currency_code(x.currency) != c,
    ensures
        net(ledger(StateView { settlements: st.settlements.push(x), ..st }), c, p) == net(ledger(st), c, p),
{
    let el = expense_ledger(st.expenses);
    let sl = settlement_ledger(st.settlements);
    let en = settlement_entries(x);
    assert(st.settlements.push(x).drop_last() =~= st.settlements);
    assert(settlement_ledger(st.settlements.push(x)) == sl + en);
    lemma_net_elsewhere(en, c, p);
    lemma_net_concat(el, sl + en, c, p);
    lemma_net_concat(sl, en, c, p);
    lemma_net_concat(el, sl, c, p);
}


proof fn lemma_settlement_ledger_concat(a: Seq<SettlementView>, b: Seq<SettlementView>)
    ensures
        settlement_ledger(a + b) == settlement_ledger(a) + settlement_ledger(b),
    decreases b.len(),
{
    if b.len() == 0 {
        assert(a + b =~= a);
        assert(settlement_ledger(a) + settlement_ledger(b) =~= settlement_ledger(a));
    } else {
        lemma_settlement_ledger_concat(a, b.drop_last());
        assert((a + b).drop_last() =~= a + b.drop_last());
        assert((a + b).last() == b.last());
        assert(settlement_ledger(a) + settlement_ledger(b) =~= settlement_ledger(a) + settlement_ledger(b.drop_last())
            + settlement_entries(b.last()));
    }
}

/// The transfers of `ts` in currency `c`, in order.
pub open spec fn in_currency(ts: Seq<SuggestionView>, c: Seq<char>) -> Seq<SuggestionView> {
    crate::normalize::keep(ts, |t: SuggestionView| t.currency == c)
}

/// Whether settlement `x` records transfer `t`.
pub open spec fn records_transfer(x: SettlementView, t: SuggestionView) -> bool {
    &&& x.from_id == t.from_id
    &&& x.to_id == t.to_id
    &&& x.amount_cents == t.amount_cents
    &&& x.currency == t.currency
}

proof fn lemma_net_of_paid(xs: Seq<SettlementView>, ts: Seq<SuggestionView>, c: Seq<char>, id: u128)
    requires
        xs.len() == ts.len(),
        forall|k: int| 0 <= k < xs.len() ==> records_transfer(#[trigger] xs[k], ts[k]),
        forall|k: int| 0 <= k < xs.len() ==> currency_code(#[trigger] xs[k].currency) == xs[k].currency,
    ensures
        net(settlement_ledger(xs), c, id) == suggested_flow(in_currency(ts, c), id),
    decreases xs.len(),
{
    if xs.len() > 0 {
        let xt = xs.drop_last();
        let tt = ts.drop_last();
        assert forall|k: int| 0 <= k < xt.len() implies records_transfer(#[trigger] xt[k], tt[k]) by {
            assert(xt[k] == xs[k]);
            assert(records_transfer(xs[k], ts[k]));
        }
        assert forall|k: int| 0 <= k < xt.len() implies currency_code(#[trigger] xt[k].currency) == xt[k].currency by {
            assert(xt[k] == xs[k]);
        }
        lemma_net_of_paid(xt, tt, c, id);
        let x = xs.last();
        assert(records_transfer(xs[xs.len() - 1], ts[ts.len() - 1]));
        assert(currency_code(xs[xs.len() - 1].currency) == xs[xs.len() - 1].currency);
        let t = ts.last();
        let en = settlement_entries(x);
        assert(settlement_ledger(xs) == settlement_ledger(xt) + en);
        lemma_net_concat(settlement_ledger(xt), en, c, id);
        let d0: int = if x.currency == c && x.from_id == id { x.amount_cents as int } else { 0 };
        let d1: int = if x.currency == c && x.to_id == id { -(x.amount_cents as int) } else { 0 };
        assert(x == xs[xs.len() - 1]);
        assert(en[0] == EntryView { currency: currency_code(x.currency), participant: x.from_id, delta: x.amount_cents as int });
        assert(en[1] == EntryView { currency: currency_code(x.currency), participant: x.to_id, delta: -(x.amount_cents as int) });
        let e1 = en.drop_last();
        assert(e1.len() == 1);
        assert(e1.drop_last() =~= Seq::<EntryView>::empty());
        assert(net(e1.drop_last(), c, id) == 0);
        assert(e1.last() == en[0]);
        assert(en.last() == en[1]);
        assert(net(en.drop_last(), c, id) == d0);
        assert(net(en, c, id) == d0 + d1);
        let p = |u: SuggestionView| u.currency == c;
        assert(ts.drop_last() == tt);
        assert(in_currency(ts, c) == if p(t) {
            in_currency(tt, c).push(t)
        } else {
            in_currency(tt, c)
        });
        if t.currency == c {
            let it = in_currency(ts, c);
            assert(it.drop_last() =~= in_currency(tt, c));
            assert(it.last() == t);
            assert(suggested_flow(it, id) == suggested_flow(in_currency(tt, c), id) + d0 + d1);
        }
    }
}

proof fn lemma_keep_concat<T>(a: Seq<T>, b: Seq<T>, p: spec_fn(T) -> bool)
    ensures
        crate::normalize::keep(a + b, p) == crate::normalize::keep(a, p) + crate::normalize::keep(b, p),
    decreases b.len(),
{
    if b.len() == 0 {
        assert(a + b =~= a);
        assert(crate::normalize::keep(a, p) + crate::normalize::keep(b, p) =~= crate::normalize::keep(a, p));
    } else {
        lemma_keep_concat(a, b.drop_last(), p);
        assert((a + b).drop_last() =~= a + b.drop_last());
        assert((a + b).last() == b.last());
        if p(b.last()) {
            assert(crate::normalize::keep(a, p) + crate::normalize::keep(b, p) =~= (crate::normalize::keep(a, p)
                + crate::normalize::keep(b.drop_last(), p)).push(b.last()));
        }
    }
}

proof fn lemma_keep_all_or_none<T>(s: Seq<T>, p: spec_fn(T) -> bool, all: bool)
    requires
        forall|k: int| 0 <= k < s.len() ==> p(#[trigger] s[k]) == all,
    ensures
        crate::normalize::keep(s, p) == if all { s } else { Seq::<T>::empty() },
    decreases s.len(),
{
    if s.len() > 0 {
        let t = s.drop_last();
        assert forall|k: int| 0 <= k < t.len() implies p(#[trigger] t[k]) == all by {
            assert(t[k] == s[k]);
        }
        lemma_keep_all_or_none(t, p, all);
        assert(p(s[s.len() - 1]) == all);
        if all {
            assert(t.push(s.last()) =~= s);
        }
    }
}

/// Only the group of currency `c` suggests transfers in `c`.
proof fn lemma_all_suggestions_in(gs: Seq<GroupView>, c: Seq<char>)
    requires
        forall|i: int, j: int| 0 <= i < j < gs.len() ==> #[trigger] gs[i].currency != #[trigger] gs[j].currency,
    ensures
        in_currency(all_suggestions(gs), c) == match crate::state::first_index(gs, |g: GroupView| g.currency == c) {
            Some(i) => group_suggestions(gs[i]),
            None => Seq::<SuggestionView>::empty(),
        },
        forall|k: int|
            0 <= k < all_suggestions(gs).len() ==> exists|i: int|
                0 <= i < gs.len() && gs[i].currency == #[trigger] all_suggestions(gs)[k].currency,
    decreases gs.len(),
{
    let p = |t: SuggestionView| t.currency == c;
    let q = |g: GroupView| g.currency == c;
    crate::state::lemma_first_index_props(gs, q);
    if gs.len() > 0 {
        let t = gs.drop_last();
        let g = gs.last();
        assert forall|i: int, j: int| 0 <= i < j < t.len() implies #[trigger] t[i].currency != #[trigger] t[j].currency by {
            assert(t[i] == gs[i]);
            assert(t[j] == gs[j]);
        }
        lemma_all_suggestions_in(t, c);
        crate::state::lemma_first_index_props(t, q);
        let gsug = group_suggestions(g);
        assert forall|k: int| 0 <= k < gsug.len() implies p(#[trigger] gsug[k]) == (g.currency == c) by {}
        lemma_keep_all_or_none(gsug, p, g.currency == c);
        lemma_keep_concat(all_suggestions(t), gsug, p);
        match crate::state::first_index(t, q) {
            Some(i) => {
                assert(t[i] == gs[i]);
                assert(gs[i].currency == c);
                assert(g.currency != c) by {
                    assert(gs[i].currency != gs[gs.len() - 1].currency);
                }
                assert(gsug.len() == 0 || !p(gsug[0]));
                crate::state::lemma_first_index_at(gs, q, i);
                assert(in_currency(all_suggestions(gs), c) =~= group_suggestions(gs[i]));
            },
            None => {
                if g.currency == c {
                    assert forall|k: int| 0 <= k < gs.len() - 1 implies !q(#[trigger] gs[k]) by {
                        assert(gs[k] == t[k]);
                    }
                    crate::state::lemma_first_index_at(gs, q, gs.len() - 1);
                    assert(in_currency(all_suggestions(gs), c) =~= gsug);
                } else {
                    assert forall|k: int| 0 <= k < gs.len() implies !q(#[trigger] gs[k]) by {
                        if k < gs.len() - 1 {
                            assert(gs[k] == t[k]);
                        }
                    }
                    crate::state::lemma_first_index_at(gs, q, gs.len() as int);
                    assert(in_currency(all_suggestions(gs), c) =~= Seq::<SuggestionView>::empty());
                }
            },
        }
        let all = all_suggestions(gs);
        assert forall|k: int| 0 <= k < all.len() implies exists|i: int|
            0 <= i < gs.len() && gs[i].currency == #[trigger] all[k].currency by {
            let at = all_suggestions(t);
            if k < at.len() {
                assert(all[k] == at[k]);
                let i = choose|i: int| 0 <= i < t.len() && t[i].currency == #[trigger] at[k].currency;
                assert(gs[i] == t[i]);
            } else {
                assert(all[k] == gsug[k - at.len()]);
                assert(gs[gs.len() - 1].currency == all[k].currency);
            }
        }
    }
}

proof fn lemma_ledger_codes(st: StateView)
    ensures
        forall|k: int| 0 <= k < ledger(st).len() ==> currency_code(#[trigger] ledger(st)[k].currency)
            == ledger(st)[k].currency,
{
    lemma_expense_ledger_codes(st.expenses);
    lemma_settlement_ledger_codes(st.settlements);
    let a = expense_ledger(st.expenses);
    let b = settlement_ledger(st.settlements);
    assert forall|k: int| 0 <= k < ledger(st).len() implies currency_code(#[trigger] ledger(st)[k].currency)
        == ledger(st)[k].currency by {
        if k < a.len() {
            assert(ledger(st)[k] == a[k]);
        } else {
            assert(ledger(st)[k] == b[k - a.len()]);
        }
    }
}

proof fn lemma_expense_ledger_codes(es: Seq<ExpenseView>)
    ensures
        forall|k: int| 0 <= k < expense_ledger(es).len() ==> currency_code(#[trigger] expense_ledger(es)[k].currency)
            == expense_ledger(es)[k].currency,
    decreases es.len(),
{
    if es.len() > 0 {
        lemma_expense_ledger_codes(es.drop_last());
        let a = expense_ledger(es.drop_last());
        let e = es.last();
        let en = expense_entries(e);
        crate::money::law_currency_code_idempotent(e.currency);
        assert forall|k: int| 0 <= k < expense_ledger(es).len() implies currency_code(
            #[trigger] expense_ledger(es)[k].currency,
        ) == expense_ledger(es)[k].currency by {
            if k < a.len() {
                assert(expense_ledger(es)[k] == a[k]);
            } else {
                assert(expense_ledger(es)[k] == en[k - a.len()]);
                if k - a.len() > 0 {
                    assert(en[k - a.len()] == share_entries(e.shares, currency_code(e.currency))[k - a.len() - 1]);
                }
            }
        }
    }
}

proof fn lemma_settlement_ledger_codes(ss: Seq<SettlementView>)
    ensures
        forall|k: int| 0 <= k < settlement_ledger(ss).len() ==> currency_code(
            #[trigger] settlement_ledger(ss)[k].currency,
        ) == settlement_ledger(ss)[k].currency,
    decreases ss.len(),
{
    if ss.len() > 0 {
        lemma_settlement_ledger_codes(ss.drop_last());
        let a = settlement_ledger(ss.drop_last());
        let x = ss.last();
        let en = settlement_entries(x);
        crate::money::law_currency_code_idempotent(x.currency);
        assert forall|k: int| 0 <= k < settlement_ledger(ss).len() implies currency_code(
            #[trigger] settlement_ledger(ss)[k].currency,
        ) == settlement_ledger(ss)[k].currency by {
            if k < a.len() {
                assert(settlement_ledger(ss)[k] == a[k]);
            } else {
                assert(settlement_ledger(ss)[k] == en[k - a.len()]);
            }
        }
    }
}

/// Recording every suggested transfer as a settlement brings every
/// participant's balance in every currency to zero. This holds under the
/// same conditions as `law_balances_sum_to_zero`, whatever identifiers,
/// times and notes the new settlements get.
pub proof fn law_paying_suggestions_settles_everyone(
    st: StateView,
    xs: Seq<SettlementView>,
    c: Seq<char>,
    i: int,
)
    requires
        records_named_once(st),
        shares_balanced(st),
        xs.len() == all_suggestions(balance_groups(st)).len(),
        forall|k: int| 0 <= k < xs.len() ==> records_transfer(#[trigger] xs[k], all_suggestions(balance_groups(st))[k]),
        0 <= i < st.participants.len(),
    ensures
        net(ledger(StateView { settlements: st.settlements + xs, ..st }), c, st.participants[i].id) == 0,
{
    let gs = balance_groups(st);
    let ts = all_suggestions(gs);
    let l = ledger(st);
    let id = st.participants[i].id;
    let st2 = StateView { settlements: st.settlements + xs, ..st };
    lemma_settlement_ledger_concat(st.settlements, xs);
    assert(ledger(st2) =~= l + settlement_ledger(xs));
    lemma_net_concat(l, settlement_ledger(xs), c, id);
    lemma_currencies_of(l);
    let cs = currencies_of(l);
    assert forall|a: int, b: int| 0 <= a < b < gs.len() implies #[trigger] gs[a].currency != #[trigger] gs[b].currency by {
        assert(gs[a].currency == cs[a]);
        assert(gs[b].currency == cs[b]);
    }
    lemma_all_suggestions_in(gs, c);
    lemma_ledger_codes(st);
    assert forall|k: int| 0 <= k < xs.len() implies currency_code(#[trigger] xs[k].currency) == xs[k].currency by {
        assert(records_transfer(xs[k], ts[k]));
        let g = choose|g: int| 0 <= g < gs.len() && gs[g].currency == #[trigger] ts[k].currency;
        assert(gs[g].currency == cs[g]);
        assert(cs.contains(cs[g]));
        assert(ledger_uses(l, cs[g]));
        let e = choose|e: int| 0 <= e < l.len() && #[trigger] l[e].currency == cs[g];
        assert(currency_code(l[e].currency) == l[e].currency);
    }
    lemma_net_of_paid(xs, ts, c, id);
    let q = |g: GroupView| g.currency == c;
    crate::state::lemma_first_index_props(gs, q);
    match crate::state::first_index(gs, q) {
        Some(g) => {
            let grp = gs[g];
            let le = |a: ParticipantView, b: ParticipantView| exact_name_order(a, b);
            let sorted = stable_sort(st.participants, le);
            crate::sorting::lemma_stable_sort_contains(st.participants, le);
            assert(st.participants.contains(st.participants[i]));
            assert(sorted.contains(st.participants[i]));
            let k = choose|k: int| 0 <= k < sorted.len() && sorted[k] == st.participants[i];
            assert(grp.currency == cs[g]);
            assert(grp.balances == group_balances(st, c));
            assert(grp.balances[k].participant == sorted[k]);
            assert(grp.balances[k].net_cents == net(l, c, id));
            law_suggestions_settle_balances(st, g, k);
        },
        None => {
            assert(!cs.contains(c)) by {
                if cs.contains(c) {
                    let g = choose|g: int| 0 <= g < cs.len() && cs[g] == c;
                    assert(gs[g].currency == cs[g]);
                    assert(q(gs[g]));
                }
            }
            assert forall|k: int| 0 <= k < l.len() implies #[trigger] l[k].currency != c by {
                if l[k].currency == c {
                    assert(ledger_uses(l, c));
                }
            }
            lemma_net_elsewhere(l, c, id);
        },
    }
}


proof fn lemma_settled_sides(bs: Seq<BalanceView>)
    requires
        forall|k: int| 0 <= k < bs.len() ==> #[trigger] bs[k].net_cents == 0,
    ensures
        debtors(bs).len() == 0,
        creditors(bs).len() == 0,
    decreases bs.len(),
{
    if bs.len() > 0 {
        let t = bs.drop_last();
        assert forall|k: int| 0 <= k < t.len() implies #[trigger] t[k].net_cents == 0 by {
            assert(t[k] == bs[k]);
        }
        lemma_settled_sides(t);
        assert(bs[bs.len() - 1].net_cents == 0);
    }
}

proof fn lemma_no_suggestions(gs: Seq<GroupView>)
    requires
        forall|g: int| 0 <= g < gs.len() ==> #[trigger] group_suggestions(gs[g]).len() == 0,
    ensures
        all_suggestions(gs).len() == 0,
    decreases gs.len(),
{
    if gs.len() > 0 {
        let t = gs.drop_last();
        assert forall|g: int| 0 <= g < t.len() implies #[trigger] group_suggestions(t[g]).len() == 0 by {
            assert(t[g] == gs[g]);
        }
        lemma_no_suggestions(t);
        assert(group_suggestions(gs[gs.len() - 1]).len() == 0);
    }
}

/// Once every suggested transfer is recorded as a settlement, nothing is
/// left to suggest.
pub proof fn law_paid_suggestions_leave_nothing(st: StateView, xs: Seq<SettlementView>)
    requires
        records_named_once(st),
        shares_balanced(st),
        xs.len() == all_suggestions(balance_groups(st)).len(),
        forall|k: int| 0 <= k < xs.len() ==> records_transfer(#[trigger] xs[k], all_suggestions(balance_groups(st))[k]),
    ensures
        all_suggestions(balance_groups(StateView { settlements: st.settlements + xs, ..st })).len() == 0,
{
    let st2 = StateView { settlements: st.settlements + xs, ..st };
    let gs = balance_groups(st2);
    let le = |a: ParticipantView, b: ParticipantView| exact_name_order(a, b);
    let ps = st.participants;
    let sorted = stable_sort(ps, le);
    let from_ps = |p: ParticipantView| ps.contains(p);
    assert forall|k: int| 0 <= k < ps.len() implies from_ps(#[trigger] ps[k]) by {
        assert(ps.contains(ps[k]));
    }
    lemma_stable_sort_all(ps, le, from_ps);
    assert forall|g: int| 0 <= g < gs.len() implies #[trigger] group_suggestions(gs[g]).len() == 0 by {
        let grp = gs[g];
        let c = grp.currency;
        let bs = grp.balances;
        assert(bs == group_balances(st2, c));
        assert forall|k: int| 0 <= k < bs.len() implies #[trigger] bs[k].net_cents == 0 by {
            assert(bs[k].participant == sorted[k]);
            assert(from_ps(sorted[k]));
            let i = choose|i: int| 0 <= i < ps.len() && ps[i] == sorted[k];
            law_paying_suggestions_settles_everyone(st, xs, c, i);
        }
        lemma_settled_sides(bs);
        let lf = |a: (u128, int), b: (u128, int)| larger_first(a, b);
        crate::sorting::lemma_stable_sort_len(debtors(bs), lf);
        crate::sorting::lemma_stable_sort_len(creditors(bs), lf);
    }
    lemma_no_suggestions(gs);
}

/// Within every currency group the balances come in order of the
/// participants' exact names.
pub proof fn law_group_balances_in_name_order(st: StateView, g: int, i: int, j: int)
    requires
        0 <= g < balance_groups(st).len(),
        0 <= i < j < balance_groups(st)[g].balances.len(),
    ensures
        lex_le(
            balance_groups(st)[g].balances[i].participant.name,
            balance_groups(st)[g].balances[j].participant.name,
        ),
{
    let le = |a: ParticipantView, b: ParticipantView| exact_name_order(a, b);
    assert(total_preorder(le)) by {
        assert forall|a: ParticipantView, b: ParticipantView| #[trigger] le(a, b) || le(b, a) by {
            lemma_lex_le_total(a.name, b.name);
        }
        assert forall|a: ParticipantView, b: ParticipantView, c: ParticipantView|
            #[trigger] le(a, b) && #[trigger] le(b, c) implies le(a, c) by {
            lemma_lex_le_trans(a.name, b.name, c.name);
        }
    }
    let sorted = stable_sort(st.participants, le);
    lemma_stable_sort_sorted(st.participants, le);
    let c = currencies_of(ledger(st))[g];
    let bs = balance_groups(st)[g].balances;
    assert(bs == group_balances(st, c));
    assert(bs[i].participant == sorted[i]);
    assert(bs[j].participant == sorted[j]);
    assert(le(sorted[i], sorted[j]));
}

proof fn lemma_debtor_of(bs: Seq<BalanceView>, d: (u128, int))
    requires
        debtors(bs).contains(d),
    ensures
        exists|j: int| 0 <= j < bs.len() && #[trigger] bs[j].participant.id == d.0 && bs[j].net_cents == -d.1 && bs[j].net_cents < 0,
    decreases bs.len(),
{
    let t = bs.drop_last();
    let n = bs.len() - 1;
    if bs[n].net_cents < 0 && d == (bs[n].participant.id, -bs[n].net_cents) {
        assert(bs[n].participant.id == d.0);
    } else {
        if bs[n].net_cents < 0 {
            let k = choose|k: int| 0 <= k < debtors(bs).len() && debtors(bs)[k] == d;
            assert(debtors(bs) == debtors(t).push((bs[n].participant.id, -bs[n].net_cents)));
            assert(k < debtors(t).len());
            assert(debtors(t)[k] == d);
        }
        assert(debtors(t).contains(d));
        lemma_debtor_of(t, d);
        let j = choose|j: int| 0 <= j < t.len() && #[trigger] t[j].participant.id == d.0 && t[j].net_cents == -d.1 && t[j].net_cents < 0;
        assert(bs[j] == t[j]);
    }
}

proof fn lemma_debtor_in(bs: Seq<BalanceView>, j: int)
    requires
        0 <= j < bs.len(),
        bs[j].net_cents < 0,
    ensures
        debtors(bs).contains((bs[j].participant.id, -bs[j].net_cents)),
    decreases bs.len(),
{
    let t = bs.drop_last();
    let n = bs.len() - 1;
    let x = (bs[j].participant.id, -bs[j].net_cents);
    if j == n {
        assert(debtors(bs).last() == x);
        assert(debtors(bs)[debtors(bs).len() - 1] == x);
    } else {
        assert(t[j] == bs[j]);
        lemma_debtor_in(t, j);
        let k = choose|k: int| 0 <= k < debtors(t).len() && debtors(t)[k] == x;
        if bs[n].net_cents < 0 {
            assert(debtors(bs)[k] == x);
        } else {
            assert(debtors(bs) == debtors(t));
        }
        assert(debtors(bs)[k] == x);
    }
}

proof fn lemma_creditor_of(bs: Seq<BalanceView>, d: (u128, int))
    requires
        creditors(bs).contains(d),
    ensures
        exists|j: int| 0 <= j < bs.len() && #[trigger] bs[j].participant.id == d.0 && bs[j].net_cents == d.1 && bs[j].net_cents > 0,
    decreases bs.len(),
{
    let t = bs.drop_last();
    let n = bs.len() - 1;
    if bs[n].net_cents > 0 && d == (bs[n].participant.id, bs[n].net_cents) {
        assert(bs[n].participant.id == d.0);
    } else {
        if bs[n].net_cents > 0 {
            let k = choose|k: int| 0 <= k < creditors(bs).len() && creditors(bs)[k] == d;
            assert(creditors(bs) == creditors(t).push((bs[n].participant.id, bs[n].net_cents)));
            assert(k < creditors(t).len());
            assert(creditors(t)[k] == d);
        }
        assert(creditors(t).contains(d));
        lemma_creditor_of(t, d);
        let j = choose|j: int| 0 <= j < t.len() && #[trigger] t[j].participant.id == d.0 && t[j].net_cents == d.1 && t[j].net_cents > 0;
        assert(bs[j] == t[j]);
    }
}

proof fn lemma_creditor_in(bs: Seq<BalanceView>, j: int)
    requires
        0 <= j < bs.len(),
        bs[j].net_cents > 0,
    ensures
        creditors(bs).contains((bs[j].participant.id, bs[j].net_cents)),
    decreases bs.len(),
{
    let t = bs.drop_last();
    let n = bs.len() - 1;
    let x = (bs[j].participant.id, bs[j].net_cents);
    if j == n {
        assert(creditors(bs)[creditors(bs).len() - 1] == x);
    } else {
        assert(t[j] == bs[j]);
        lemma_creditor_in(t, j);
        let k = choose|k: int| 0 <= k < creditors(t).len() && creditors(t)[k] == x;
        if bs[n].net_cents > 0 {
            assert(creditors(bs)[k] == x);
        } else {
            assert(creditors(bs) == creditors(t));
        }
        assert(creditors(bs)[k] == x);
    }
}

/// The first transfer suggested for a currency is paid by a participant
/// with the largest debt in it to a participant with the largest claim in
/// it, and is as large as the smaller of the two.
pub proof fn law_first_transfer_pairs_the_largest(grp: GroupView)
    requires
        group_suggestions(grp).len() > 0,
    ensures
        ({
            let s = group_suggestions(grp)[0];
            let bs = grp.balances;
            &&& s.currency == grp.currency
            &&& exists|d: int, c: int|
                #![trigger bs[d], bs[c]]
                0 <= d < bs.len() && 0 <= c < bs.len()
                && bs[d].participant.id == s.from_id && bs[d].net_cents < 0
                && bs[c].participant.id == s.to_id && bs[c].net_cents > 0
                && (forall|j: int| 0 <= j < bs.len() ==> bs[d].net_cents <= #[trigger] bs[j].net_cents <= bs[c].net_cents)
                && s.amount_cents == (if -bs[d].net_cents <= bs[c].net_cents { -bs[d].net_cents } else { bs[c].net_cents })
        }),
{
    let bs = grp.balances;
    let lf = |a: (u128, int), b: (u128, int)| larger_first(a, b);
    let ds0 = debtors(bs);
    let cs0 = creditors(bs);
    let ds = stable_sort(ds0, lf);
    let cs = stable_sort(cs0, lf);
    let gr = greedy(ds, cs);
    assert(group_suggestions(grp) == gr.map_values(
        |t: (u128, u128, int)| SuggestionView { from_id: t.0, to_id: t.1, amount_cents: t.2, currency: grp.currency },
    ));
    assert(gr.len() > 0);
    assert(ds.len() > 0 && cs.len() > 0);
    lemma_sides_totals(bs, 0);
    let pos = |d: (u128, int)| d.1 > 0;
    lemma_stable_sort_all(ds0, lf, pos);
    lemma_stable_sort_all(cs0, lf, pos);
    assert(pos(ds[0]) && pos(cs[0]));
    let t = if ds[0].1 <= cs[0].1 { ds[0].1 } else { cs[0].1 };
    assert(gr[0] == (ds[0].0, cs[0].0, t));
    let s = group_suggestions(grp)[0];
    assert(s.from_id == ds[0].0 && s.to_id == cs[0].0 && s.amount_cents == t);
    // where the first debtor and creditor come from
    let in_d = |x: (u128, int)| ds0.contains(x);
    let in_c = |x: (u128, int)| cs0.contains(x);
    assert forall|k: int| 0 <= k < ds0.len() implies in_d(#[trigger] ds0[k]) by {
        assert(ds0.contains(ds0[k]));
    }
    assert forall|k: int| 0 <= k < cs0.len() implies in_c(#[trigger] cs0[k]) by {
        assert(cs0.contains(cs0[k]));
    }
    lemma_stable_sort_all(ds0, lf, in_d);
    lemma_stable_sort_all(cs0, lf, in_c);
    assert(in_d(ds[0]) && in_c(cs[0]));
    lemma_debtor_of(bs, ds[0]);
    lemma_creditor_of(bs, cs[0]);
    let d = choose|j: int| 0 <= j < bs.len() && #[trigger] bs[j].participant.id == ds[0].0 && bs[j].net_cents == -ds[0].1 && bs[j].net_cents < 0;
    let c = choose|j: int| 0 <= j < bs.len() && #[trigger] bs[j].participant.id == cs[0].0 && bs[j].net_cents == cs[0].1 && bs[j].net_cents > 0;
    // both lines are sorted, largest first
    assert(total_preorder(lf));
    lemma_stable_sort_sorted(ds0, lf);
    lemma_stable_sort_sorted(cs0, lf);
    lemma_stable_sort_contains(ds0, lf);
    lemma_stable_sort_contains(cs0, lf);
    assert forall|j: int| 0 <= j < bs.len() implies bs[d].net_cents <= #[trigger] bs[j].net_cents <= bs[c].net_cents by {
        if bs[j].net_cents < 0 {
            lemma_debtor_in(bs, j);
            let x = (bs[j].participant.id, -bs[j].net_cents);
            assert(ds.contains(x));
            let m = choose|m: int| 0 <= m < ds.len() && ds[m] == x;
            if m > 0 {
                assert(lf(ds[0], ds[m]));
            }
        }
        if bs[j].net_cents > 0 {
            lemma_creditor_in(bs, j);
            let x = (bs[j].participant.id, bs[j].net_cents);
            assert(cs.contains(x));
            let m = choose|m: int| 0 <= m < cs.len() && cs[m] == x;
            if m > 0 {
                assert(lf(cs[0], cs[m]));
            }
        }
    }
    assert(bs[d] == bs[d] && bs[c] == bs[c]);
}

} // verus!
