//! What the CSV exchange promises of every ledger and every row: each
//! expense is written with its own serialized icon and shares, and a
//! participant row's activity flag reads the documented spellings.
use crate::csv::{
    export_records, expense_record, expense_records, field_of, participant_row, row_msg, upsert,
    uuid_field, ExpenseJsonView, Gathered,
};
use crate::model::{ExpenseView, ParticipantView, StateView};
use crate::state::lemma_participant_index;
use crate::text::{lowercase_of, trimmed};
use vstd::prelude::*;

verus! {

/// The text a serializer produced, empty when it failed.
pub open spec fn ok_text(r: Result<Seq<char>, Seq<char>>) -> Seq<char> {
    match r {
        Ok(t) => t,
        Err(_) => Seq::empty(),
    }
}

proof fn lemma_expense_records_ok(es: Seq<ExpenseView>, json: Seq<ExpenseJsonView>)
    requires
        forall|k: int| 0 <= k < es.len() ==> (#[trigger] json[k]).icon is Ok && json[k].shares is Ok,
    ensures
        expense_records(es, json) matches Ok(rows) && rows.len() == es.len() && forall|k: int|
            0 <= k < es.len() ==> #[trigger] rows[k] == expense_record(
                es[k],
                ok_text(json[k].icon),
                ok_text(json[k].shares),
            ),
    decreases es.len(),
{
    if es.len() > 0 {
        let t = es.drop_last();
        assert forall|k: int| 0 <= k < t.len() implies (#[trigger] json[k]).icon is Ok && json[k].shares is Ok by {
            assert(0 <= k < es.len());
        }
        lemma_expense_records_ok(t, json);
        let n = es.len() - 1;
        assert(json[n].icon is Ok && json[n].shares is Ok);
        let rows = expense_records(es, json)->Ok_0;
        assert forall|k: int| 0 <= k < es.len() implies #[trigger] rows[k] == expense_record(
            es[k],
            ok_text(json[k].icon),
            ok_text(json[k].shares),
        ) by {
            if k < n {
                assert(es[k] == t[k]);
            }
        }
    }
}

/// When every expense's icon and shares were serialized, the export
/// succeeds with one record for the header, each participant, each expense
/// and each settlement; the record of expense `k`, right after the header
/// and the participants, holds that expense with its own icon text and its
/// own shares text (the latter in the `shares_json` column, the twelfth).
pub proof fn law_export_writes_each_expense_with_its_own_json(st: StateView, json: Seq<ExpenseJsonView>)
    requires
        json.len() == st.expenses.len(),
        forall|k: int| 0 <= k < json.len() ==> (#[trigger] json[k]).icon is Ok && json[k].shares is Ok,
    ensures
        export_records(st, json) matches Ok(rows) && rows.len() == 1 + st.participants.len() + st.expenses.len()
            + st.settlements.len() && forall|k: int|
            0 <= k < st.expenses.len() ==> {
                &&& #[trigger] rows[1 + st.participants.len() + k] == expense_record(
                    st.expenses[k],
                    ok_text(json[k].icon),
                    ok_text(json[k].shares),
                )
                &&& rows[1 + st.participants.len() + k][11] == ok_text(json[k].shares)
            },
{
    lemma_expense_records_ok(st.expenses, json);
    let er = expense_records(st.expenses, json)->Ok_0;
    let rows = export_records(st, json)->Ok_0;
    let np = st.participants.len();
    assert forall|k: int| 0 <= k < st.expenses.len() implies {
        &&& #[trigger] rows[1 + np + k] == expense_record(
            st.expenses[k],
            ok_text(json[k].icon),
            ok_text(json[k].shares),
        )
        &&& rows[1 + np + k][11] == ok_text(json[k].shares)
    } by {
        assert(rows[1 + np + k] == er[k]);
        assert(er[k] == expense_record(st.expenses[k], ok_text(json[k].icon), ok_text(json[k].shares)));
    }
}

proof fn lemma_upsert_holds(ps: Seq<ParticipantView>, p: ParticipantView)
    ensures
        upsert(ps, p).contains(p),
{
    lemma_participant_index(ps, p.id);
    match crate::state::participant_index(ps, p.id) {
        Some(i) => {
            assert(upsert(ps, p)[i] == p);
        },
        None => {
            assert(upsert(ps, p)[ps.len() as int] == p);
        },
    }
}

/// A participant row with a valid identifier and a name is read as an
/// active participant when its trimmed, lower-cased `participant_active`
/// field is empty, `1`, `true` or `yes`; as an inactive one when it is `0`,
/// `false` or `no`; any other value is refused with a message naming the
/// row. Reading a participant row leaves the records alone.
pub proof fn law_participant_row_activity(g: Gathered, h: Seq<Seq<char>>, row: Seq<Seq<char>>, n: int)
    requires
        uuid_field(h, row, "participant_id"@, n) is Ok,
        trimmed(field_of(h, row, "participant_name"@)).len() > 0,
    ensures
        ({
            let pid = uuid_field(h, row, "participant_id"@, n)->Ok_0;
            let name = trimmed(field_of(h, row, "participant_name"@));
            let a = lowercase_of(trimmed(field_of(h, row, "participant_active"@)));
            let r = participant_row(g, h, row, n);
            &&& (a.len() == 0 || a == "1"@ || a == "true"@ || a == "yes"@) ==> (r matches Ok(g2)
                && g2.participants.contains(ParticipantView { id: pid, name, is_active: true })
                && g2.expenses == g.expenses && g2.settlements == g.settlements)
            &&& (a == "0"@ || a == "false"@ || a == "no"@) ==> (r matches Ok(g2)
                && g2.participants.contains(ParticipantView { id: pid, name, is_active: false })
                && g2.expenses == g.expenses && g2.settlements == g.settlements)
            &&& !(a.len() == 0 || a == "1"@ || a == "true"@ || a == "yes"@ || a == "0"@ || a == "false"@
                || a == "no"@) ==> r == Err::<Gathered, Seq<char>>(
                row_msg(n, " has invalid participant_active value."@),
            )
        }),
{
    let pid = uuid_field(h, row, "participant_id"@, n)->Ok_0;
    let name = trimmed(field_of(h, row, "participant_name"@));
    reveal_strlit("0");
    reveal_strlit("1");
    reveal_strlit("true");
    reveal_strlit("yes");
    reveal_strlit("false");
    reveal_strlit("no");
    let a = lowercase_of(trimmed(field_of(h, row, "participant_active"@)));
    let r = participant_row(g, h, row, n);
    let on = ParticipantView { id: pid, name, is_active: true };
    let off = ParticipantView { id: pid, name, is_active: false };
    lemma_upsert_holds(g.participants, on);
    lemma_upsert_holds(g.participants, off);
    if a.len() == 0 || a == "1"@ || a == "true"@ || a == "yes"@ {
        assert(r == Ok::<Gathered, Seq<char>>(Gathered { participants: upsert(g.participants, on), ..g }));
        assert("0"@.len() == 1 && "false"@.len() == 5 && "no"@.len() == 2);
        assert("1"@.len() == 1 && "true"@.len() == 4 && "yes"@.len() == 3);
        assert(a != "0"@) by {
            if a == "0"@ {
                assert(a[0] == '0');
            }
        }
    } else if a == "0"@ || a == "false"@ || a == "no"@ {
        assert("0"@.len() == 1 && "false"@.len() == 5 && "no"@.len() == 2);
        assert("1"@.len() == 1 && "true"@.len() == 4 && "yes"@.len() == 3);
        assert(a != "1"@) by {
            if a == "1"@ {
                assert(a[0] == '1');
            }
        }
        assert(r == Ok::<Gathered, Seq<char>>(Gathered { participants: upsert(g.participants, off), ..g }));
    } else {
        assert(r == Err::<Gathered, Seq<char>>(row_msg(n, " has invalid participant_active value."@)));
    }
}

} // verus!
