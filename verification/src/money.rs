//! Amounts of money in cents: parsing user input, formatting, currency codes
//! and titles.
use crate::text::{
    trim_end, trim_start,
    ascii_upper, char_ascii_upper, dec, digit_char, hex_char, is_ascii_alnum, push_dec,
    string_from_chars, trim,
    all_digits, chars_of, digit_value, digits_value, is_digit, lemma_digits_value_nonneg, lit, parse_i64, trim_chars,
    trimmed, unsigned_part,
};
use vstd::prelude::*;

verus! {

/// `s` with every `,` replaced by `.`.
pub open spec fn commas_to_dots(s: Seq<char>) -> Seq<char> {
    s.map_values(|c: char| if c == ',' { '.' } else { c })
}

/// How many `.` characters `s` holds.
pub open spec fn dot_count(s: Seq<char>) -> nat
    decreases s.len(),
{
    if s.len() == 0 {
        0
    } else {
        dot_count(s.drop_last()) + if s.last() == '.' { 1nat } else { 0nat }
    }
}

/// The position of the first `.` in `s`, or its length when there is none.
pub open spec fn dot_pos(s: Seq<char>) -> int
    decreases s.len(),
{
    if s.len() == 0 {
        0
    } else if s[0] == '.' {
        0
    } else {
        1 + dot_pos(s.drop_first())
    }
}

/// The decimal digits of `s`, in order.
pub open spec fn digits_only(s: Seq<char>) -> Seq<char>
    decreases s.len(),
{
    if s.len() == 0 {
        s
    } else if is_digit(s.last()) {
        digits_only(s.drop_last()).push(s.last())
    } else {
        digits_only(s.drop_last())
    }
}

/// The cents that at most two decimal digits stand for.
pub open spec fn fraction_cents(d: Seq<char>) -> int {
    if d.len() == 0 {
        0
    } else if d.len() == 1 {
        digit_value(d[0]) * 10
    } else {
        digit_value(d[0]) * 10 + digit_value(d[1])
    }
}

/// The amount, in cents, that a user's text stands for, or the message that
/// explains why it stands for none. Surrounding whitespace is ignored, a comma
/// counts as the decimal point, and characters other than digits are dropped
/// from either side of the point.
pub open spec fn money_parse(raw: Seq<char>) -> Result<int, Seq<char>> {
    let t = commas_to_dots(trimmed(raw));
    if t.len() == 0 {
        Err("Amount is required."@)
    } else if t[0] == '-' {
        Err("Amount cannot be negative."@)
    } else if dot_count(t) > 1 {
        Err("Amount format is invalid."@)
    } else {
        let d = dot_pos(t);
        let whole = digits_only(t.take(d));
        if whole.len() == 0 {
            Err("Amount format is invalid."@)
        } else if digits_value(whole) > i64::MAX {
            Err("Amount is too large."@)
        } else {
            let decimals = if d < t.len() {
                digits_only(t.skip(d + 1))
            } else {
                Seq::empty()
            };
            if decimals.len() > 2 {
                Err("Use at most two decimal places."@)
            } else if digits_value(whole) * 100 + fraction_cents(decimals) > i64::MAX {
                Err("Amount is too large."@)
            } else {
                Ok(digits_value(whole) * 100 + fraction_cents(decimals))
            }
        }
    }
}

/// The view of a result that holds an amount or a message.
pub open spec fn amount_result(r: Result<i64, String>) -> Result<int, Seq<char>> {
    match r {
        Ok(v) => Ok(v as int),
        Err(e) => Err(e@),
    }
}

/// The characters of `v[from..to]` that are decimal digits.
fn digits_in(v: &Vec<char>, from: usize, to: usize) -> (r: Vec<char>)
    requires
        from <= to <= v.len(),
    ensures
        r@ == digits_only(v@.subrange(from as int, to as int)),
        all_digits(r@),
{
    let mut r: Vec<char> = Vec::new();
    let mut i = from;
    assert(v@.subrange(from as int, from as int) =~= Seq::<char>::empty());
    while i < to
        invariant
            from <= i <= to <= v.len(),
            r@ == digits_only(v@.subrange(from as int, i as int)),
            all_digits(r@),
        decreases to - i,
    {
        let c = v[i];
        let ghost prev = v@.subrange(from as int, i as int);
        if '0' <= c && c <= '9' {
            r.push(c);
        }
        i += 1;
        proof {
            let cur = v@.subrange(from as int, i as int);
            assert(cur.drop_last() =~= prev);
            assert(cur.last() == c);
        }
    }
    r
}

proof fn lemma_dot_scan(s: Seq<char>, i: int, first: int, count: nat)
    requires
        0 <= i < s.len(),
        count == dot_count(s.take(i)),
        first == if count == 0 { i } else { dot_pos(s) },
        count == 0 ==> forall|k: int| 0 <= k < i ==> s[k] != '.',
        count > 0 ==> dot_pos(s) < i,
    ensures
        dot_count(s.take(i + 1)) == count + if s[i] == '.' { 1nat } else { 0nat },
        s.take(i + 1).drop_last() == s.take(i),
{
    assert(s.take(i + 1).drop_last() =~= s.take(i));
}

proof fn lemma_dot_pos_at(s: Seq<char>, d: int)
    requires
        0 <= d <= s.len(),
        forall|k: int| 0 <= k < d ==> s[k] != '.',
        d == s.len() || s[d] == '.',
    ensures
        dot_pos(s) == d,
    decreases d,
{
    if d > 0 {
        let t = s.drop_first();
        assert forall|k: int| 0 <= k < d - 1 implies t[k] != '.' by {
            assert(t[k] == s[k + 1]);
        }
        if d < s.len() {
            assert(t[d - 1] == s[d]);
        }
        lemma_dot_pos_at(t, d - 1);
    }
}

/// Reads an amount typed by a user as a whole number of cents.
pub fn parse_money_to_cents(raw: &str) -> (r: Result<i64, String>)
    ensures
        amount_result(r) == money_parse(raw@),
{
    let raw_chars = chars_of(raw);
    let trimmed_chars = trim_chars(&raw_chars);
    let mut t: Vec<char> = Vec::new();
    for i in 0..trimmed_chars.len()
        invariant
            t@ == commas_to_dots(trimmed_chars@).take(i as int),
    {
        let c = trimmed_chars[i];
        t.push(if c == ',' { '.' } else { c });
        assert(t@ =~= commas_to_dots(trimmed_chars@).take(i + 1));
    }
    assert(t@ =~= commas_to_dots(trimmed(raw@)));
    let n = t.len();
    if n == 0 {
        return Err(lit("Amount is required."));
    }
    if t[0] == '-' {
        return Err(lit("Amount cannot be negative."));
    }
    let mut count: usize = 0;
    let mut first: usize = n;
    let mut i: usize = 0;
    assert(t@.take(0) =~= Seq::<char>::empty());
    while i < n
        invariant
            i <= n == t.len(),
            count <= i,
            count == dot_count(t@.take(i as int)),
            count == 0 ==> first == n && forall|k: int| 0 <= k < i ==> t@[k] != '.',
            count > 0 ==> first < i && first == dot_pos(t@),
        decreases n - i,
    {
        proof {
            lemma_dot_scan(t@, i as int, if count == 0 { i as int } else { first as int }, count as nat);
        }
        if t[i] == '.' {
            if count == 0 {
                first = i;
                proof {
                    lemma_dot_pos_at(t@, i as int);
                }
            }
            count += 1;
        }
        i += 1;
    }
    assert(t@.take(n as int) =~= t@);
    if count > 1 {
        return Err(lit("Amount format is invalid."));
    }
    proof {
        if count == 0 {
            lemma_dot_pos_at(t@, n as int);
        }
    }
    let d = first;
    let whole_digits = digits_in(&t, 0, d);
    assert(t@.subrange(0, d as int) =~= t@.take(d as int));
    if whole_digits.len() == 0 {
        return Err(lit("Amount format is invalid."));
    }
    assert(unsigned_part(whole_digits@) == whole_digits@);
    proof {
        lemma_digits_value_nonneg(whole_digits@);
    }
    let whole = match parse_i64(&whole_digits) {
        Some(w) => w,
        None => {
            return Err(lit("Amount is too large."));
        },
    };
    let decimals = if d < n {
        digits_in(&t, d + 1, n)
    } else {
        Vec::new()
    };
    proof {
        if d < n {
            assert(t@.subrange(d + 1, n as int) =~= t@.skip(d + 1));
        }
    }
    if decimals.len() > 2 {
        return Err(lit("Use at most two decimal places."));
    }
    let frac: i64 = if decimals.len() == 0 {
        0
    } else if decimals.len() == 1 {
        (decimals[0] as u32 - '0' as u32) as i64 * 10
    } else {
        (decimals[0] as u32 - '0' as u32) as i64 * 10 + (decimals[1] as u32 - '0' as u32) as i64
    };
    assert(frac == fraction_cents(decimals@));
    assert(whole == digits_value(whole_digits@));
    match whole.checked_mul(100) {
        Some(hundreds) => match hundreds.checked_add(frac) {
            Some(v) => Ok(v),
            None => Err(lit("Amount is too large.")),
        },
        None => Err(lit("Amount is too large.")),
    }
}


/// Two decimal digits of `n` (`0 <= n < 100`), zero-padded.
pub open spec fn two_digits(n: int) -> Seq<char> {
    seq![hex_char(n / 10), hex_char(n % 10)]
}

/// `cents` written as units and two decimals, with `-` when negative:
/// `1234` is `12.34`, `-5` is `-0.05`.
pub open spec fn cents_text(cents: int) -> Seq<char> {
    let a = if cents < 0 { -cents } else { cents };
    (if cents < 0 { seq!['-'] } else { Seq::empty() }) + dec((a / 100) as nat) + seq!['.']
        + two_digits(a % 100)
}

/// Writes an amount of cents as units with two decimals.
pub fn format_cents(cents: i64) -> (r: String)
    requires
        cents > i64::MIN,
    ensures
        r@ == cents_text(cents as int),
{
    let a: i64 = if cents < 0 { -cents } else { cents };
    let mut out: Vec<char> = Vec::new();
    if cents < 0 {
        out.push('-');
    }
    push_dec((a / 100) as u128, &mut out);
    out.push('.');
    let frac = (a % 100) as u128;
    out.push(digit_char(frac / 10));
    out.push(digit_char(frac % 10));
    assert(out@ =~= cents_text(cents as int));
    string_from_chars(&out)
}

/// `currency`, a space and the amount: `EUR 12.34`.
pub open spec fn money_text(cents: int, currency: Seq<char>) -> Seq<char> {
    currency + seq![' '] + cents_text(cents)
}

/// Writes an amount with its currency code.
pub fn format_money(cents: i64, currency: &str) -> (r: String)
    requires
        cents > i64::MIN,
    ensures
        r@ == money_text(cents as int, currency@),
{
    let mut out = String::from_str(currency);
    out.append(" ");
    let amount = format_cents(cents);
    out.append(amount.as_str());
    proof {
        reveal_strlit(" ");
    }
    assert(out@ =~= money_text(cents as int, currency@));
    out
}

/// A net balance with an explicit sign in front of the currency:
/// `+EUR 1.00`, `-EUR 2.50`.
pub open spec fn signed_money_text(cents: int, currency: Seq<char>) -> Seq<char> {
    if cents >= 0 {
        seq!['+'] + money_text(cents, currency)
    } else {
        seq!['-'] + money_text(-cents, currency)
    }
}

/// Writes a net balance with its sign and currency code.
pub fn format_signed_money(cents: i64, currency: &str) -> (r: String)
    requires
        cents > i64::MIN,
    ensures
        r@ == signed_money_text(cents as int, currency@),
{
    let mut out = if cents >= 0 {
        lit("+")
    } else {
        lit("-")
    };
    let body = if cents >= 0 {
        format_money(cents, currency)
    } else {
        format_money(-cents, currency)
    };
    out.append(body.as_str());
    proof {
        reveal_strlit("+");
        reveal_strlit("-");
    }
    assert(out@ =~= signed_money_text(cents as int, currency@));
    out
}

/// The ASCII letters and digits of `s`, upper-cased.
pub open spec fn upper_alnum(s: Seq<char>) -> Seq<char>
    decreases s.len(),
{
    if s.len() == 0 {
        s
    } else if is_ascii_alnum(s.last()) {
        upper_alnum(s.drop_last()).push(ascii_upper(s.last()))
    } else {
        upper_alnum(s.drop_last())
    }
}

/// The currency code that `s` stands for: its ASCII letters and digits in
/// upper case, or `USD` when it has none.
pub open spec fn currency_code(s: Seq<char>) -> Seq<char> {
    if upper_alnum(s).len() == 0 {
        "USD"@
    } else {
        upper_alnum(s)
    }
}

/// The code used where none is given.
pub fn default_currency_code() -> (r: String)
    ensures
        r@ == "USD"@,
{
    lit("USD")
}

/// Reduces a typed currency to a code: letters and digits only, upper case,
/// `USD` when nothing is left.
pub fn normalize_currency(currency: &str) -> (r: String)
    ensures
        r@ == currency_code(currency@),
{
    let v = chars_of(currency);
    let mut out: Vec<char> = Vec::new();
    for i in 0..v.len()
        invariant
            out@ == upper_alnum(v@.take(i as int)),
    {
        let c = v[i];
        let ghost prev = v@.take(i as int);
        if ('0' <= c && c <= '9') || ('a' <= c && c <= 'z') || ('A' <= c && c <= 'Z') {
            out.push(char_ascii_upper(c));
        }
        proof {
            let cur = v@.take(i + 1);
            assert(cur.drop_last() =~= prev);
            assert(cur.last() == c);
        }
    }
    assert(v@.take(v.len() as int) =~= v@);
    if out.len() == 0 {
        default_currency_code()
    } else {
        string_from_chars(&out)
    }
}

/// The title of an expense: the text without surrounding whitespace.
pub fn normalize_expense_title(title: &str) -> (r: String)
    ensures
        r@ == trimmed(title@),
{
    trim(title)
}

proof fn lemma_ascii_upper_char(c: char)
    requires
        is_ascii_alnum(c),
    ensures
        is_ascii_alnum(ascii_upper(c)),
        ascii_upper(ascii_upper(c)) == ascii_upper(c),
{
}

proof fn lemma_upper_alnum_props(s: Seq<char>)
    ensures
        forall|i: int| 0 <= i < upper_alnum(s).len() ==> {
            let c = #[trigger] upper_alnum(s)[i];
            is_ascii_alnum(c) && ascii_upper(c) == c
        },
    decreases s.len(),
{
    if s.len() > 0 {
        lemma_upper_alnum_props(s.drop_last());
        let p = upper_alnum(s.drop_last());
        if is_ascii_alnum(s.last()) {
            lemma_ascii_upper_char(s.last());
            assert forall|i: int| 0 <= i < upper_alnum(s).len() implies {
                let c = #[trigger] upper_alnum(s)[i];
                is_ascii_alnum(c) && ascii_upper(c) == c
            } by {
                if i < p.len() {
                    assert(upper_alnum(s)[i] == p[i]);
                }
            }
        }
    }
}

proof fn lemma_upper_alnum_fixed(s: Seq<char>)
    requires
        forall|i: int| 0 <= i < s.len() ==> is_ascii_alnum(#[trigger] s[i]) && ascii_upper(s[i]) == s[i],
    ensures
        upper_alnum(s) == s,
    decreases s.len(),
{
    if s.len() > 0 {
        lemma_upper_alnum_fixed(s.drop_last());
        assert(s.drop_last().push(s.last()) =~= s);
    }
}

/// Normalizing a currency code twice gives what normalizing once gives.
pub proof fn law_currency_code_idempotent(s: Seq<char>)
    ensures
        currency_code(currency_code(s)) == currency_code(s),
{
    reveal_strlit("USD");
    let u = upper_alnum(s);
    if u.len() == 0 {
        lemma_upper_alnum_fixed("USD"@);
    } else {
        lemma_upper_alnum_props(s);
        lemma_upper_alnum_fixed(u);
    }
}


proof fn lemma_hex_digit(d: int)
    requires
        0 <= d < 10,
    ensures
        digit_value(hex_char(d)) == d,
        is_digit(hex_char(d)),
{
}

proof fn lemma_dec_digits(n: nat)
    ensures
        all_digits(dec(n)),
        dec(n).len() >= 1,
        digits_value(dec(n)) == n,
    decreases n,
{
    let d = dec(n);
    if n >= 10 {
        lemma_hex_digit((n % 10) as int);
        lemma_dec_digits(n / 10);
        assert(d.drop_last() =~= dec(n / 10));
        assert(d.last() == hex_char((n % 10) as int));
        assert(digits_value(d) == digits_value(dec(n / 10)) * 10 + digit_value(d.last()));
        assert((n / 10) * 10 + n % 10 == n) by (nonlinear_arith);
        assert(digits_value(d) == n);
        assert forall|i: int| 0 <= i < d.len() implies is_digit(#[trigger] d[i]) by {
            if i < d.len() - 1 {
                assert(d[i] == dec(n / 10)[i]);
            }
        }
    } else {
        lemma_hex_digit(n as int);
        assert(d.drop_last() =~= Seq::<char>::empty());
        assert(d.last() == hex_char(n as int));
        assert(digits_value(Seq::<char>::empty()) == 0);
        assert(digits_value(d) == digits_value(d.drop_last()) * 10 + digit_value(d.last()));
        assert(digits_value(d) == n);
        assert(is_digit(d[0]));
    }
}

proof fn lemma_digits_fixed(s: Seq<char>)
    requires
        all_digits(s),
    ensures
        digits_only(s) == s,
        dot_count(s) == 0,
    decreases s.len(),
{
    if s.len() > 0 {
        let t = s.drop_last();
        assert(all_digits(t)) by {
            assert forall|i: int| 0 <= i < t.len() implies is_digit(#[trigger] t[i]) by {
                assert(t[i] == s[i]);
            }
        }
        lemma_digits_fixed(t);
        assert(t.push(s.last()) =~= s);
        assert(is_digit(s[s.len() - 1]));
    }
}

/// Reading back the text of a non-negative amount gives the amount.
#[verifier::rlimit(40)]
pub proof fn law_parse_formatted_cents(cents: int)
    requires
        0 <= cents <= i64::MAX,
    ensures
        money_parse(cents_text(cents)) == Ok::<int, Seq<char>>(cents),
{
    let whole = (cents / 100) as nat;
    let r = cents % 100;
    let d = dec(whole);
    let f = two_digits(r);
    let t = cents_text(cents);
    lemma_dec_digits(whole);
    lemma_digits_fixed(d);
    assert(t =~= d + seq!['.'] + f);
    assert(f[0] == hex_char(r / 10));
    lemma_hex_digit(r / 10);
    lemma_hex_digit(r % 10);
    assert(is_digit(f[0]) && is_digit(f[1]));
    assert(all_digits(f));
    lemma_digits_fixed(f);
    // no surrounding whitespace and no commas
    assert(is_digit(t[0]));
    assert(t.last() == f[1]);
    assert(trim_start(t) == t);
    assert(trim_end(t) == t);
    assert(trimmed(t) == t);
    assert(commas_to_dots(t) =~= t) by {
        assert forall|i: int| 0 <= i < t.len() implies t[i] != ',' by {
            if i < d.len() {
                assert(t[i] == d[i]);
                assert(is_digit(d[i]));
            } else if i > d.len() {
                assert(t[i] == f[i - d.len() - 1]);
            }
        }
    }
    // exactly one point, right after the units
    assert(t.drop_last() =~= d + seq!['.'] + seq![f[0]]);
    assert((d + seq!['.'] + seq![f[0]]).drop_last() =~= d + seq!['.']);
    assert((d + seq!['.']).drop_last() =~= d);
    let t1 = d + seq!['.'] + seq![f[0]];
    let t2 = d + seq!['.'];
    assert(t2.last() == '.');
    assert(dot_count(t2) == dot_count(d) + 1);
    assert(t1.last() == f[0]);
    assert(dot_count(t1) == dot_count(t2));
    assert(dot_count(t) == dot_count(t1));
    assert(dot_count(t) == 1);
    assert forall|k: int| 0 <= k < d.len() implies t[k] != '.' by {
        assert(t[k] == d[k]);
        assert(is_digit(d[k]));
    }
    lemma_dot_pos_at(t, d.len() as int);
    assert(t.take(d.len() as int) =~= d);
    assert(t.skip(d.len() as int + 1) =~= f);
    assert(fraction_cents(f) == r);
}


proof fn lemma_digits_only_digits(s: Seq<char>)
    ensures
        all_digits(digits_only(s)),
    decreases s.len(),
{
    if s.len() > 0 {
        lemma_digits_only_digits(s.drop_last());
        let d = digits_only(s.drop_last());
        if is_digit(s.last()) {
            assert forall|i: int| 0 <= i < d.push(s.last()).len() implies is_digit(
                #[trigger] d.push(s.last())[i],
            ) by {
                if i < d.len() {
                    assert(d.push(s.last())[i] == d[i]);
                }
            }
        }
    }
}

/// An amount read from text is a whole number of cents between zero and
/// `i64::MAX`.
pub proof fn lemma_money_parse_range(raw: Seq<char>)
    ensures
        money_parse(raw) matches Ok(v) ==> 0 <= v <= i64::MAX,
{
    let t = commas_to_dots(trimmed(raw));
    if t.len() > 0 && t[0] != '-' && dot_count(t) <= 1 {
        let d = dot_pos(t);
        let whole = digits_only(t.take(d));
        lemma_digits_only_digits(t.take(d));
        lemma_digits_value_nonneg(whole);
        let decimals = if d < t.len() {
            digits_only(t.skip(d + 1))
        } else {
            Seq::empty()
        };
        if d < t.len() {
            lemma_digits_only_digits(t.skip(d + 1));
        }
        if decimals.len() == 1 {
            assert(is_digit(decimals[0]));
        } else if decimals.len() == 2 {
            assert(is_digit(decimals[0]));
            assert(is_digit(decimals[1]));
        }
    }
}


/// A currency code is never blank: trimming leaves it whole.
pub proof fn lemma_currency_code_not_blank(s: Seq<char>)
    ensures
        crate::text::trimmed(currency_code(s)) == currency_code(s),
        currency_code(s).len() > 0,
{
    let c = currency_code(s);
    if upper_alnum(s).len() == 0 {
        reveal_strlit("USD");
        assert(c[0] == 'U' && c[2] == 'D');
    } else {
        lemma_upper_alnum_props(s);
        assert(is_ascii_alnum(c[0]));
        assert(is_ascii_alnum(c[c.len() - 1]));
    }
    assert(!crate::text::is_whitespace(c[0]));
    assert(!crate::text::is_whitespace(c.last()));
    assert(crate::text::trim_start(c) == c);
    assert(crate::text::trim_end(c) == c);
}

} // verus!
