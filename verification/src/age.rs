use vstd::prelude::*;
use crate::text::{decimal, digit_char, push_decimal, push_str, string_from_chars};

verus! {

/// How long ago, in words, a moment `ts` (seconds since the Unix epoch) was
/// at time `now`: under a minute is "just now", then whole minutes, hours or
/// days, rounded down.
pub open spec fn age_text(ts: int, now: int) -> Seq<char> {
    let secs = if now >= ts {
        now - ts
    } else {
        0
    };
    if secs < 60 {
        "just now"@
    } else if secs < 3_600 {
        decimal((secs / 60) as nat) + " min ago"@
    } else if secs < 86_400 {
        decimal((secs / 3_600) as nat) + " hours ago"@
    } else {
        decimal((secs / 86_400) as nat) + " days ago"@
    }
}

/// Describes how long before `now` the moment `ts` was (both in seconds
/// since the Unix epoch).
pub fn age(ts: u64, now: u64) -> (r: String)
    ensures
        r@ == age_text(ts as int, now as int),
{
    let secs = now.saturating_sub(ts);
    let mut out: Vec<char> = Vec::new();
    if secs < 60 {
        push_str(&mut out, "just now");
    } else if secs < 3_600 {
        push_decimal(secs / 60, &mut out);
        push_str(&mut out, " min ago");
    } else if secs < 86_400 {
        push_decimal(secs / 3_600, &mut out);
        push_str(&mut out, " hours ago");
    } else {
        push_decimal(secs / 86_400, &mut out);
        push_str(&mut out, " days ago");
    }
    string_from_chars(out.as_slice())
}

/// Seconds from `ts` to `now`, or 0 when `ts` is later.
pub open spec fn elapsed(ts: int, now: int) -> int {
    if now >= ts {
        now - ts
    } else {
        0
    }
}

/// Whether `c` is a decimal digit.
pub open spec fn is_digit(c: char) -> bool {
    '0' <= c && c <= '9'
}

proof fn lemma_digit_char(d: int)
    requires
        0 <= d < 10,
    ensures
        is_digit(digit_char(d)),
        forall|e: int| 0 <= e < 10 && #[trigger] digit_char(e) == digit_char(d) ==> e == d,
{
}

proof fn lemma_decimal_digits(n: nat)
    ensures
        decimal(n).len() >= 1,
        n >= 10 ==> decimal(n).len() >= 2,
        forall|k: int| 0 <= k < decimal(n).len() ==> is_digit(#[trigger] decimal(n)[k]),
    decreases n,
{
    if n < 10 {
        lemma_digit_char(n as int);
    } else {
        lemma_decimal_digits(n / 10);
        lemma_digit_char((n % 10) as int);
        let d = decimal(n / 10);
        assert forall|k: int| 0 <= k < decimal(n).len() implies is_digit(#[trigger] decimal(n)[k]) by {
            if k < d.len() {
                assert(decimal(n)[k] == d[k]);
            }
        }
    }
}

/// Different numbers have different decimal forms.
proof fn lemma_decimal_injective(a: nat, b: nat)
    requires
        decimal(a) == decimal(b),
    ensures
        a == b,
    decreases a,
{
    lemma_decimal_digits(a);
    lemma_decimal_digits(b);
    if a < 10 && b < 10 {
        assert(decimal(a)[0] == digit_char(a as int));
        lemma_digit_char(a as int);
        lemma_digit_char(b as int);
    } else if a >= 10 && b >= 10 {
        let da = decimal(a);
        assert(da.last() == digit_char((a % 10) as int));
        assert(decimal(b).last() == digit_char((b % 10) as int));
        lemma_digit_char((a % 10) as int);
        lemma_digit_char((b % 10) as int);
        assert(da.drop_last() == decimal(a / 10));
        assert(decimal(b).drop_last() == decimal(b / 10));
        lemma_decimal_injective(a / 10, b / 10);
    }
}

proof fn lemma_cancel_suffix(x: Seq<char>, y: Seq<char>, p: Seq<char>)
    requires
        x + p == y + p,
    ensures
        x == y,
{
    assert((x + p).len() == (y + p).len());
    assert(x =~= (x + p).subrange(0, x.len() as int));
    assert(y =~= (y + p).subrange(0, y.len() as int));
}

/// The character nine places before the end of a text, which tells the units
/// apart: a digit before `" min ago"`, a space before `" days ago"`, `h` in
/// `" hours ago"`.
spec fn unit_mark(t: Seq<char>) -> char {
    t[t.len() - 9]
}

proof fn lemma_unit_marks(n: nat)
    ensures
        unit_mark(decimal(n) + " min ago"@) != 'h' && unit_mark(decimal(n) + " min ago"@) != ' ',
        unit_mark(decimal(n) + " hours ago"@) == 'h',
        unit_mark(decimal(n) + " days ago"@) == ' ',
        (decimal(n) + " min ago"@).len() > 8,
{
    reveal_strlit(" min ago");
    reveal_strlit(" hours ago");
    reveal_strlit(" days ago");
    lemma_decimal_digits(n);
    let d = decimal(n);
    assert((d + " min ago"@)[d.len() - 1] == d[d.len() - 1]);
    assert((d + " hours ago"@)[d.len() as int + 1] == 'h');
    assert((d + " days ago"@)[d.len() as int] == ' ');
}

/// The age in words counts whole units, rounded down: "just now" exactly
/// when under a minute has passed; a text of `n` minutes, hours or days
/// means that at least `n` and fewer than `n + 1` of that unit have passed
/// (and the smaller units do not cover it); and every age of a minute or more
/// is told as a number of minutes, hours or days.
pub proof fn lemma_age_counts_whole_units(ts: int, now: int, n: nat)
    ensures
        age_text(ts, now) == "just now"@ <==> elapsed(ts, now) < 60,
        age_text(ts, now) == decimal(n) + " min ago"@ ==> 60 <= elapsed(ts, now) < 3_600 && n * 60 <= elapsed(ts, now)
            < (n + 1) * 60,
        age_text(ts, now) == decimal(n) + " hours ago"@ ==> 3_600 <= elapsed(ts, now) < 86_400 && n * 3_600
            <= elapsed(ts, now) < (n + 1) * 3_600,
        age_text(ts, now) == decimal(n) + " days ago"@ ==> 86_400 <= elapsed(ts, now) && n * 86_400 <= elapsed(ts, now)
            < (n + 1) * 86_400,
        60 <= elapsed(ts, now) < 3_600 ==> exists|m: nat| age_text(ts, now) == #[trigger] decimal(m) + " min ago"@,
        3_600 <= elapsed(ts, now) < 86_400 ==> exists|m: nat| age_text(ts, now) == #[trigger] decimal(m) + " hours ago"@,
        86_400 <= elapsed(ts, now) ==> exists|m: nat| age_text(ts, now) == #[trigger] decimal(m) + " days ago"@,
{
    reveal_strlit("just now");
    let e = elapsed(ts, now);
    let t = age_text(ts, now);
    if e < 60 {
        lemma_unit_marks(n);
        assert(t.len() == 8);
        assert((decimal(n) + " hours ago"@).len() > 8) by {
            reveal_strlit(" hours ago");
            lemma_decimal_digits(n);
        }
        assert((decimal(n) + " days ago"@).len() > 8) by {
            reveal_strlit(" days ago");
            lemma_decimal_digits(n);
        }
    } else {
        let (m, unit, suffix) = if e < 3_600 {
            ((e / 60) as nat, 60int, " min ago"@)
        } else if e < 86_400 {
            ((e / 3_600) as nat, 3_600int, " hours ago"@)
        } else {
            ((e / 86_400) as nat, 86_400int, " days ago"@)
        };
        assert(t == decimal(m) + suffix);
        lemma_unit_marks(m);
        lemma_unit_marks(n);
        assert(t != "just now"@) by {
            reveal_strlit(" min ago");
            reveal_strlit(" hours ago");
            reveal_strlit(" days ago");
            lemma_decimal_digits(m);
        }
        assert(m * unit <= e < (m + 1) * unit) by (nonlinear_arith)
            requires
                unit > 0,
                m == e / unit,
                e >= 0,
        ;
        if t == decimal(n) + " min ago"@ {
            assert(suffix == " min ago"@);
            lemma_cancel_suffix(decimal(m), decimal(n), suffix);
            lemma_decimal_injective(m, n);
        }
        if t == decimal(n) + " hours ago"@ {
            assert(suffix == " hours ago"@);
            lemma_cancel_suffix(decimal(m), decimal(n), suffix);
            lemma_decimal_injective(m, n);
        }
        if t == decimal(n) + " days ago"@ {
            assert(suffix == " days ago"@);
            lemma_cancel_suffix(decimal(m), decimal(n), suffix);
            lemma_decimal_injective(m, n);
        }
        assert(t == decimal(m) + suffix);
    }
}

} // verus!
