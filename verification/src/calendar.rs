//! Business-day counting between two dates.
//!
//! The count follows the convention of the pricing formulas: every
//! weekday `d` with `start <= d < end` is counted, so the start date is
//! counted when it is a weekday and the end date never is. When `end`
//! is not strictly after `start` the count is zero.

use crate::date::Date;
use crate::date::is_business_day_num;
use crate::date::weekday_index;
use vstd::prelude::*;

verus! {

/// Number of weekdays (Monday-Friday) among the day numbers in `[a, b)`;
/// zero when `b <= a`.
pub open spec fn weekday_count(a: int, b: int) -> int
    decreases b - a,
{
    if b <= a {
        0
    } else {
        weekday_count(a, b - 1) + if is_business_day_num(b - 1) {
            1int
        } else {
            0int
        }
    }
}

/// The business-day count is never negative, is zero on an empty or
/// reversed span, and never exceeds the number of calendar days spanned.
pub proof fn lemma_weekday_count_bounds(a: int, b: int)
    ensures
        0 <= weekday_count(a, b),
        b <= a ==> weekday_count(a, b) == 0,
        a <= b ==> weekday_count(a, b) <= b - a,
    decreases b - a,
{
    if b > a {
        lemma_weekday_count_bounds(a, b - 1);
    }
}

/// Weekday index of the `i`-th day after day `n`: the weekday index of
/// day `n` advanced by `i`, wrapping around the end of the week.
proof fn lemma_weekday_index_step(n: int, i: int)
    requires
        0 <= i < 7,
    ensures
        weekday_index(n + i) == if (n + 3) % 7 + i < 7 {
            (n + 3) % 7 + i
        } else {
            (n + 3) % 7 + i - 7
        },
{
    let w = (n + 3) % 7;
    vstd::arithmetic::div_mod::lemma_mod_division_less_than_divisor(n + 3, 7);
    vstd::arithmetic::div_mod::lemma_add_mod_noop(n + 3, i, 7);
    vstd::arithmetic::div_mod::lemma_small_mod(i as nat, 7);
    if w + i < 7 {
        vstd::arithmetic::div_mod::lemma_small_mod((w + i) as nat, 7);
    } else {
        vstd::arithmetic::div_mod::lemma_fundamental_div_mod_converse_mod(w + i, 7, 1, w + i - 7);
    }
}

/// Any span of exactly one calendar week contains exactly five business
/// days, wherever in the week it starts.
pub proof fn lemma_full_week_has_five_business_days(n: int)
    ensures
        weekday_count(n, n + 7) == 5,
{
    reveal_with_fuel(weekday_count, 8);
    lemma_weekday_index_step(n, 0);
    lemma_weekday_index_step(n, 1);
    lemma_weekday_index_step(n, 2);
    lemma_weekday_index_step(n, 3);
    lemma_weekday_index_step(n, 4);
    lemma_weekday_index_step(n, 5);
    lemma_weekday_index_step(n, 6);
    vstd::arithmetic::div_mod::lemma_mod_division_less_than_divisor(n + 3, 7);
    assert(weekday_count(n, n + 7) == 5);
}

/// Whether day number `n` falls on a weekday (Monday-Friday).
fn is_business_day_exec(n: i64) -> (r: bool)
    requires
        -147000000 <= n <= 147000000,
    ensures
        r == is_business_day_num(n as int),
{
    let shifted: u64 = (n + 3 + 210000000) as u64;
    proof {
        vstd::arithmetic::div_mod::lemma_mod_multiples_vanish(30000000, n + 3, 7);
    }
    shifted % 7 <= 4
}

/// Counts the business days (weekdays, Monday-Friday) from `data_atual`
/// inclusive up to `data_vencimento` exclusive; zero whenever
/// `data_vencimento` is not strictly after `data_atual`.
pub fn calcular_dias_uteis(data_atual: Date, data_vencimento: Date) -> (dias: i32)
    requires
        data_atual.valid(),
        data_vencimento.valid(),
    ensures
        dias == weekday_count(data_atual.day_number(), data_vencimento.day_number()),
        0 <= dias,
        data_vencimento.day_number() <= data_atual.day_number() ==> dias == 0,
        data_atual.day_number() <= data_vencimento.day_number() ==> dias
            <= data_vencimento.day_number() - data_atual.day_number(),
        !data_atual.before(data_vencimento) ==> dias == 0,
{
    proof {
        crate::date::lemma_calendar_order_matches_day_number(data_atual, data_vencimento);
    }
    let ds: i64 = data_atual.to_day_number();
    let de: i64 = data_vencimento.to_day_number();
    if de <= ds {
        return 0;
    }
    let mut dias: i32 = 0;
    let mut cursor: i64 = ds;
    while cursor < de
        invariant
            ds <= cursor <= de,
            -147000000 <= ds,
            de <= 147000000,
            dias == weekday_count(ds as int, cursor as int),
            0 <= dias <= cursor - ds,
        decreases de - cursor,
    {
        if is_business_day_exec(cursor) {
            dias = dias + 1;
        }
        cursor = cursor + 1;
    }
    dias
}

} // verus!
