//! The hyperperiod of a set of periodic tasks.

use crate::graph_extension::{CustomError, Dag};
use crate::log::all_wf;
use vstd::arithmetic::div_mod::{lemma_fundamental_div_mod, lemma_mod_multiples_basic};
use vstd::prelude::*;

verus! {

/// Whether `m` is positive and a multiple of both `a` and `b`.
pub open spec fn is_common_multiple(m: int, a: int, b: int) -> bool {
    m > 0 && m % a == 0 && m % b == 0
}

/// Whether `m` is the least common multiple of `a` and `b`.
pub open spec fn is_lcm(m: int, a: int, b: int) -> bool {
    &&& is_common_multiple(m, a, b)
    &&& forall|k: int| #[trigger] is_common_multiple(k, a, b) ==> m <= k
}

/// The least common multiple of two positive numbers, by
/// `num_integer::lcm`. For positive arguments that function returns the
/// lowest common multiple as `a * (b / gcd(a, b))`; with both arguments no
/// larger than `i32::MAX` that product fits an `i64`.
#[verifier::external_body]
fn lcm_of(a: i64, b: i64) -> (m: i64)
    requires
        0 < a <= i32::MAX,
        0 < b <= i32::MAX,
    ensures
        is_lcm(m as int, a as int, b as int),
{
    num_integer::lcm(a, b)
}

/// Whether `m` is positive and a multiple of each of the first `upto` of
/// `periods`.
pub open spec fn is_multiple_of_all(m: int, periods: Seq<int>, upto: int) -> bool {
    m > 0 && forall|i: int| 0 <= i < upto ==> m % (#[trigger] periods[i]) == 0
}

/// Whether `h` is the hyperperiod of the first `upto` of `periods`: the
/// least positive number that is a multiple of each of them.
pub open spec fn is_hyper_period(h: int, periods: Seq<int>, upto: int) -> bool {
    &&& is_multiple_of_all(h, periods, upto)
    &&& forall|m: int| #[trigger] is_multiple_of_all(m, periods, upto) ==> h <= m
}

/// A multiple of a multiple of `p` is a multiple of `p`.
pub proof fn lemma_multiple_of_multiple(m: int, h: int, p: int)
    requires
        p > 0,
        h > 0,
        m % h == 0,
        h % p == 0,
    ensures
        m % p == 0,
{
    lemma_fundamental_div_mod(m, h);
    lemma_fundamental_div_mod(h, p);
    let x = m / h;
    let y = h / p;
    assert(m == (x * y) * p) by (nonlinear_arith)
        requires
            m == h * x,
            h == p * y,
    ;
    lemma_mod_multiples_basic(x * y, p);
}

/// What is left when a multiple of `p` is divided by another multiple of
/// `p` is a multiple of `p` too.
pub proof fn lemma_remainder_is_multiple(m: int, h: int, p: int)
    requires
        p > 0,
        h > 0,
        m % p == 0,
        h % p == 0,
    ensures
        (m % h) % p == 0,
{
    lemma_fundamental_div_mod(m, h);
    lemma_fundamental_div_mod(m, p);
    lemma_fundamental_div_mod(h, p);
    let q = m / h;
    let x = m / p;
    let y = h / p;
    assert(m % h == (x - q * y) * p) by (nonlinear_arith)
        requires
            m == h * q + m % h,
            m == p * x,
            h == p * y,
    ;
    lemma_mod_multiples_basic(x - q * y, p);
}

/// Every number that is a multiple of each period is a multiple of their
/// hyperperiod.
pub proof fn lemma_hyper_period_divides(h: int, periods: Seq<int>, upto: int, m: int)
    requires
        is_hyper_period(h, periods, upto),
        is_multiple_of_all(m, periods, upto),
        forall|i: int| 0 <= i < upto ==> (#[trigger] periods[i]) > 0,
    ensures
        m % h == 0,
{
    let r = m % h;
    lemma_fundamental_div_mod(m, h);
    assert(0 <= r < h) by (nonlinear_arith)
        requires
            r == m % h,
            h > 0,
    ;
    if r > 0 {
        assert forall|i: int| 0 <= i < upto implies r % (#[trigger] periods[i]) == 0 by {
            lemma_remainder_is_multiple(m, h, periods[i]);
        }
        assert(is_multiple_of_all(r, periods, upto));
    }
}

/// The hyperperiod of one period more is the least common multiple of the
/// hyperperiod so far and that period.
pub proof fn lemma_hyper_period_step(h: int, periods: Seq<int>, upto: int, next: int)
    requires
        0 <= upto < periods.len(),
        is_hyper_period(h, periods, upto),
        forall|i: int| 0 <= i <= upto ==> (#[trigger] periods[i]) > 0,
        is_lcm(next, h, periods[upto]),
    ensures
        is_hyper_period(next, periods, upto + 1),
{
    assert forall|i: int| 0 <= i < upto + 1 implies next % (#[trigger] periods[i]) == 0 by {
        if i < upto {
            lemma_multiple_of_multiple(next, h, periods[i]);
        }
    }
    assert forall|m: int| #[trigger] is_multiple_of_all(m, periods, upto + 1) implies next
        <= m by {
        assert(is_multiple_of_all(m, periods, upto));
        lemma_hyper_period_divides(h, periods, upto, m);
        assert(is_common_multiple(m, h, periods[upto]));
    }
}

/// The periods of the tasks of `dag_set`, 0 standing for a task without one.
pub open spec fn periods_of(dag_set: Seq<Dag>) -> Seq<int> {
    Seq::new(
        dag_set.len(),
        |d: int|
            match dag_set[d].head_period() {
                Some(p) => p as int,
                None => 0,
            },
    )
}

/// Whether each of the first `upto` tasks of `dag_set` has a positive
/// period.
pub open spec fn all_periodic(dag_set: Seq<Dag>, upto: int) -> bool {
    forall|d: int|
        0 <= d < upto ==> (#[trigger] dag_set[d]).head_period() is Some && dag_set[d].head_period()->0
            > 0
}

/// The position of the first task of `dag_set` that has no positive
/// period, from `from` on.
pub open spec fn first_aperiodic(dag_set: Seq<Dag>, from: int) -> Option<int>
    decreases dag_set.len() - from,
{
    if from < 0 || from >= dag_set.len() {
        None
    } else if dag_set[from].head_period() is Some && dag_set[from].head_period()->0 > 0 {
        first_aperiodic(dag_set, from + 1)
    } else {
        Some(from)
    }
}

/// Why `dag_set` has no hyperperiod that an `i32` holds, if it has none:
/// `MissingDeadline` where the first task without a positive period has no
/// period at all and `NonPositivePeriod` where it has one; `Overflow` where
/// every task has a positive period and every common multiple of the
/// periods is more than an `i32` holds.
pub open spec fn hyper_period_fault(dag_set: Seq<Dag>) -> Option<CustomError> {
    match first_aperiodic(dag_set, 0) {
        Some(d) => Some(
            if dag_set[d].head_period() is None {
                CustomError::MissingDeadline
            } else {
                CustomError::NonPositivePeriod
            },
        ),
        None => if forall|m: int| #[trigger]
            is_multiple_of_all(m, periods_of(dag_set), dag_set.len() as int) ==> m > i32::MAX {
            Some(CustomError::Overflow)
        } else {
            None
        },
    }
}

/// The hyperperiod of `dag_set`: the least positive number that is a
/// multiple of the period of every task; 1 for the empty set. Fails exactly
/// when the set has no hyperperiod that an `i32` holds, with the fault that
/// `hyper_period_fault` names.
pub fn get_hyper_period(dag_set: &Vec<Dag>) -> (hyper_period: Result<i32, CustomError>)
    requires
        all_wf(dag_set@),
    ensures
        match hyper_period {
            Ok(h) => all_periodic(dag_set@, dag_set@.len() as int) && is_hyper_period(
                h as int,
                periods_of(dag_set@),
                dag_set@.len() as int,
            ),
            Err(e) => hyper_period_fault(dag_set@) == Some(e),
        },
        hyper_period is Ok <==> hyper_period_fault(dag_set@) is None,
{
    let ghost periods = periods_of(dag_set@);
    let n = dag_set.len();
    let mut d: usize = 0;
    while d < n
        invariant
            all_wf(dag_set@),
            n == dag_set@.len(),
            d <= n,
            all_periodic(dag_set@, d as int),
            first_aperiodic(dag_set@, 0) == first_aperiodic(dag_set@, d as int),
        decreases n - d,
    {
        assert(dag_set@[d as int].wf());
        match dag_set[d].get_head_period() {
            Some(p) => {
                if p <= 0 {
                    return Err(CustomError::NonPositivePeriod);
                }
            },
            None => {
                return Err(CustomError::MissingDeadline);
            },
        }
        d += 1;
    }
    let mut hyper: i32 = 1;
    let mut d: usize = 0;
    assert(is_hyper_period(1, periods, 0));
    while d < n
        invariant
            all_wf(dag_set@),
            n == dag_set@.len(),
            d <= n,
            periods == periods_of(dag_set@),
            all_periodic(dag_set@, n as int),
            first_aperiodic(dag_set@, 0) is None,
            hyper > 0,
            is_hyper_period(hyper as int, periods, d as int),
        decreases n - d,
    {
        assert(dag_set@[d as int].wf());
        assert(dag_set@[d as int].head_period() is Some && dag_set@[d as int].head_period()->0 > 0);
        let period = match dag_set[d].get_head_period() {
            Some(p) => p,
            None => 1,
        };
        assert(periods[d as int] == period);
        let next = lcm_of(hyper as i64, period as i64);
        proof {
            assert forall|i: int| 0 <= i <= d implies (#[trigger] periods[i]) > 0 by {
                assert(dag_set@[i].head_period() is Some && dag_set@[i].head_period()->0 > 0);
            }
            lemma_hyper_period_step(hyper as int, periods, d as int, next as int);
        }
        if next > i32::MAX as i64 {
            proof {
                assert forall|m: int| #[trigger] is_multiple_of_all(m, periods, n as int) implies m
                    > i32::MAX by {
                    assert(is_multiple_of_all(m, periods, d + 1));
                }
            }
            return Err(CustomError::Overflow);
        }
        hyper = next as i32;
        d += 1;
    }
    proof {
        assert(is_multiple_of_all(hyper as int, periods, n as int));
    }
    Ok(hyper)
}

} // verus!
