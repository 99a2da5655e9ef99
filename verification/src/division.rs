//! The long-division engine: normalized multi-digit division with trial
//! quotient-digit estimation and at most one correction per position.

use vstd::prelude::*;
use vstd::arithmetic::div_mod::lemma_fundamental_div_mod;
use vstd::arithmetic::div_mod::lemma_fundamental_div_mod_converse;
use vstd::arithmetic::div_mod::lemma_multiply_divide_lt;
use vstd::arithmetic::div_mod::lemma_small_mod;
use crate::digits::digit_at;
use crate::digits::digits_wf;
use crate::digits::lookup;
use crate::digits::pad;
use crate::digits::pow10;
use crate::digits::put;
use crate::digits::seq_val;
use crate::digits::trimmed_len;
use crate::nsi::NonSmallInt;

verus! {

/// `n` consecutive digit positions of `r` starting at offset `k`, least
/// significant first, read as zero beyond storage.
pub open spec fn window_part(r: Seq<u8>, k: int, n: nat) -> Seq<u8> {
    Seq::new(n, |i: int| digit_at(r, k + i))
}

/// The three leading digits of the remainder window `[k, k+m]`.
pub open spec fn top3(r: Seq<u8>, k: int, m: int) -> nat {
    100 * (digit_at(r, k + m) as nat) + 10 * (digit_at(r, k + m - 1) as nat) + digit_at(
        r,
        k + m - 2,
    ) as nat
}

/// The two leading digits of a divisor of trimmed length `m`.
pub open spec fn top2(d: Seq<u8>, m: int) -> nat {
    10 * (digit_at(d, m - 1) as nat) + digit_at(d, m - 2) as nat
}

/// A window carries the whole value above its offset when nothing is stored
/// beyond its top.
proof fn lemma_window_val(r: Seq<u8>, k: int, n: nat)
    requires
        0 <= k <= r.len(),
        forall|j: int| k + n <= j ==> digit_at(r, j) == 0,
    ensures
        seq_val(r) == seq_val(r.subrange(0, k)) + pow10(k as nat) * seq_val(
            window_part(r, k, n),
        ),
{
    crate::digits::lemma_seq_val_split(r, k);
    let hi = r.subrange(k, r.len() as int);
    assert forall|i: int| n <= i < hi.len() implies hi[i] == 0 by {
        assert(digit_at(r, k + i) == 0);
    }
    crate::digits::lemma_pad_val_high_zero(hi, n);
    assert(pad(hi, n) =~= window_part(r, k, n));
}

/// Bounds for the trial quotient digit: the three-by-two estimate is never
/// below the true digit and overshoots it by at most one.
proof fn lemma_trial_bounds(
    w: nat,
    r3: nat,
    low: nat,
    dv: nat,
    d2: nat,
    low2: nat,
    p: nat,
    q: nat,
)
    requires
        p >= 1,
        w == low + r3 * p,
        low < p,
        dv == low2 + d2 * p,
        low2 < p,
        d2 >= 10,
        q == w / dv,
        q <= 9,
    ensures
        q <= r3 / d2,
        r3 / d2 <= q + 1,
{
    let e = r3 / d2;
    assert(dv > 0) by (nonlinear_arith)
        requires
            dv == low2 + d2 * p,
            d2 >= 10,
            p >= 1,
    ;
    lemma_fundamental_div_mod(w as int, dv as int);
    vstd::arithmetic::div_mod::lemma_mod_division_less_than_divisor(w as int, dv as int);
    assert(w as int == dv * q + (w as int % dv as int));
    assert(0 <= (w as int % dv as int) && (w as int % dv as int) < dv as int);
    lemma_fundamental_div_mod(r3 as int, d2 as int);
    vstd::arithmetic::div_mod::lemma_mod_division_less_than_divisor(r3 as int, d2 as int);
    assert(r3 as int == d2 * e + (r3 as int % d2 as int));
    assert(0 <= (r3 as int % d2 as int) && (r3 as int % d2 as int) < d2 as int);
    // The estimate is not below the true digit.
    assert(q <= e) by (nonlinear_arith)
        requires
            (w as int) >= dv * q,
            w == low + r3 * p,
            low < p,
            dv == low2 + d2 * p,
            (r3 as int) < d2 * e + d2,
            p >= 1,
            d2 > 0,
            q >= 0,
            e >= 0,
    ;
    // The estimate overshoots by at most one.
    assert(e <= q + 1) by (nonlinear_arith)
        requires
            (w as int) < dv * q + dv,
            w == low + r3 * p,
            dv == low2 + d2 * p,
            low2 < p,
            (r3 as int) >= d2 * e,
            p >= 1,
            d2 >= 10,
            q <= 9,
            e >= 0,
    ;
}

/// Trial quotient digit: the window's three leading digits over the scaled
/// divisor's two leading digits, capped at the largest digit.
fn trial(r: &Vec<u8>, d: &Vec<u8>, k: usize, m: usize) -> (qt: u8)
    requires
        m >= 2,
        k + m <= usize::MAX,
        digit_at(d@, m - 1) >= 1,
        digits_wf(r@),
        digits_wf(d@),
    ensures
        qt as nat == (if top3(r@, k as int, m as int) / top2(d@, m as int) < 9 {
            top3(r@, k as int, m as int) / top2(d@, m as int)
        } else {
            9nat
        }),
{
    let km = k + m;
    let a2 = lookup(r, km);
    let a1 = lookup(r, km - 1);
    let a0 = lookup(r, km - 2);
    let b1 = lookup(d, m - 1);
    let b0 = lookup(d, m - 2);
    assert(a2 < 10 && a1 < 10 && a0 < 10 && b1 < 10 && b0 < 10);
    let r3: u64 = (a2 as u64 * 10 + a1 as u64) * 10 + a0 as u64;
    let d2: u64 = b1 as u64 * 10 + b0 as u64;
    assert(r3 as nat == top3(r@, k as int, m as int));
    assert(d2 as nat == top2(d@, m as int));
    let e = r3 / d2;
    if e < 9 {
        e as u8
    } else {
        9
    }
}

/// Most-significant-first comparison of the remainder window `[k, k+m]`
/// against the candidate product, restricted to that window.
fn smaller(r: &Vec<u8>, dq: &Vec<u8>, k: usize, m: usize) -> (res: bool)
    requires
        digits_wf(r@),
        digits_wf(dq@),
        k + m <= usize::MAX,
    ensures
        res == (seq_val(window_part(r@, k as int, (m + 1) as nat)) < seq_val(
            pad(dq@, (m + 1) as nat),
        )),
{
    let ghost wa = window_part(r@, k as int, (m + 1) as nat);
    let ghost wb = pad(dq@, (m + 1) as nat);
    proof {
        assert(digits_wf(wa));
        assert(digits_wf(wb));
    }
    let mut i: usize = m;
    while i > 0 && lookup(r, k + i) == lookup(dq, i)
        invariant
            i <= m,
            k + m <= usize::MAX,
            digits_wf(r@),
            digits_wf(dq@),
            wa == window_part(r@, k as int, (m + 1) as nat),
            wb == pad(dq@, (m + 1) as nat),
            forall|j: int| i < j <= m ==> digit_at(r@, k + j) == digit_at(dq@, j),
        decreases i,
    {
        i -= 1;
    }
    let a = lookup(r, k + i);
    let b = lookup(dq, i);
    proof {
        assert(digit_at(wa, i as int) == digit_at(r@, k + i));
        assert(digit_at(wb, i as int) == digit_at(dq@, i as int));
        assert forall|j: int| i < j implies digit_at(wa, j) == digit_at(wb, j) by {
            if j <= m {
                assert(digit_at(wa, j) == digit_at(r@, k + j));
                assert(digit_at(wb, j) == digit_at(dq@, j));
            }
        }
        if a < b {
            crate::digits::lemma_digit_compare(wa, wb, i as int);
        } else if a > b {
            crate::digits::lemma_digit_compare(wb, wa, i as int);
        } else {
            assert(i == 0);
            assert forall|j: int| 0 <= j implies digit_at(wa, j) == digit_at(wb, j) by {
                if j == 0 {
                    assert(digit_at(wa, 0) == a && digit_at(wb, 0) == b);
                }
            }
            crate::digits::lemma_digit_eq(wa, wb);
        }
    }
    a < b
}

/// Digit-wise subtraction of the candidate product from the remainder window
/// at offset `k`, with borrow, growing the remainder buffer as needed.
fn difference(r: &mut Vec<u8>, dq: &Vec<u8>, k: usize, m: usize)
    requires
        digits_wf(old(r)@),
        digits_wf(dq@),
        m >= 1,
        k + m < usize::MAX,
        seq_val(pad(dq@, (m + 1) as nat)) <= seq_val(
            window_part(old(r)@, k as int, (m + 1) as nat),
        ),
    ensures
        digits_wf(final(r)@),
        final(r)@.len() as int == (if old(r)@.len() as int >= k + m + 1 {
            old(r)@.len() as int
        } else {
            k + m + 1
        }),
        forall|j: int| 0 <= j < k ==> digit_at(final(r)@, j) == digit_at(old(r)@, j),
        forall|j: int| k + m < j ==> digit_at(final(r)@, j) == digit_at(old(r)@, j),
        seq_val(window_part(final(r)@, k as int, (m + 1) as nat)) == seq_val(
            window_part(old(r)@, k as int, (m + 1) as nat),
        ) - seq_val(pad(dq@, (m + 1) as nat)),
{
    let mut borrow: u64 = 0;
    let mut i: usize = 0;
    proof {
        assert(window_part(r@, k as int, 0) =~= Seq::<u8>::empty());
        assert(window_part(old(r)@, k as int, 0) =~= Seq::<u8>::empty());
        assert(pad(dq@, 0) =~= Seq::<u8>::empty());
        assert(pow10(0) == 1) by {
            vstd::arithmetic::power::lemma_pow0(10);
        }
    }
    while i <= m
        invariant
            i <= m + 1,
            m >= 1,
            k + m < usize::MAX,
            borrow <= 1,
            digits_wf(r@),
            digits_wf(dq@),
            r@.len() as int == (if i == 0 {
                old(r)@.len() as int
            } else if old(r)@.len() as int >= k + i {
                old(r)@.len() as int
            } else {
                k + i
            }),
            forall|j: int| 0 <= j < k ==> digit_at(r@, j) == digit_at(old(r)@, j),
            forall|j: int| k + i <= j ==> digit_at(r@, j) == digit_at(old(r)@, j),
            seq_val(window_part(r@, k as int, i as nat)) as int == seq_val(
                window_part(old(r)@, k as int, i as nat),
            ) as int - seq_val(pad(dq@, i as nat)) as int + (borrow as int) * (pow10(
                i as nat,
            ) as int),
        decreases m + 1 - i,
    {
        let ghost rcur = r@;
        let ghost a_i = seq_val(window_part(rcur, k as int, i as nat));
        let ghost o_i = seq_val(window_part(old(r)@, k as int, i as nat));
        let ghost b_i = seq_val(pad(dq@, i as nat));
        let ghost b_in = borrow as int;
        let ghost p = pow10(i as nat) as int;
        let l = lookup(r, k + i);
        let rd = lookup(dq, i);
        assert(l < 10 && rd < 10);
        assert(l == digit_at(old(r)@, k + i));
        let diff: u64 = 10 + l as u64 - (rd as u64 + borrow);
        let dig = (diff % 10) as u8;
        put(r, k + i, dig);
        borrow = 1 - diff / 10;
        i += 1;
        proof {
            crate::digits::lemma_pow10_step((i - 1) as nat);
            assert(window_part(r@, k as int, i as nat) =~= window_part(
                rcur,
                k as int,
                (i - 1) as nat,
            ).push(dig));
            assert(window_part(old(r)@, k as int, i as nat) =~= window_part(
                old(r)@,
                k as int,
                (i - 1) as nat,
            ).push(digit_at(old(r)@, k + i - 1)));
            assert(pad(dq@, i as nat) =~= pad(dq@, (i - 1) as nat).push(
                digit_at(dq@, i - 1),
            ));
            crate::digits::lemma_seq_val_push(window_part(rcur, k as int, (i - 1) as nat), dig);
            crate::digits::lemma_seq_val_push(
                window_part(old(r)@, k as int, (i - 1) as nat),
                digit_at(old(r)@, k + i - 1),
            );
            crate::digits::lemma_seq_val_push(pad(dq@, (i - 1) as nat), rd);
            assert(diff <= 19);
            assert(dig as int - 10 * (borrow as int) == l as int - rd as int - b_in);
            let wnew_v = seq_val(window_part(r@, k as int, i as nat)) as int;
            let wold_v = seq_val(window_part(old(r)@, k as int, i as nat)) as int;
            let dq_v = seq_val(pad(dq@, i as nat)) as int;
            let pnext = pow10(i as nat) as int;
            assert(wnew_v == wold_v - dq_v + (borrow as int) * pnext) by (nonlinear_arith)
                requires
                    wnew_v == a_i + (dig as int) * p,
                    wold_v == o_i + (l as int) * p,
                    dq_v == b_i + (rd as int) * p,
                    pnext == 10 * p,
                    a_i == o_i - b_i + b_in * p,
                    dig as int - 10 * (borrow as int) == l as int - rd as int - b_in,
            ;
            assert forall|j: int| 0 <= j < r@.len() implies r@[j] < 10 by {
                assert(digit_at(r@, j) == r@[j]);
                if j != k + i - 1 {
                    assert(digit_at(r@, j) == digit_at(rcur, j));
                }
            }
        }
    }
    proof {
        let wnew = window_part(r@, k as int, (m + 1) as nat);
        let wold = window_part(old(r)@, k as int, (m + 1) as nat);
        let dqp = pad(dq@, (m + 1) as nat);
        assert(digits_wf(wnew));
        crate::digits::lemma_seq_val_bound(wnew);
        if borrow == 1 {
            crate::digits::lemma_pow10_pos((m + 1) as nat);
            assert(false);
        }
    }
}

/// Knuth's Algorithm D. Requires a divisor of trimmed length at least two and
/// a dividend at least as long (the dispatcher routes everything else away),
/// with a digit count below the machine's address limit.
pub fn long_division(lhs: &NonSmallInt, rhs: &NonSmallInt) -> (r: Option<
    (NonSmallInt, NonSmallInt),
>)
    requires
        lhs.wf(),
        rhs.wf(),
        trimmed_len(rhs@) >= 2,
        trimmed_len(lhs@) >= trimmed_len(rhs@),
        trimmed_len(lhs@) < usize::MAX,
    ensures
        r matches Some(p) && p.0.wf() && p.1.wf() && p.0.value() == lhs.value() / rhs.value()
            && p.1.value() == lhs.value() % rhs.value(),
{
    proof {
        crate::digits::lemma_trimmed_bounds(rhs@);
        crate::digits::lemma_pow10_pos((trimmed_len(rhs@) - 1) as nat);
    }
    if rhs.is_zero() {
        return None;
    }
    let n = lhs.length(10);
    let m = rhs.length(10);
    proof {
        crate::digits::lemma_trimmed_props(rhs@);
        crate::digits::lemma_trimmed_props(lhs@);
        crate::digits::lemma_trimmed_bounds(lhs@);
    }
    let lead = rhs.digits[m - 1];
    assert(lead >= 1 && lead < 10);
    let f: u8 = 10 / (lead + 1);
    let ghost big_x = lhs.value();
    let ghost big_d = rhs.value();
    proof {
        lemma_fundamental_div_mod(10, lead as int + 1);
        vstd::arithmetic::div_mod::lemma_mod_division_less_than_divisor(10, lead as int + 1);
        let md = 10int % (lead as int + 1);
        assert(10 == (lead as int + 1) * (f as int) + md);
        assert(f >= 1 && (lead as int + 1) * (f as int) <= 10) by (nonlinear_arith)
            requires
                10 == (lead as int + 1) * (f as int) + md,
                0 <= md,
                md < lead as int + 1,
                2 <= lead as int + 1 <= 10,
                f as int >= 0,
        ;
        // The divisor lies under (lead + 1) * 10^(m-1).
        crate::digits::lemma_trimmed_val(rhs@);
        let pre = rhs@.subrange(0, m as int);
        assert(digits_wf(pre));
        crate::digits::lemma_seq_val_split(pre, m as int - 1);
        let hi = pre.subrange(m as int - 1, m as int);
        assert(hi.len() == 1 && hi[0] == lead);
        assert(hi.subrange(1, 1) =~= Seq::<u8>::empty());
        assert(seq_val(hi.subrange(1, 1)) == 0);
        assert(seq_val(hi) == lead as nat + 10 * 0);
        assert(digits_wf(pre.subrange(0, m as int - 1)));
        crate::digits::lemma_seq_val_bound(pre.subrange(0, m as int - 1));
        crate::digits::lemma_pow10_step((m - 1) as nat);
        assert(big_d < (lead as nat + 1) * pow10((m - 1) as nat)) by (nonlinear_arith)
            requires
                big_d == seq_val(pre.subrange(0, m as int - 1)) + pow10((m - 1) as nat) * (
                lead as nat),
                seq_val(pre.subrange(0, m as int - 1)) < pow10((m - 1) as nat),
        ;
    }
    let mut r = lhs.mul_u32(f as u32);
    let d = rhs.mul_u32(f as u32);
    let ghost dv = d.value();
    proof {
        // Bounds on the scaled divisor.
        assert(dv == big_d * (f as nat));
        assert(dv < pow10(m as nat)) by (nonlinear_arith)
            requires
                dv == big_d * (f as nat),
                big_d < (lead as nat + 1) * pow10((m - 1) as nat),
                (lead as int + 1) * (f as int) <= 10,
                pow10(m as nat) == 10 * pow10((m - 1) as nat),
                f >= 1,
                lead >= 1,
        ;
        assert(dv >= big_d) by (nonlinear_arith)
            requires
                dv == big_d * (f as nat),
                f >= 1,
        ;
        assert(pow10((m - 1) as nat) <= dv);
        // The scaled divisor's leading digit is not zero.
        crate::digits::lemma_digit_extract(d@, (m - 1) as nat);
        crate::digits::lemma_pow10_step((m - 1) as nat);
        crate::digits::lemma_pow10_pos((m - 1) as nat);
        lemma_multiply_divide_lt(dv as int, pow10((m - 1) as nat) as int, 10);
        assert(dv as int / pow10((m - 1) as nat) as int >= 1) by {
            vstd::arithmetic::div_mod::lemma_div_is_ordered(
                pow10((m - 1) as nat) as int,
                dv as int,
                pow10((m - 1) as nat) as int,
            );
            vstd::arithmetic::div_mod::lemma_div_basics(pow10((m - 1) as nat) as int);
        }
        lemma_small_mod((dv / pow10((m - 1) as nat)) as nat, 10);
        assert(digit_at(d@, m as int - 1) >= 1);
        // The dividend starts below the scaled divisor's reach.
        crate::digits::lemma_pow10_adds((m - 1) as nat, (n - m + 1) as nat);
        assert(big_x * (f as nat) < dv * pow10((n - m + 1) as nat)) by (nonlinear_arith)
            requires
                big_x < pow10(n as nat),
                pow10(n as nat) == pow10((m - 1) as nat) * pow10((n - m + 1) as nat),
                pow10((m - 1) as nat) <= big_d,
                dv == big_d * (f as nat),
                f >= 1,
        ;
        assert(r.value() == big_x * (f as nat));
        // The scaled dividend's storage covers every window position.
        crate::digits::lemma_seq_val_bound(r@);
        assert(r.value() >= big_x) by (nonlinear_arith)
            requires
                r.value() == big_x * (f as nat),
                f >= 1,
        ;
        if r@.len() < n {
            crate::digits::lemma_pow10_mono(r@.len(), (n - 1) as nat);
            assert(false);
        }
    }
    let mut q: Vec<u8> = Vec::new();
    let mut kk = n - m + 1;
    proof {
        assert(pow10(0) == 1) by {
            vstd::arithmetic::power::lemma_pow0(10);
        }
    }
    while kk > 0
        invariant
            kk <= n - m + 1,
            m >= 2,
            n >= m,
            n < usize::MAX,
            r.wf(),
            d.wf(),
            digits_wf(q@),
            q@.len() == n - m + 1 - kk,
            d.value() == dv,
            dv < pow10(m as nat),
            pow10((m - 1) as nat) <= dv,
            digit_at(d@, m as int - 1) >= 1,
            r@.len() >= n,
            r.value() < dv * pow10(kk as nat),
            big_x * (f as nat) == dv * pow10(kk as nat) * seq_val(q@) + r.value(),
        decreases kk,
    {
        kk -= 1;
        let k = kk;
        let ghost rv0 = r.value();
        let ghost q0 = seq_val(q@);
        proof {
            // Everything above the window is zero.
            crate::digits::lemma_pow10_adds(m as nat, (k + 1) as nat);
            crate::digits::lemma_pow10_pos((k + 1) as nat);
            assert(dv * pow10((k + 1) as nat) <= pow10((k + m + 1) as nat)) by (nonlinear_arith)
                requires
                    dv < pow10(m as nat),
                    pow10((k + m + 1) as nat) == pow10(m as nat) * pow10((k + 1) as nat),
                    pow10((k + 1) as nat) >= 1,
            ;
            crate::digits::lemma_pow10_pos((k + 1) as nat);
            crate::digits::lemma_high_digits_zero(r@, (k + m + 1) as nat);
            lemma_window_val(r@, k as int, (m + 1) as nat);
        }
        let ghost w = seq_val(window_part(r@, k as int, (m + 1) as nat));
        let ghost low_k = seq_val(r@.subrange(0, k as int));
        let ghost qt_true = w / dv;
        proof {
            // The true quotient digit is a single digit.
            crate::digits::lemma_pow10_step(k as nat);
            assert(w * pow10(k as nat) <= rv0) by (nonlinear_arith)
                requires
                    rv0 == low_k + pow10(k as nat) * w,
                    low_k >= 0,
            ;
            assert(w < 10 * dv) by (nonlinear_arith)
                requires
                    w * pow10(k as nat) <= rv0,
                    rv0 < dv * (10 * pow10(k as nat)),
                    pow10(k as nat) >= 1,
            ;
            crate::digits::lemma_pow10_pos(k as nat);
            lemma_multiply_divide_lt(w as int, dv as int, 10);
            assert(10 * dv == dv * 10) by (nonlinear_arith);
            vstd::arithmetic::div_mod::lemma_div_basics_4(w as int, dv as int);
            assert(qt_true <= 9);
            // Decompose window and divisor for the trial-digit bounds.
            let wp = window_part(r@, k as int, (m + 1) as nat);
            assert(digits_wf(wp));
            crate::digits::lemma_seq_val_split(wp, m as int - 2);
            let hi3 = wp.subrange(m as int - 2, (m + 1) as int);
            assert(hi3.len() == 3);
            assert(hi3.subrange(1, 3).subrange(1, 2) =~= wp.subrange(m as int, (m + 1) as int));
            assert(hi3.subrange(1, 3)[0] == wp[m as int - 1]);
            assert(wp.subrange(m as int, (m + 1) as int).subrange(1, 1) =~= Seq::<u8>::empty());
            assert(seq_val(wp.subrange(m as int, (m + 1) as int).subrange(1, 1)) == 0);
            assert(wp.subrange(m as int, (m + 1) as int)[0] == wp[m as int]);
            assert(seq_val(wp.subrange(m as int, (m + 1) as int)) == wp[m as int] as nat + 10
                * 0);
            assert(hi3.subrange(1, 3).len() == 2);
            assert(seq_val(hi3.subrange(1, 3)) == wp[m as int - 1] as nat + 10 * (
            wp[m as int] as nat));
            assert(hi3[0] == wp[m as int - 2]);
            assert(seq_val(hi3) == wp[m as int - 2] as nat + 10 * seq_val(hi3.subrange(1, 3)));
            assert(seq_val(hi3) == top3(r@, k as int, m as int));
            assert(digits_wf(wp.subrange(0, m as int - 2)));
            crate::digits::lemma_seq_val_bound(wp.subrange(0, m as int - 2));
            // Divisor decomposition.
            crate::digits::lemma_high_digits_zero(d@, m as nat);
            crate::digits::lemma_pad_val_high_zero(d@, m as nat);
            let dp = pad(d@, m as nat);
            assert(digits_wf(dp));
            crate::digits::lemma_seq_val_split(dp, m as int - 2);
            let hi2 = dp.subrange(m as int - 2, m as int);
            assert(hi2.len() == 2);
            assert(hi2.subrange(1, 2).subrange(1, 1) =~= Seq::<u8>::empty());
            assert(seq_val(hi2.subrange(1, 2).subrange(1, 1)) == 0);
            assert(hi2.subrange(1, 2)[0] == dp[m as int - 1]);
            assert(seq_val(hi2.subrange(1, 2)) == dp[m as int - 1] as nat + 10 * 0);
            assert(hi2[0] == dp[m as int - 2]);
            assert(seq_val(hi2) == dp[m as int - 2] as nat + 10 * seq_val(hi2.subrange(1, 2)));
            assert(seq_val(hi2) == top2(d@, m as int));
            assert(digits_wf(dp.subrange(0, m as int - 2)));
            crate::digits::lemma_seq_val_bound(dp.subrange(0, m as int - 2));
            assert(top2(d@, m as int) >= 10);
            crate::digits::lemma_pow10_pos((m - 2) as nat);
            let p2 = pow10((m - 2) as nat);
            assert(p2 * seq_val(hi3) == seq_val(hi3) * p2) by (nonlinear_arith);
            assert(p2 * seq_val(hi2) == seq_val(hi2) * p2) by (nonlinear_arith);
            assert(w == seq_val(wp.subrange(0, m as int - 2)) + top3(r@, k as int, m as int)
                * p2);
            assert(dv == seq_val(dp.subrange(0, m as int - 2)) + top2(d@, m as int) * p2);
            lemma_trial_bounds(
                w,
                top3(r@, k as int, m as int),
                seq_val(wp.subrange(0, m as int - 2)),
                dv,
                top2(d@, m as int),
                seq_val(dp.subrange(0, m as int - 2)),
                p2,
                qt_true,
            );
        }
        let mut qt = trial(&r.digits, &d.digits, k, m);
        proof {
            assert(qt_true <= qt as nat && qt as nat <= qt_true + 1);
        }
        let mut dq = d.mul_u32(qt as u32);
        proof {
            lemma_fundamental_div_mod(w as int, dv as int);
            vstd::arithmetic::div_mod::lemma_mod_division_less_than_divisor(w as int, dv as int);
            assert(dv * qt_true <= w && w < dv * (qt_true + 1)) by (nonlinear_arith)
                requires
                    w as int == dv * qt_true + (w as int % dv as int),
                    0 <= (w as int % dv as int),
                    (w as int % dv as int) < dv as int,
            ;
            // The candidate product fits in the window's digit count.
            assert(dq.value() == dv * (qt as nat));
            crate::digits::lemma_pow10_step(m as nat);
            assert(dq.value() < pow10((m + 1) as nat)) by (nonlinear_arith)
                requires
                    dq.value() == dv * (qt as nat),
                    dv < pow10(m as nat),
                    qt <= 9,
                    pow10((m + 1) as nat) == 10 * pow10(m as nat),
            ;
            crate::digits::lemma_high_digits_zero(dq@, (m + 1) as nat);
            crate::digits::lemma_pad_val_high_zero(dq@, (m + 1) as nat);
        }
        if smaller(&r.digits, &dq.digits, k, m) {
            proof {
                assert(w < dv * (qt as nat));
                if qt as nat == qt_true {
                    assert(false);
                }
                assert(qt as nat == qt_true + 1);
                assert(qt >= 1);
            }
            qt = qt - 1;
            dq = d.mul_u32(qt as u32);
            proof {
                assert(dq.value() == dv * (qt as nat));
                crate::digits::lemma_pow10_step(m as nat);
                assert(dq.value() < pow10((m + 1) as nat)) by (nonlinear_arith)
                    requires
                        dq.value() == dv * (qt as nat),
                        dv < pow10(m as nat),
                        qt <= 9,
                        pow10((m + 1) as nat) == 10 * pow10(m as nat),
                ;
                crate::digits::lemma_high_digits_zero(dq@, (m + 1) as nat);
                crate::digits::lemma_pad_val_high_zero(dq@, (m + 1) as nat);
            }
        } else {
            proof {
                assert(w >= dv * (qt as nat));
                if qt as nat == qt_true + 1 {
                    assert(false);
                }
            }
        }
        proof {
            assert(qt as nat == qt_true);
            assert(seq_val(pad(dq@, (m + 1) as nat)) <= w);
        }
        let ghost q_pre = q@;
        q.insert(0, qt);
        let ghost r_pre = r@;
        difference(&mut r.digits, &dq.digits, k, m);
        proof {
            // Quotient value after prepending the new digit.
            assert(q@ == q_pre.insert(0, qt));
            assert(q@.subrange(1, q@.len() as int) =~= q_pre);
            assert(q@[0] == qt);
            assert(seq_val(q@) == qt as nat + 10 * q0);
            // Remainder value after the windowed subtraction.
            let w2 = seq_val(window_part(r@, k as int, (m + 1) as nat));
            assert(w2 == w - dv * (qt_true));
            assert forall|j: int| k + m + 1 <= j implies digit_at(r@, j) == 0 by {
                assert(digit_at(r@, j) == digit_at(r_pre, j));
            }
            lemma_window_val(r@, k as int, (m + 1) as nat);
            assert forall|j: int| 0 <= j < k implies r@[j] == r_pre[j] by {
                assert(digit_at(r@, j) == digit_at(r_pre, j));
            }
            assert(r@.subrange(0, k as int) =~= r_pre.subrange(0, k as int));
            assert(r.value() == low_k + pow10(k as nat) * w2);
            // New remainder bound.
            crate::digits::lemma_pow10_pos(k as nat);
            assert(low_k < pow10(k as nat)) by {
                assert(digits_wf(r_pre.subrange(0, k as int)));
                crate::digits::lemma_seq_val_bound(r_pre.subrange(0, k as int));
            }
            assert(w2 < dv) by (nonlinear_arith)
                requires
                    w2 == w - dv * qt_true,
                    dv * qt_true <= w,
                    (w as int) < dv * qt_true + dv,
            ;
            assert(r.value() < dv * pow10(k as nat)) by (nonlinear_arith)
                requires
                    r.value() == low_k + pow10(k as nat) * w2,
                    low_k < pow10(k as nat),
                    w2 < dv,
                    pow10(k as nat) >= 1,
            ;
            // Main equation.
            crate::digits::lemma_pow10_step(k as nat);
            assert(big_x * (f as nat) == dv * pow10(k as nat) * seq_val(q@) + r.value())
                by (nonlinear_arith)
                requires
                    big_x * (f as nat) == dv * (10 * pow10(k as nat)) * q0 + rv0,
                    rv0 == low_k + pow10(k as nat) * w,
                    r.value() == low_k + pow10(k as nat) * w2,
                    w2 == w - dv * qt_true,
                    seq_val(q@) == qt_true + 10 * q0,
            ;
        }
    }
    proof {
        assert(big_x * (f as nat) == dv * seq_val(q@) + r.value()) by (nonlinear_arith)
            requires
                big_x * (f as nat) == dv * pow10(0) * seq_val(q@) + r.value(),
                pow10(0) == 1,
        ;
        assert(r.value() < dv) by (nonlinear_arith)
            requires
                r.value() < dv * pow10(0),
                pow10(0) == 1,
        ;
    }
    let pair = match r.div_u32(f as u32) {
        Some(p) => p,
        None => {
            proof {
                assert(false);
            }
            return None;
        },
    };
    let rem = pair.0;
    let ghost big_q = seq_val(q@);
    proof {
        // The final scalar division is exact and undoes the normalization.
        let rv = r.value();
        assert(rv as int == (f as int) * (big_x - big_d * big_q)) by (nonlinear_arith)
            requires
                big_x * (f as nat) == dv * big_q + rv,
                dv == big_d * (f as nat),
        ;
        assert(big_x - big_d * big_q >= 0) by (nonlinear_arith)
            requires
                rv as int == (f as int) * (big_x - big_d * big_q),
                rv >= 0,
                f >= 1,
        ;
        lemma_fundamental_div_mod_converse(
            rv as int,
            f as int,
            big_x - big_d * big_q,
            0,
        );
        assert(rem.value() == big_x - big_d * big_q);
        assert(big_x - big_d * big_q < big_d) by (nonlinear_arith)
            requires
                rv as int == (f as int) * (big_x - big_d * big_q),
                rv < dv,
                dv == big_d * (f as nat),
                f >= 1,
                big_d >= 1,
        ;
        lemma_fundamental_div_mod_converse(
            big_x as int,
            big_d as int,
            big_q as int,
            big_x - big_d * big_q,
        );
    }
    Some((NonSmallInt { digits: q }, rem))
}

} // verus!
