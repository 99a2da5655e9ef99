//! The arbitrary-precision non-negative decimal integer type and its
//! linear arithmetic primitives.

use vstd::prelude::*;
use crate::digits::digit_at;
use crate::digits::digits_wf;
use crate::digits::lookup;
use crate::digits::nat_digits;
use crate::digits::pad;
use crate::digits::seq_val;
use crate::digits::spec_of;
use crate::digits::trimmed_len;

verus! {

/// Least-significant-digit-first multi-word decimal number.
pub struct NonSmallInt {
    pub digits: Vec<u8>,
}

impl View for NonSmallInt {
    type V = Seq<u8>;

    open spec fn view(&self) -> Seq<u8> {
        self.digits@
    }
}

impl NonSmallInt {
    /// Every stored element is a single decimal digit.
    pub open spec fn wf(&self) -> bool {
        digits_wf(self@)
    }

    /// The non-negative integer this digit buffer denotes.
    pub open spec fn value(&self) -> nat {
        seq_val(self@)
    }

    /// Renders `n` in decimal, least significant digit first. The checked
    /// interface is kept although a native unsigned integer always renders
    /// to plain digits.
    pub fn of(n: u64) -> (r: Option<NonSmallInt>)
        ensures
            r matches Some(x) && x@ == spec_of(n as nat) && x.wf() && x.value() == n,
    {
        let mut digits: Vec<u8> = Vec::new();
        if n == 0 {
            digits.push(0);
            proof {
                assert(digits@ =~= spec_of(0));
            }
        } else {
            let mut x = n;
            proof {
                assert(digits@ + nat_digits(n as nat) =~= nat_digits(n as nat));
            }
            while x > 0
                invariant
                    nat_digits(n as nat) == digits@ + nat_digits(x as nat),
                decreases x,
            {
                let ghost pre = digits@;
                let ghost x0 = x as nat;
                let d = (x % 10) as u8;
                digits.push(d);
                x = x / 10;
                proof {
                    assert(nat_digits(x0) == seq![d] + nat_digits(x0 / 10));
                    assert(x as nat == x0 / 10);
                    assert(pre + nat_digits(x0) =~= digits@ + nat_digits(x as nat));
                }
            }
            proof {
                assert(nat_digits(0) =~= Seq::<u8>::empty());
                assert(digits@ + nat_digits(0) =~= digits@);
                assert(digits@ == nat_digits(n as nat));
            }
        }
        proof {
            crate::digits::lemma_spec_of(n as nat);
        }
        Some(NonSmallInt { digits })
    }

    /// Zero-trimmed digit count. Only the working radix is supported.
    pub fn length(&self, radix: u64) -> (r: usize)
        requires
            radix == 10,
        ensures
            r == trimmed_len(self@),
    {
        proof {
            assert(self@.subrange(0, self@.len() as int) =~= self@);
        }
        let mut i: usize = self.digits.len();
        while i > 0
            invariant
                i <= self@.len(),
                trimmed_len(self@) == trimmed_len(self@.subrange(0, i as int)),
            decreases i,
        {
            let ghost pre = self@.subrange(0, i as int);
            if self.digits[i - 1] != 0 {
                proof {
                    assert(pre[pre.len() - 1] != 0);
                    assert(trimmed_len(pre) == i);
                }
                return i;
            }
            proof {
                assert(pre[pre.len() - 1] == 0);
                assert(pre.drop_last() =~= self@.subrange(0, i - 1));
            }
            i -= 1;
        }
        0
    }

    pub fn is_zero(&self) -> (r: bool)
        ensures
            r == (self.value() == 0),
    {
        proof {
            crate::digits::lemma_all_zero(self@);
        }
        let mut i: usize = 0;
        while i < self.digits.len()
            invariant
                i <= self@.len(),
                forall|j: int| 0 <= j < i ==> self@[j] == 0,
            decreases self@.len() - i,
        {
            if self.digits[i] != 0 {
                proof {
                    crate::digits::lemma_all_zero(self@);
                }
                return false;
            }
            i += 1;
        }
        true
    }

    /// Strict magnitude order.
    pub fn lt(&self, rhs: &NonSmallInt) -> (r: bool)
        requires
            self.wf(),
            rhs.wf(),
        ensures
            r == (self.value() < rhs.value()),
    {
        if self.length(10) < rhs.length(10) {
            proof {
                crate::digits::lemma_trimmed_lt(self@, rhs@);
            }
            return true;
        }
        let max_length = if self.digits.len() >= rhs.digits.len() {
            self.digits.len()
        } else {
            rhs.digits.len()
        };
        let mut i: usize = max_length;
        while i > 0
            invariant
                i <= max_length,
                forall|j: int| i <= j ==> digit_at(self@, j) == digit_at(rhs@, j),
                digits_wf(self@),
                digits_wf(rhs@),
            decreases i,
        {
            i -= 1;
            let a = lookup(&self.digits, i);
            let b = lookup(&rhs.digits, i);
            if a != b {
                proof {
                    if a < b {
                        crate::digits::lemma_digit_compare(self@, rhs@, i as int);
                    } else {
                        crate::digits::lemma_digit_compare(rhs@, self@, i as int);
                    }
                }
                return a < b;
            }
        }
        proof {
            crate::digits::lemma_digit_eq(self@, rhs@);
        }
        false
    }

    /// Value equality: the zero-trimmed views coincide.
    pub fn eq_nsi(&self, rhs: &NonSmallInt) -> (r: bool)
        requires
            self.wf(),
            rhs.wf(),
        ensures
            r == (self.value() == rhs.value()),
    {
        let max_length = if self.digits.len() >= rhs.digits.len() {
            self.digits.len()
        } else {
            rhs.digits.len()
        };
        let mut i: usize = 0;
        while i < max_length
            invariant
                i <= max_length,
                forall|j: int| 0 <= j < i ==> digit_at(self@, j) == digit_at(rhs@, j),
                digits_wf(self@),
                digits_wf(rhs@),
            decreases max_length - i,
        {
            let a = lookup(&self.digits, i);
            let b = lookup(&rhs.digits, i);
            if a != b {
                proof {
                    crate::digits::lemma_digit_extract(self@, i as nat);
                    crate::digits::lemma_digit_extract(rhs@, i as nat);
                }
                return false;
            }
            i += 1;
        }
        proof {
            assert forall|j: int| 0 <= j implies digit_at(self@, j) == digit_at(rhs@, j) by {
                if j >= max_length {
                    assert(digit_at(self@, j) == 0);
                    assert(digit_at(rhs@, j) == 0);
                }
            }
            crate::digits::lemma_digit_eq(self@, rhs@);
        }
        true
    }

    /// Digit-wise difference with borrow; reports underflow (`None`) when the
    /// true result would be negative.
    pub fn safe_sub(&self, rhs: &NonSmallInt) -> (r: Option<NonSmallInt>)
        requires
            self.wf(),
            rhs.wf(),
        ensures
            self.value() >= rhs.value() ==> (r matches Some(x) && x.wf() && x.value()
                == self.value() - rhs.value()),
            self.value() < rhs.value() ==> r is None,
    {
        let mut out: Vec<u8> = Vec::new();
        let mut borrow: u32 = 0;
        let max_length = if self.digits.len() >= rhs.digits.len() {
            self.digits.len()
        } else {
            rhs.digits.len()
        };
        let mut i: usize = 0;
        proof {
            assert(pad(self@, 0) =~= Seq::<u8>::empty());
            assert(pad(rhs@, 0) =~= Seq::<u8>::empty());
            assert(crate::digits::pow10(0) == 1) by {
                crate::digits::lemma_pow10_pos(0);
                vstd::arithmetic::power::lemma_pow0(10);
            }
        }
        while i < max_length
            invariant
                i <= max_length,
                max_length >= self@.len(),
                max_length >= rhs@.len(),
                digits_wf(self@),
                digits_wf(rhs@),
                digits_wf(out@),
                out@.len() == i,
                borrow <= 1,
                seq_val(out@) as int == seq_val(pad(self@, i as nat)) as int - seq_val(
                    pad(rhs@, i as nat),
                ) as int + (borrow as int) * (crate::digits::pow10(i as nat) as int),
            decreases max_length - i,
        {
            let ghost a_i = seq_val(pad(self@, i as nat));
            let ghost b_i = seq_val(pad(rhs@, i as nat));
            let ghost out0 = seq_val(out@);
            let ghost b_in = borrow as int;
            let ghost p = crate::digits::pow10(i as nat) as int;
            let ghost pre = out@;
            let l = lookup(&self.digits, i);
            let rr = lookup(&rhs.digits, i);
            assert(l < 10 && rr < 10);
            let diff: u32 = 10 + l as u32 - (rr as u32 + borrow);
            let dig = (diff % 10) as u8;
            out.push(dig);
            borrow = 1 - diff / 10;
            i += 1;
            proof {
                crate::digits::lemma_pow10_step((i - 1) as nat);
                assert(pad(self@, i as nat) =~= pad(self@, (i - 1) as nat).push(
                    digit_at(self@, i - 1),
                ));
                assert(pad(rhs@, i as nat) =~= pad(rhs@, (i - 1) as nat).push(
                    digit_at(rhs@, i - 1),
                ));
                crate::digits::lemma_seq_val_push(pad(self@, (i - 1) as nat), l);
                crate::digits::lemma_seq_val_push(pad(rhs@, (i - 1) as nat), rr);
                crate::digits::lemma_seq_val_push(pre, dig);
                assert(out@ == pre.push(dig));
                assert(diff <= 19);
                assert(dig as int - 10 * (borrow as int) == l as int - rr as int - b_in);
                assert(seq_val(out@) as int == seq_val(pad(self@, i as nat)) as int - seq_val(
                    pad(rhs@, i as nat),
                ) as int + (borrow as int) * (crate::digits::pow10(i as nat) as int))
                    by (nonlinear_arith)
                    requires
                        seq_val(out@) as int == out0 + (dig as int) * p,
                        seq_val(pad(self@, i as nat)) as int == a_i + (l as int) * p,
                        seq_val(pad(rhs@, i as nat)) as int == b_i + (rr as int) * p,
                        crate::digits::pow10(i as nat) as int == 10 * p,
                        out0 == a_i - b_i + b_in * p,
                        dig as int - 10 * (borrow as int) == l as int - rr as int - b_in,
                ;
            }
        }
        proof {
            crate::digits::lemma_pad_val(self@, max_length as nat);
            crate::digits::lemma_pad_val(rhs@, max_length as nat);
            crate::digits::lemma_seq_val_bound(out@);
            if borrow == 1 {
                crate::digits::lemma_pow10_pos(max_length as nat);
            }
        }
        if borrow == 0 {
            Some(NonSmallInt { digits: out })
        } else {
            None
        }
    }

    /// Digit-wise sum with carry; the shorter operand is zero-extended and a
    /// final carry appends one more digit.
    pub fn add_nsi(&self, rhs: &NonSmallInt) -> (r: NonSmallInt)
        requires
            self.wf(),
            rhs.wf(),
        ensures
            r.wf(),
            r.value() == self.value() + rhs.value(),
    {
        let la = self.length(10);
        let lb = rhs.length(10);
        let max_length = if la >= lb {
            la
        } else {
            lb
        };
        let mut out: Vec<u8> = Vec::new();
        let mut carry: u32 = 0;
        let mut i: usize = 0;
        proof {
            assert(pad(self@, 0) =~= Seq::<u8>::empty());
            assert(pad(rhs@, 0) =~= Seq::<u8>::empty());
            assert(crate::digits::pow10(0) == 1) by {
                vstd::arithmetic::power::lemma_pow0(10);
            }
            crate::digits::lemma_trimmed_props(self@);
            crate::digits::lemma_trimmed_props(rhs@);
        }
        while i < max_length
            invariant
                i <= max_length,
                digits_wf(self@),
                digits_wf(rhs@),
                digits_wf(out@),
                out@.len() == i,
                carry <= 1,
                seq_val(out@) + (carry as nat) * crate::digits::pow10(i as nat) == seq_val(
                    pad(self@, i as nat),
                ) + seq_val(pad(rhs@, i as nat)),
            decreases max_length - i,
        {
            let ghost a_i = seq_val(pad(self@, i as nat));
            let ghost b_i = seq_val(pad(rhs@, i as nat));
            let ghost out0 = seq_val(out@);
            let ghost c_in = carry as nat;
            let ghost p = crate::digits::pow10(i as nat);
            let ghost pre = out@;
            let l = lookup(&self.digits, i);
            let rr = lookup(&rhs.digits, i);
            assert(l < 10 && rr < 10);
            let temp: u32 = l as u32 + rr as u32 + carry;
            let dig = (temp % 10) as u8;
            out.push(dig);
            carry = temp / 10;
            i += 1;
            proof {
                crate::digits::lemma_pow10_step((i - 1) as nat);
                assert(pad(self@, i as nat) =~= pad(self@, (i - 1) as nat).push(
                    digit_at(self@, i - 1),
                ));
                assert(pad(rhs@, i as nat) =~= pad(rhs@, (i - 1) as nat).push(
                    digit_at(rhs@, i - 1),
                ));
                crate::digits::lemma_seq_val_push(pad(self@, (i - 1) as nat), l);
                crate::digits::lemma_seq_val_push(pad(rhs@, (i - 1) as nat), rr);
                crate::digits::lemma_seq_val_push(pre, dig);
                assert(out@ == pre.push(dig));
                assert(temp <= 19);
                assert(dig as nat + 10 * (carry as nat) == l as nat + rr as nat + c_in);
                assert(seq_val(out@) + (carry as nat) * crate::digits::pow10(i as nat) == seq_val(
                    pad(self@, i as nat),
                ) + seq_val(pad(rhs@, i as nat))) by (nonlinear_arith)
                    requires
                        seq_val(out@) == out0 + (dig as nat) * p,
                        seq_val(pad(self@, i as nat)) == a_i + (l as nat) * p,
                        seq_val(pad(rhs@, i as nat)) == b_i + (rr as nat) * p,
                        crate::digits::pow10(i as nat) == 10 * p,
                        out0 + c_in * p == a_i + b_i,
                        dig as nat + 10 * (carry as nat) == l as nat + rr as nat + c_in,
                ;
            }
        }
        proof {
            crate::digits::lemma_pad_trimmed(self@, max_length as nat);
            crate::digits::lemma_pad_trimmed(rhs@, max_length as nat);
        }
        if carry != 0 {
            let ghost pre = out@;
            let dig = (carry % 10) as u8;
            out.push(dig);
            proof {
                crate::digits::lemma_seq_val_push(pre, dig);
                assert(out@ == pre.push(dig));
            }
        }
        NonSmallInt { digits: out }
    }

    /// Digit-wise scalar product with carry; the trailing carry is flushed as
    /// additional digits.
    pub fn mul_u32(&self, rhs: u32) -> (r: NonSmallInt)
        requires
            self.wf(),
        ensures
            r.wf(),
            r.value() == self.value() * (rhs as nat),
    {
        let mut out: Vec<u8> = Vec::new();
        let mut carry: u64 = 0;
        let mut i: usize = 0;
        proof {
            assert(self@.subrange(0, 0) =~= Seq::<u8>::empty());
            assert(crate::digits::pow10(0) == 1) by {
                vstd::arithmetic::power::lemma_pow0(10);
            }
            assert(seq_val(Seq::<u8>::empty()) * (rhs as nat) == 0) by (nonlinear_arith);
        }
        while i < self.digits.len()
            invariant
                i <= self@.len(),
                digits_wf(self@),
                digits_wf(out@),
                out@.len() == i,
                carry <= rhs as u64,
                seq_val(out@) + (carry as nat) * crate::digits::pow10(i as nat) == seq_val(
                    self@.subrange(0, i as int),
                ) * (rhs as nat),
            decreases self@.len() - i,
        {
            let ghost a_i = seq_val(self@.subrange(0, i as int));
            let ghost out0 = seq_val(out@);
            let ghost c_in = carry as nat;
            let ghost p = crate::digits::pow10(i as nat);
            let d = self.digits[i];
            assert(d < 10);
            assert((rhs as u64) * (d as u64) <= (rhs as u64) * 9) by (nonlinear_arith)
                requires
                    d < 10,
            ;
            let temp: u64 = (rhs as u64) * (d as u64) + carry;
            assert(temp <= 10 * (rhs as u64)) by (nonlinear_arith)
                requires
                    temp == (rhs as u64) * (d as u64) + carry,
                    (rhs as u64) * (d as u64) <= (rhs as u64) * 9,
                    carry <= rhs as u64,
            ;
            let ghost pre = out@;
            let dig = (temp % 10) as u8;
            out.push(dig);
            carry = temp / 10;
            i += 1;
            proof {
                crate::digits::lemma_pow10_step((i - 1) as nat);
                assert(self@.subrange(0, i as int) =~= self@.subrange(0, i - 1).push(
                    self@[i - 1],
                ));
                crate::digits::lemma_seq_val_push(self@.subrange(0, i - 1), d);
                crate::digits::lemma_seq_val_push(pre, dig);
                assert(out@ == pre.push(dig));
                assert(dig as nat + 10 * (carry as nat) == (rhs as nat) * (d as nat) + c_in);
                assert(seq_val(out@) + (carry as nat) * crate::digits::pow10(i as nat) == seq_val(
                    self@.subrange(0, i as int),
                ) * (rhs as nat)) by (nonlinear_arith)
                    requires
                        seq_val(out@) == out0 + (dig as nat) * p,
                        seq_val(self@.subrange(0, i as int)) == a_i + (d as nat) * p,
                        crate::digits::pow10(i as nat) == 10 * p,
                        out0 + c_in * p == a_i * (rhs as nat),
                        dig as nat + 10 * (carry as nat) == (rhs as nat) * (d as nat) + c_in,
                ;
            }
        }
        proof {
            assert(self@.subrange(0, self@.len() as int) =~= self@);
        }
        while carry != 0
            invariant
                digits_wf(out@),
                seq_val(out@) + (carry as nat) * crate::digits::pow10(out@.len()) == seq_val(
                    self@,
                ) * (rhs as nat),
            decreases carry,
        {
            let ghost pre = out@;
            let ghost out0 = seq_val(out@);
            let ghost c_in = carry as nat;
            let ghost p = crate::digits::pow10(out@.len());
            let dig = (carry % 10) as u8;
            out.push(dig);
            carry = carry / 10;
            proof {
                crate::digits::lemma_pow10_step(pre.len());
                crate::digits::lemma_seq_val_push(pre, dig);
                assert(out@ == pre.push(dig));
                assert(dig as nat + 10 * (carry as nat) == c_in);
                assert(carry < c_in);
                assert(seq_val(out@) + (carry as nat) * crate::digits::pow10(out@.len())
                    == seq_val(self@) * (rhs as nat)) by (nonlinear_arith)
                    requires
                        seq_val(out@) == out0 + (dig as nat) * p,
                        crate::digits::pow10(out@.len()) == 10 * p,
                        out0 + c_in * p == seq_val(self@) * (rhs as nat),
                        dig as nat + 10 * (carry as nat) == c_in,
                ;
            }
        }
        proof {
            assert((0nat) * crate::digits::pow10(out@.len()) == 0) by (nonlinear_arith);
        }
        NonSmallInt { digits: out }
    }

    /// Scalar division: one most-significant-first pass with a running
    /// remainder. Returns `(quotient, remainder)`, or `None` on a zero
    /// divisor.
    pub fn div_u32(&self, rhs: u32) -> (r: Option<(NonSmallInt, NonSmallInt)>)
        requires
            self.wf(),
        ensures
            rhs == 0 ==> r is None,
            rhs != 0 ==> (r matches Some(p) && p.0.wf() && p.1.wf() && p.0.value()
                == self.value() / (rhs as nat) && p.1.value() == self.value() % (rhs as nat)),
    {
        if rhs == 0 {
            return None;
        }
        let mut quotient: Vec<u8> = Vec::new();
        let mut carry: u64 = 0;
        let mut j: usize = self.digits.len();
        proof {
            assert(self@.subrange(self@.len() as int, self@.len() as int)
                =~= Seq::<u8>::empty());
            vstd::arithmetic::div_mod::lemma_div_basics(rhs as int);
            vstd::arithmetic::div_mod::lemma_small_mod(0, rhs as nat);
            assert(0nat / (rhs as nat) == 0);
        }
        while j > 0
            invariant
                j <= self@.len(),
                digits_wf(self@),
                digits_wf(quotient@),
                rhs != 0,
                quotient@.len() == self@.len() - j,
                carry < rhs as u64,
                seq_val(quotient@) == seq_val(self@.subrange(j as int, self@.len() as int)) / (
                rhs as nat),
                carry as nat == seq_val(self@.subrange(j as int, self@.len() as int)) % (
                rhs as nat),
            decreases j,
        {
            j -= 1;
            let ghost hi = self@.subrange(j + 1, self@.len() as int);
            let ghost v_hi = seq_val(hi) as int;
            let ghost q0 = seq_val(quotient@) as int;
            let ghost c_in = carry as int;
            let d = self.digits[j];
            assert(d < 10);
            let temp: u64 = carry * 10 + d as u64;
            let outq: u64 = temp / (rhs as u64);
            proof {
                assert(temp < 10 * (rhs as u64));
                vstd::arithmetic::div_mod::lemma_multiply_divide_lt(
                    temp as int,
                    rhs as int,
                    10,
                );
                assert((rhs as int) * 10 == 10 * (rhs as int)) by (nonlinear_arith);
                vstd::arithmetic::div_mod::lemma_div_basics_4(temp as int, rhs as int);
                assert(outq < 10);
            }
            let out = outq as u8;
            carry = temp % (rhs as u64);
            let ghost q_pre = quotient@;
            quotient.insert(0, out);
            proof {
                let lo = self@.subrange(j as int, self@.len() as int);
                assert(lo.subrange(1, lo.len() as int) =~= hi);
                assert(lo[0] == self@[j as int]);
                let v_lo = seq_val(lo) as int;
                assert(v_lo == d as int + 10 * v_hi);
                assert(quotient@ == q_pre.insert(0, out));
                assert(quotient@.subrange(1, quotient@.len() as int) =~= q_pre);
                assert(quotient@[0] == out);
                assert(seq_val(quotient@) as int == out as int + 10 * q0);
                vstd::arithmetic::div_mod::lemma_fundamental_div_mod(v_hi, rhs as int);
                vstd::arithmetic::div_mod::lemma_fundamental_div_mod(temp as int, rhs as int);
                assert(v_hi == (rhs as int) * q0 + c_in);
                assert(temp as int == c_in * 10 + d as int);
                assert(temp as int == (rhs as int) * (out as int) + (carry as int));
                assert(v_lo == (out as int + 10 * q0) * (rhs as int) + (carry as int))
                    by (nonlinear_arith)
                    requires
                        v_lo == d as int + 10 * v_hi,
                        v_hi == (rhs as int) * q0 + c_in,
                        temp as int == c_in * 10 + d as int,
                        temp as int == (rhs as int) * (out as int) + (carry as int),
                ;
                vstd::arithmetic::div_mod::lemma_fundamental_div_mod_converse(
                    v_lo,
                    rhs as int,
                    out as int + 10 * q0,
                    carry as int,
                );
            }
        }
        let mut remainder: Vec<u8> = Vec::new();
        let ghost c0 = carry as nat;
        proof {
            assert(crate::digits::pow10(0) == 1) by {
                vstd::arithmetic::power::lemma_pow0(10);
            }
        }
        while carry > 0
            invariant
                digits_wf(remainder@),
                seq_val(remainder@) + (carry as nat) * crate::digits::pow10(remainder@.len())
                    == c0,
            decreases carry,
        {
            let ghost pre = remainder@;
            let ghost out0 = seq_val(remainder@);
            let ghost c_in = carry as nat;
            let ghost p = crate::digits::pow10(remainder@.len());
            let dig = (carry % 10) as u8;
            remainder.push(dig);
            carry = carry / 10;
            proof {
                crate::digits::lemma_pow10_step(pre.len());
                crate::digits::lemma_seq_val_push(pre, dig);
                assert(remainder@ == pre.push(dig));
                assert(dig as nat + 10 * (carry as nat) == c_in);
                assert(seq_val(remainder@) + (carry as nat) * crate::digits::pow10(
                    remainder@.len(),
                ) == c0) by (nonlinear_arith)
                    requires
                        seq_val(remainder@) == out0 + (dig as nat) * p,
                        crate::digits::pow10(remainder@.len()) == 10 * p,
                        out0 + c_in * p == c0,
                        dig as nat + 10 * (carry as nat) == c_in,
                ;
            }
        }
        proof {
            assert((0nat) * crate::digits::pow10(remainder@.len()) == 0) by (nonlinear_arith);
            assert(self@.subrange(0, self@.len() as int) =~= self@);
        }
        Some((NonSmallInt { digits: quotient }, NonSmallInt { digits: remainder }))
    }

    /// Full division dispatcher: rejects a zero divisor, routes a one-digit
    /// divisor to scalar division and a short dividend to the trivial result,
    /// and hands the rest to the long-division engine. The dividend's storage
    /// must leave one digit position free below the machine's address limit.
    pub fn div_nsi(&self, rhs: &NonSmallInt) -> (r: Option<(NonSmallInt, NonSmallInt)>)
        requires
            self.wf(),
            rhs.wf(),
            self@.len() < usize::MAX,
        ensures
            rhs.value() == 0 ==> r is None,
            rhs.value() != 0 ==> (r matches Some(p) && p.0.wf() && p.1.wf() && p.0.value()
                == self.value() / rhs.value() && p.1.value() == self.value() % rhs.value()),
    {
        if rhs.is_zero() {
            None
        } else if rhs.length(10) == 1 {
            proof {
                crate::digits::lemma_trimmed_props(rhs@);
                crate::digits::lemma_trimmed_val(rhs@);
                let pre = rhs@.subrange(0, 1);
                assert(pre.subrange(1, 1) =~= Seq::<u8>::empty());
                assert(seq_val(pre.subrange(1, 1)) == 0);
                assert(rhs.value() == rhs@[0] as nat + 10 * 0);
            }
            self.div_u32(rhs.digits[0] as u32)
        } else if self.length(10) < rhs.length(10) {
            proof {
                crate::digits::lemma_trimmed_lt(self@, rhs@);
                vstd::arithmetic::div_mod::lemma_basic_div(
                    self.value() as int,
                    rhs.value() as int,
                );
                vstd::arithmetic::div_mod::lemma_small_mod(self.value(), rhs.value());
            }
            let quotient = NonSmallInt { digits: Vec::new() };
            let remainder = NonSmallInt { digits: clone_digits(&self.digits) };
            Some((quotient, remainder))
        } else {
            proof {
                crate::digits::lemma_trimmed_props(self@);
                crate::digits::lemma_trimmed_zero(rhs@);
            }
            crate::division::long_division(self, rhs)
        }
    }

    /// Minimal decimal text of the value, as ASCII bytes; `"0"` for zero.
    pub fn to_decimal(&self) -> (r: Vec<u8>)
        requires
            self.wf(),
        ensures
            r@ == crate::digits::dec_text(self.value()),
    {
        let tl = self.length(10);
        let mut out: Vec<u8> = Vec::new();
        proof {
            crate::digits::lemma_trimmed_zero(self@);
            crate::digits::lemma_trimmed_props(self@);
            crate::digits::lemma_val_digits(self@);
        }
        if tl == 0 {
            out.push(48);
            proof {
                assert(out@ =~= crate::digits::dec_text(0));
            }
            return out;
        }
        let mut j: usize = 0;
        while j < tl
            invariant
                j <= tl,
                tl == trimmed_len(self@),
                tl <= self@.len(),
                digits_wf(self@),
                out@.len() == j,
                forall|t: int| 0 <= t < j ==> out@[t] == (self@[tl - 1 - t] + 48) as u8,
            decreases tl - j,
        {
            let d = self.digits[tl - 1 - j];
            assert(d < 10);
            out.push(d + 48);
            j += 1;
        }
        proof {
            let n = self.value();
            assert(n != 0);
            assert forall|t: int| 0 <= t < tl implies out@[t] == crate::digits::dec_text(n)[t] by {
                assert(nat_digits(n)[tl - 1 - t] == self@[tl - 1 - t]);
            }
            assert(out@ =~= crate::digits::dec_text(n));
        }
        out
    }

    /// Dual-ended digit cursor over `length` positions; reads zero beyond
    /// storage.
    pub fn iter_digits(&self, length: usize) -> (r: Digits)
        requires
            length as int <= isize::MAX as int,
        ensures
            r.nsi == self,
            r.next_ix == 0,
            r.next_back_ix as int == length as int - 1,
    {
        Digits { nsi: self, next_ix: 0, next_back_ix: length as isize - 1 }
    }
}

/// Copies a digit buffer element for element.
fn clone_digits(v: &Vec<u8>) -> (r: Vec<u8>)
    ensures
        r@ == v@,
{
    let mut out: Vec<u8> = Vec::new();
    let mut i: usize = 0;
    while i < v.len()
        invariant
            i <= v@.len(),
            out@ == v@.subrange(0, i as int),
        decreases v@.len() - i,
    {
        let ghost pre = out@;
        out.push(v[i]);
        i += 1;
        proof {
            assert(out@ =~= v@.subrange(0, i as int));
        }
    }
    proof {
        assert(v@.subrange(0, v@.len() as int) =~= v@);
    }
    out
}

/// Cursor state for the dual-ended digit traversal: the front index advances,
/// the back index retreats, and they exhaust when they cross.
pub struct Digits<'a> {
    pub nsi: &'a NonSmallInt,
    pub next_ix: usize,
    pub next_back_ix: isize,
}

impl<'a> Digits<'a> {
    /// The next digit from the least significant end, or `None` once the
    /// cursors have crossed.
    pub fn next(&mut self) -> (r: Option<u8>)
        ensures
            old(self).next_ix as int <= old(self).next_back_ix as int ==> (r == Some(
                digit_at(old(self).nsi@, old(self).next_ix as int),
            ) && final(self).next_ix == old(self).next_ix + 1 && final(self).next_back_ix == old(
                self,
            ).next_back_ix && final(self).nsi == old(self).nsi),
            old(self).next_ix as int > old(self).next_back_ix as int ==> (r is None && *final(self)
                == *old(self)),
    {
        if self.next_back_ix >= 0 && self.next_ix <= self.next_back_ix as usize {
            let out = lookup(&self.nsi.digits, self.next_ix);
            self.next_ix += 1;
            Some(out)
        } else {
            None
        }
    }

    /// The next digit from the most significant end, or `None` once the
    /// cursors have crossed.
    pub fn next_back(&mut self) -> (r: Option<u8>)
        ensures
            old(self).next_back_ix as int >= old(self).next_ix as int ==> (r == Some(
                digit_at(old(self).nsi@, old(self).next_back_ix as int),
            ) && final(self).next_back_ix == old(self).next_back_ix - 1 && final(self).next_ix
                == old(self).next_ix && final(self).nsi == old(self).nsi),
            (old(self).next_back_ix as int) < old(self).next_ix as int ==> (r is None
                && *final(self) == *old(self)),
    {
        if self.next_back_ix >= 0 && self.next_back_ix as usize >= self.next_ix {
            let out = lookup(&self.nsi.digits, self.next_back_ix as usize);
            self.next_back_ix -= 1;
            Some(out)
        } else {
            None
        }
    }
}

} // verus!
