//! Laws of the library, stated over the same spec functions that the
//! operations' contracts use: every operation agrees with native arithmetic
//! on constructed values.

use vstd::prelude::*;
use vstd::arithmetic::div_mod::lemma_fundamental_div_mod;
use vstd::arithmetic::div_mod::lemma_mod_division_less_than_divisor;
use crate::digits::dec_text;
use crate::digits::digits_wf;
use crate::digits::lemma_spec_of;
use crate::digits::nat_digits;
use crate::digits::seq_val;
use crate::digits::spec_of;
use crate::digits::trimmed_len;

verus! {

/// Round-trip construction: a value built from a native number denotes that
/// number, so rendering it yields exactly the number's decimal text.
pub proof fn lemma_round_trip(x: u64)
    ensures
        seq_val(spec_of(x as nat)) == x as nat,
        dec_text(seq_val(spec_of(x as nat))) == dec_text(x as nat),
{
    lemma_spec_of(x as nat);
}

/// Length correctness: the zero-trimmed digit count of a constructed value
/// is its decimal digit count, and zero for zero.
pub proof fn lemma_length_of(x: u64)
    ensures
        x == 0 ==> trimmed_len(spec_of(x as nat)) == 0,
        x > 0 ==> trimmed_len(spec_of(x as nat)) == nat_digits(x as nat).len(),
        x > 0 ==> trimmed_len(spec_of(x as nat)) == dec_text(x as nat).len(),
{
    lemma_spec_of(x as nat);
}

/// Ordering agreement: comparison of constructed values matches native
/// comparison, for each of `<`, `==` and `>`.
pub proof fn lemma_ordering_agreement(x: u64, y: u64)
    ensures
        (seq_val(spec_of(x as nat)) < seq_val(spec_of(y as nat))) == (x < y),
        (seq_val(spec_of(x as nat)) == seq_val(spec_of(y as nat))) == (x == y),
        (seq_val(spec_of(x as nat)) > seq_val(spec_of(y as nat))) == (x > y),
{
    lemma_spec_of(x as nat);
    lemma_spec_of(y as nat);
}

/// Additive agreement: the sum of two constructed values denotes the native
/// sum, wherever that sum fits the native word.
pub proof fn lemma_add_agreement(x: u64, y: u64)
    requires
        x + y <= u64::MAX,
    ensures
        seq_val(spec_of(x as nat)) + seq_val(spec_of(y as nat)) == seq_val(
            spec_of((x + y) as nat),
        ),
{
    lemma_spec_of(x as nat);
    lemma_spec_of(y as nat);
    lemma_spec_of((x + y) as nat);
}

/// Subtraction agreement and the underflow law: the checked difference exists
/// exactly when no underflow occurs, and then denotes the native difference.
pub proof fn lemma_sub_agreement(x: u64, y: u64)
    ensures
        (seq_val(spec_of(x as nat)) < seq_val(spec_of(y as nat))) == (x < y),
        x >= y ==> seq_val(spec_of(x as nat)) - seq_val(spec_of(y as nat)) == seq_val(
            spec_of((x - y) as nat),
        ),
{
    lemma_spec_of(x as nat);
    lemma_spec_of(y as nat);
    if x >= y {
        lemma_spec_of((x - y) as nat);
    }
}

/// Scalar multiply and divmod agreement: multiplying or dividing a
/// constructed value by a native scalar denotes the native result, and a zero
/// scalar divisor is exactly the native zero divisor.
pub proof fn lemma_scalar_agreement(x: u64, m: u32, d: u32)
    requires
        x * m <= u64::MAX,
    ensures
        seq_val(spec_of(x as nat)) * (m as nat) == seq_val(spec_of((x * m) as nat)),
        d != 0 ==> seq_val(spec_of(x as nat)) / (d as nat) == seq_val(
            spec_of((x / (d as u64)) as nat),
        ),
        d != 0 ==> seq_val(spec_of(x as nat)) % (d as nat) == seq_val(
            spec_of((x % (d as u64)) as nat),
        ),
{
    lemma_spec_of(x as nat);
    lemma_spec_of((x * m) as nat);
    if d != 0 {
        lemma_spec_of((x / (d as u64)) as nat);
        lemma_spec_of((x % (d as u64)) as nat);
    }
}

/// Full division agreement: quotient and remainder of two constructed values
/// denote the native quotient and remainder, and a zero divisor is exactly
/// the native zero divisor.
pub proof fn lemma_div_agreement(x: u64, y: u64)
    ensures
        (seq_val(spec_of(y as nat)) == 0) == (y == 0),
        y != 0 ==> seq_val(spec_of(x as nat)) / seq_val(spec_of(y as nat)) == seq_val(
            spec_of((x / y) as nat),
        ),
        y != 0 ==> seq_val(spec_of(x as nat)) % seq_val(spec_of(y as nat)) == seq_val(
            spec_of((x % y) as nat),
        ),
{
    lemma_spec_of(x as nat);
    lemma_spec_of(y as nat);
    if y != 0 {
        lemma_spec_of((x / y) as nat);
        lemma_spec_of((x % y) as nat);
    }
}

/// Division identity: whatever division returned, quotient times divisor plus
/// remainder reconstructs the dividend, and the remainder lies below the
/// divisor.
pub proof fn lemma_division_identity(q: Seq<u8>, rem: Seq<u8>, x: Seq<u8>, y: Seq<u8>)
    requires
        digits_wf(q),
        digits_wf(rem),
        digits_wf(x),
        digits_wf(y),
        seq_val(y) != 0,
        seq_val(q) == seq_val(x) / seq_val(y),
        seq_val(rem) == seq_val(x) % seq_val(y),
    ensures
        seq_val(q) * seq_val(y) + seq_val(rem) == seq_val(x),
        seq_val(rem) < seq_val(y),
{
    lemma_fundamental_div_mod(seq_val(x) as int, seq_val(y) as int);
    lemma_mod_division_less_than_divisor(seq_val(x) as int, seq_val(y) as int);
    assert(seq_val(q) * seq_val(y) == seq_val(y) * seq_val(q)) by (nonlinear_arith);
}

} // verus!
