//! The mathematical model of a decimal digit sequence: the value a
//! least-significant-first buffer denotes, its zero-trimmed length, and the
//! lemmas that relate them.

use vstd::prelude::*;
use vstd::arithmetic::power::*;
use vstd::arithmetic::div_mod::*;
use vstd::arithmetic::mul::*;

verus! {

/// Every stored element is a single decimal digit.
pub open spec fn digits_wf(s: Seq<u8>) -> bool {
    forall|i: int| 0 <= i < s.len() ==> s[i] < 10
}

/// Value denoted by a least-significant-first digit sequence.
pub open spec fn seq_val(s: Seq<u8>) -> nat
    decreases s.len(),
{
    if s.len() == 0 {
        0
    } else {
        s[0] as nat + 10 * seq_val(s.subrange(1, s.len() as int))
    }
}

/// Digit at a position, zero when the position lies beyond storage.
pub open spec fn digit_at(s: Seq<u8>, i: int) -> u8 {
    if 0 <= i < s.len() {
        s[i]
    } else {
        0
    }
}

/// The first `l` digit positions, zero-extended past storage.
pub open spec fn pad(s: Seq<u8>, l: nat) -> Seq<u8> {
    Seq::new(l, |i: int| digit_at(s, i))
}

/// Digit count with high-order zeros discarded.
pub open spec fn trimmed_len(s: Seq<u8>) -> nat
    decreases s.len(),
{
    if s.len() == 0 {
        0
    } else if s[s.len() - 1] == 0 {
        trimmed_len(s.drop_last())
    } else {
        s.len()
    }
}

pub open spec fn pow10(e: nat) -> nat {
    pow(10, e) as nat
}

pub proof fn lemma_pow10_pos(e: nat)
    ensures
        pow10(e) >= 1,
{
    lemma_pow_positive(10, e);
}

pub proof fn lemma_pow10_step(e: nat)
    ensures
        pow10(e + 1) == 10 * pow10(e),
{
    reveal(pow);
    lemma_pow_positive(10, e);
}

pub proof fn lemma_pow10_mono(a: nat, b: nat)
    requires
        a <= b,
    ensures
        pow10(a) <= pow10(b),
{
    lemma_pow_increases(10, a, b);
    lemma_pow_positive(10, a);
    lemma_pow_positive(10, b);
}

pub proof fn lemma_pow10_adds(a: nat, b: nat)
    ensures
        pow10(a + b) == pow10(a) * pow10(b),
{
    lemma_pow_adds(10, a, b);
    lemma_pow_positive(10, a);
    lemma_pow_positive(10, b);
}

/// Appending a digit at the most significant end adds its weighted value.
pub proof fn lemma_seq_val_push(s: Seq<u8>, d: u8)
    ensures
        seq_val(s.push(d)) == seq_val(s) + (d as nat) * pow10(s.len()),
    decreases s.len(),
{
    if s.len() == 0 {
        assert(s.push(d).len() == 1);
        assert(s.push(d)[0] == d);
        assert(s.push(d).subrange(1, 1) =~= Seq::<u8>::empty());
        assert(seq_val(s.push(d).subrange(1, 1)) == 0);
        assert(seq_val(s.push(d)) == d as nat + 10 * 0);
        assert(pow10(0) == 1) by {
            reveal(pow);
        }
        assert(seq_val(s) + (d as nat) * pow10(s.len()) == (d as nat) * 1);
        assert((d as nat) * 1 == d as nat) by (nonlinear_arith);
    } else {
        let t = s.subrange(1, s.len() as int);
        assert(s.push(d).subrange(1, s.push(d).len() as int) =~= t.push(d));
        lemma_seq_val_push(t, d);
        lemma_pow10_step(t.len());
        let p = pow10(t.len());
        let v = seq_val(t);
        let dn = d as nat;
        assert(seq_val(s.push(d)) == s[0] as nat + 10 * seq_val(t.push(d)));
        assert(seq_val(t.push(d)) == v + dn * p);
        assert(pow10(s.len()) == 10 * p);
        assert(seq_val(s) == s[0] as nat + 10 * v);
        assert(seq_val(s.push(d)) == seq_val(s) + dn * pow10(s.len())) by (nonlinear_arith)
            requires
                seq_val(s.push(d)) == s[0] as nat + 10 * (v + dn * p),
                seq_val(s) == s[0] as nat + 10 * v,
                pow10(s.len()) == 10 * p,
        ;
    }
}

/// A well-formed sequence denotes a value below the power of its length.
pub proof fn lemma_seq_val_bound(s: Seq<u8>)
    requires
        digits_wf(s),
    ensures
        seq_val(s) < pow10(s.len()),
    decreases s.len(),
{
    if s.len() == 0 {
        assert(pow10(0) == 1) by {
            reveal(pow);
        }
    } else {
        let t = s.subrange(1, s.len() as int);
        lemma_seq_val_bound(t);
        lemma_pow10_step(t.len());
        assert(seq_val(t) + 1 <= pow10(t.len()));
        assert(10 * seq_val(t) + 10 <= 10 * pow10(t.len())) by (nonlinear_arith)
            requires
                seq_val(t) + 1 <= pow10(t.len()),
        ;
    }
}

/// The value splits at any position into a low part and a weighted high part.
pub proof fn lemma_seq_val_split(s: Seq<u8>, i: int)
    requires
        0 <= i <= s.len(),
    ensures
        seq_val(s) == seq_val(s.subrange(0, i)) + pow10(i as nat) * seq_val(
            s.subrange(i, s.len() as int),
        ),
    decreases i,
{
    if i == 0 {
        assert(s.subrange(0, 0) =~= Seq::<u8>::empty());
        assert(s.subrange(0, s.len() as int) =~= s);
        assert(pow10(0) == 1) by {
            reveal(pow);
        }
        assert(seq_val(s.subrange(0, 0)) == 0);
        assert(pow10(0) * seq_val(s.subrange(0, s.len() as int)) == seq_val(s))
            by (nonlinear_arith)
            requires
                pow10(0) == 1,
                s.subrange(0, s.len() as int) =~= s,
        ;
    } else {
        lemma_seq_val_split(s, i - 1);
        let lo1 = s.subrange(0, i - 1);
        let lo2 = s.subrange(0, i);
        let hi1 = s.subrange(i - 1, s.len() as int);
        let hi2 = s.subrange(i, s.len() as int);
        assert(lo2 =~= lo1.push(s[i - 1]));
        lemma_seq_val_push(lo1, s[i - 1]);
        assert(hi1.subrange(1, hi1.len() as int) =~= hi2);
        assert(seq_val(hi1) == s[i - 1] as nat + 10 * seq_val(hi2));
        lemma_pow10_step((i - 1) as nat);
        let p = pow10((i - 1) as nat);
        let d = s[i - 1] as nat;
        let h = seq_val(hi2);
        assert(seq_val(s) == seq_val(lo1) + p * (d + 10 * h));
        assert(seq_val(lo2) == seq_val(lo1) + d * p);
        assert(pow10(i as nat) == 10 * p);
        assert(seq_val(s) == seq_val(lo2) + pow10(i as nat) * h) by (nonlinear_arith)
            requires
                seq_val(s) == seq_val(lo1) + p * (d + 10 * h),
                seq_val(lo2) == seq_val(lo1) + d * p,
                pow10(i as nat) == 10 * p,
        ;
    }
}

/// A value of zero means every stored digit is zero, and conversely.
pub proof fn lemma_all_zero(s: Seq<u8>)
    ensures
        (seq_val(s) == 0) <==> (forall|i: int| 0 <= i < s.len() ==> s[i] == 0),
    decreases s.len(),
{
    if s.len() > 0 {
        let t = s.subrange(1, s.len() as int);
        lemma_all_zero(t);
        if seq_val(s) == 0 {
            assert(forall|i: int| 0 <= i < t.len() ==> t[i] == 0);
            assert forall|i: int| 0 <= i < s.len() implies s[i] == 0 by {
                if i > 0 {
                    assert(t[i - 1] == s[i]);
                }
            }
        } else {
            if forall|i: int| 0 <= i < s.len() ==> s[i] == 0 {
                assert forall|i: int| 0 <= i < t.len() implies t[i] == 0 by {
                    assert(s[i + 1] == 0);
                }
                assert(seq_val(t) == 0);
                assert(s[0] == 0);
            }
        }
    }
}

/// Padding to at least the storage length keeps both digits and value.
pub proof fn lemma_pad_val(s: Seq<u8>, l: nat)
    requires
        l >= s.len(),
    ensures
        seq_val(pad(s, l)) == seq_val(s),
    decreases l,
{
    if l == s.len() {
        assert(pad(s, l) =~= s);
    } else {
        lemma_pad_val(s, (l - 1) as nat);
        assert(pad(s, l) =~= pad(s, (l - 1) as nat).push(0));
        lemma_seq_val_push(pad(s, (l - 1) as nat), 0);
    }
}

/// When every digit at or beyond `l` is zero, the first `l` positions carry
/// the whole value.
pub proof fn lemma_pad_val_high_zero(s: Seq<u8>, l: nat)
    requires
        forall|i: int| l <= i ==> digit_at(s, i) == 0,
    ensures
        seq_val(pad(s, l)) == seq_val(s),
{
    if l >= s.len() {
        lemma_pad_val(s, l);
    } else {
        lemma_seq_val_split(s, l as int);
        assert(pad(s, l) =~= s.subrange(0, l as int));
        let hi = s.subrange(l as int, s.len() as int);
        assert forall|i: int| 0 <= i < hi.len() implies hi[i] == 0 by {
            assert(digit_at(s, l + i) == 0);
        }
        lemma_all_zero(hi);
        assert(seq_val(hi) == 0);
        assert(pow10(l) * 0 == 0) by (nonlinear_arith);
    }
}

/// A value below `pow10(l)` leaves every digit at or beyond position `l` zero.
pub proof fn lemma_high_digits_zero(s: Seq<u8>, l: nat)
    requires
        seq_val(s) < pow10(l),
    ensures
        forall|i: int| l <= i ==> digit_at(s, i) == 0,
{
    if l < s.len() {
        lemma_seq_val_split(s, l as int);
        let hi = s.subrange(l as int, s.len() as int);
        lemma_pow10_pos(l);
        assert(seq_val(hi) == 0) by (nonlinear_arith)
            requires
                seq_val(s) == seq_val(s.subrange(0, l as int)) + pow10(l) * seq_val(hi),
                seq_val(s) < pow10(l),
                pow10(l) >= 1,
        ;
        lemma_all_zero(hi);
        assert forall|i: int| l <= i implies digit_at(s, i) == 0 by {
            if i < s.len() {
                assert(hi[i - l] == s[i]);
            }
        }
    }
}

/// The zero-trimmed prefix: what lies beyond it is zero, and its own last
/// digit is not.
pub proof fn lemma_trimmed_props(s: Seq<u8>)
    ensures
        trimmed_len(s) <= s.len(),
        forall|i: int| trimmed_len(s) <= i < s.len() ==> s[i] == 0,
        trimmed_len(s) > 0 ==> s[trimmed_len(s) - 1] != 0,
    decreases s.len(),
{
    if s.len() > 0 && s[s.len() - 1] == 0 {
        lemma_trimmed_props(s.drop_last());
        assert forall|i: int| trimmed_len(s) <= i < s.len() implies s[i] == 0 by {
            if i < s.len() - 1 {
                assert(s.drop_last()[i] == s[i]);
            }
        }
    }
}

/// The value lives entirely in the zero-trimmed prefix.
pub proof fn lemma_trimmed_val(s: Seq<u8>)
    ensures
        seq_val(s) == seq_val(s.subrange(0, trimmed_len(s) as int)),
{
    lemma_trimmed_props(s);
    assert forall|i: int| trimmed_len(s) <= i implies digit_at(s, i) == 0 by {
        if i < s.len() {
            assert(s[i] == 0);
        }
    }
    lemma_pad_val_high_zero(s, trimmed_len(s));
    assert(pad(s, trimmed_len(s)) =~= s.subrange(0, trimmed_len(s) as int));
}

/// The value is squeezed between the two powers that the trimmed length names.
pub proof fn lemma_trimmed_bounds(s: Seq<u8>)
    requires
        digits_wf(s),
    ensures
        seq_val(s) < pow10(trimmed_len(s)),
        trimmed_len(s) > 0 ==> seq_val(s) >= pow10((trimmed_len(s) - 1) as nat),
{
    let tl = trimmed_len(s);
    lemma_trimmed_props(s);
    lemma_trimmed_val(s);
    let pre = s.subrange(0, tl as int);
    assert(digits_wf(pre));
    lemma_seq_val_bound(pre);
    if tl > 0 {
        lemma_seq_val_split(pre, tl - 1);
        let hi = pre.subrange(tl - 1, tl as int);
        assert(hi.len() == 1);
        assert(hi[0] == s[tl - 1]);
        assert(hi.subrange(1, 1) =~= Seq::<u8>::empty());
        assert(seq_val(hi.subrange(1, 1)) == 0);
        assert(seq_val(hi) == hi[0] as nat + 10 * 0);
        assert(seq_val(hi) >= 1);
        let p = pow10((tl - 1) as nat);
        lemma_pow10_pos((tl - 1) as nat);
        assert(p * seq_val(hi) >= p * 1) by (nonlinear_arith)
            requires
                seq_val(hi) >= 1,
                p >= 1,
        ;
    }
}

/// Zero value and zero trimmed length coincide.
pub proof fn lemma_trimmed_zero(s: Seq<u8>)
    requires
        digits_wf(s),
    ensures
        (seq_val(s) == 0) <==> (trimmed_len(s) == 0),
{
    lemma_trimmed_bounds(s);
    if trimmed_len(s) == 0 {
        assert(pow10(0) == 1) by {
            reveal(pow);
        }
    } else {
        lemma_pow10_pos((trimmed_len(s) - 1) as nat);
    }
}

/// A shorter trimmed length means a strictly smaller value.
pub proof fn lemma_trimmed_lt(a: Seq<u8>, b: Seq<u8>)
    requires
        digits_wf(a),
        digits_wf(b),
        trimmed_len(a) < trimmed_len(b),
    ensures
        seq_val(a) < seq_val(b),
{
    lemma_trimmed_bounds(a);
    lemma_trimmed_bounds(b);
    lemma_pow10_mono(trimmed_len(a), (trimmed_len(b) - 1) as nat);
}

/// Padding to at least the trimmed length keeps the value.
pub proof fn lemma_pad_trimmed(s: Seq<u8>, l: nat)
    requires
        l >= trimmed_len(s),
    ensures
        seq_val(pad(s, l)) == seq_val(s),
{
    lemma_trimmed_props(s);
    assert forall|i: int| l <= i implies digit_at(s, i) == 0 by {
        if i < s.len() {
            assert(s[i] == 0);
        }
    }
    lemma_pad_val_high_zero(s, l);
}

/// Each digit of a well-formed sequence is determined by the value it denotes.
pub proof fn lemma_digit_extract(s: Seq<u8>, i: nat)
    requires
        digits_wf(s),
    ensures
        digit_at(s, i as int) as nat == (seq_val(s) / pow10(i)) % 10,
    decreases i,
{
    let v = seq_val(s);
    if i == 0 {
        assert(pow10(0) == 1) by {
            reveal(pow);
        }
        lemma_div_basics(v as int);
        if s.len() == 0 {
            lemma_small_mod(0, 10);
        } else {
            let t = s.subrange(1, s.len() as int);
            assert(v == s[0] as nat + 10 * seq_val(t));
            lemma_mod_multiples_vanish(seq_val(t) as int, s[0] as int, 10);
            lemma_small_mod(s[0] as nat, 10);
        }
    } else {
        lemma_pow10_step((i - 1) as nat);
        lemma_pow10_pos((i - 1) as nat);
        if s.len() == 0 {
            assert(v == 0);
            lemma_pow10_pos(i);
            lemma_div_basics(pow10(i) as int);
            lemma_small_mod(0, 10);
        } else {
            let t = s.subrange(1, s.len() as int);
            assert(v == s[0] as nat + 10 * seq_val(t));
            lemma_digit_extract(t, (i - 1) as nat);
            assert(digit_at(s, i as int) == digit_at(t, i - 1));
            lemma_fundamental_div_mod_converse(v as int, 10, seq_val(t) as int, s[0] as int);
            assert(v / 10 == seq_val(t));
            lemma_div_denominator(v as int, 10, pow10((i - 1) as nat) as int);
            assert((v as int / 10) / (pow10((i - 1) as nat) as int) == v as int / (10 * pow10(
                (i - 1) as nat,
            ) as int));
        }
    }
}

/// Sequences with the same digit at every position denote the same value.
pub proof fn lemma_digit_eq(a: Seq<u8>, b: Seq<u8>)
    requires
        forall|i: int| 0 <= i ==> digit_at(a, i) == digit_at(b, i),
    ensures
        seq_val(a) == seq_val(b),
{
    let l = if a.len() >= b.len() {
        a.len()
    } else {
        b.len()
    };
    assert(pad(a, l) =~= pad(b, l));
    lemma_pad_val(a, l);
    lemma_pad_val(b, l);
}

/// If the digits agree above position `i` and differ in `a`'s favour at `i`,
/// then `a` denotes the smaller value.
pub proof fn lemma_digit_compare(a: Seq<u8>, b: Seq<u8>, i: int)
    requires
        digits_wf(a),
        digits_wf(b),
        0 <= i,
        forall|j: int| i < j ==> digit_at(a, j) == digit_at(b, j),
        digit_at(a, i) < digit_at(b, i),
    ensures
        seq_val(a) < seq_val(b),
{
    let l0 = if a.len() >= b.len() {
        a.len()
    } else {
        b.len()
    };
    let l = if l0 >= i + 1 {
        l0
    } else {
        (i + 1) as nat
    };
    let pa = pad(a, l);
    let pb = pad(b, l);
    lemma_pad_val(a, l);
    lemma_pad_val(b, l);
    assert(digits_wf(pa));
    assert(digits_wf(pb));
    lemma_seq_val_split(pa, i);
    lemma_seq_val_split(pb, i);
    let la = pa.subrange(0, i);
    let lb = pb.subrange(0, i);
    let ha = pa.subrange(i, l as int);
    let hb = pb.subrange(i, l as int);
    assert(ha.subrange(1, ha.len() as int) =~= hb.subrange(1, hb.len() as int));
    assert(seq_val(ha) == digit_at(a, i) as nat + 10 * seq_val(ha.subrange(1, ha.len() as int)));
    assert(seq_val(hb) == digit_at(b, i) as nat + 10 * seq_val(hb.subrange(1, hb.len() as int)));
    assert(seq_val(ha) < seq_val(hb));
    assert(digits_wf(la));
    lemma_seq_val_bound(la);
    let p = pow10(i as nat);
    assert(seq_val(la) + p * seq_val(ha) < p * seq_val(hb)) by (nonlinear_arith)
        requires
            seq_val(la) < p,
            seq_val(ha) < seq_val(hb),
        ;
    assert(seq_val(pb) == seq_val(lb) + p * seq_val(hb));
}

/// The decimal digits of a native number, least significant first.
pub open spec fn nat_digits(n: nat) -> Seq<u8>
    decreases n,
{
    if n == 0 {
        Seq::empty()
    } else {
        seq![(n % 10) as u8] + nat_digits(n / 10)
    }
}

/// The digit buffer that construction from a native number yields.
pub open spec fn spec_of(n: nat) -> Seq<u8> {
    if n == 0 {
        seq![0u8]
    } else {
        nat_digits(n)
    }
}

/// `nat_digits` is well formed, denotes its argument, and carries no
/// high-order zero.
pub proof fn lemma_nat_digits(n: nat)
    ensures
        digits_wf(nat_digits(n)),
        seq_val(nat_digits(n)) == n,
        trimmed_len(nat_digits(n)) == nat_digits(n).len(),
    decreases n,
{
    if n > 0 {
        let d = n % 10;
        let q = n / 10;
        lemma_mod_division_less_than_divisor(n as int, 10);
        lemma_div_pos_is_pos(n as int, 10);
        assert(q < n) by (nonlinear_arith)
            requires
                n > 0,
                q == n / 10,
        ;
        lemma_nat_digits(q);
        let t = nat_digits(q);
        let s = nat_digits(n);
        assert(s == seq![(d) as u8] + t);
        assert(s[0] == d as u8);
        assert(s.subrange(1, s.len() as int) =~= t);
        lemma_fundamental_div_mod(n as int, 10);
        assert(seq_val(s) == d + 10 * seq_val(t));
        assert(seq_val(s) == n);
        if t.len() == 0 {
            assert(q == 0);
            assert(d != 0);
            assert(s.len() == 1);
        } else {
            lemma_trimmed_props(t);
            assert(t[t.len() - 1] != 0);
            assert(s[s.len() - 1] == t[t.len() - 1]);
        }
    }
}

/// `spec_of` is well formed and denotes its argument.
pub proof fn lemma_spec_of(n: nat)
    ensures
        digits_wf(spec_of(n)),
        seq_val(spec_of(n)) == n,
        trimmed_len(spec_of(n)) == if n == 0 {
            0nat
        } else {
            nat_digits(n).len()
        },
{
    if n == 0 {
        let s = spec_of(0);
        assert(s.len() == 1 && s[0] == 0);
        assert(s.subrange(1, 1) =~= Seq::<u8>::empty());
        assert(seq_val(s.subrange(1, 1)) == 0);
        assert(seq_val(s) == 0 + 10 * 0);
        assert(s.drop_last() =~= Seq::<u8>::empty());
        assert(trimmed_len(s.drop_last()) == 0);
    } else {
        lemma_nat_digits(n);
    }
}

/// A well-formed buffer carries exactly the decimal digits of its value.
pub proof fn lemma_val_digits(s: Seq<u8>)
    requires
        digits_wf(s),
    ensures
        nat_digits(seq_val(s)).len() == trimmed_len(s),
        forall|i: int| 0 <= i < trimmed_len(s) ==> nat_digits(seq_val(s))[i] == s[i],
{
    let n = seq_val(s);
    let nd = nat_digits(n);
    lemma_nat_digits(n);
    lemma_trimmed_props(s);
    lemma_trimmed_bounds(s);
    lemma_trimmed_bounds(nd);
    if nd.len() < trimmed_len(s) {
        lemma_pow10_mono(trimmed_len(nd), (trimmed_len(s) - 1) as nat);
        assert(false);
    }
    if trimmed_len(s) < nd.len() {
        if trimmed_len(nd) > 0 {
            lemma_pow10_mono(trimmed_len(s), (trimmed_len(nd) - 1) as nat);
        }
        assert(false);
    }
    assert forall|i: int| 0 <= i < trimmed_len(s) implies nd[i] == s[i] by {
        lemma_digit_extract(s, i as nat);
        lemma_digit_extract(nd, i as nat);
        assert(digit_at(nd, i) == nd[i]);
        assert(digit_at(s, i) == s[i]);
    }
}

/// Minimal decimal text of a value, as ASCII bytes, most significant digit
/// first; the single byte `"0"` for zero.
pub open spec fn dec_text(n: nat) -> Seq<u8> {
    if n == 0 {
        seq![48u8]
    } else {
        Seq::new(
            nat_digits(n).len(),
            |i: int| (nat_digits(n)[nat_digits(n).len() - 1 - i] + 48) as u8,
        )
    }
}

/// Bounds-checked read: a position beyond storage reads as zero.
pub fn lookup(v: &Vec<u8>, ix: usize) -> (r: u8)
    ensures
        r == digit_at(v@, ix as int),
{
    if ix < v.len() {
        v[ix]
    } else {
        0
    }
}

/// Write that grows the buffer (with zeros) to fit the position.
pub fn put(v: &mut Vec<u8>, ix: usize, value: u8)
    ensures
        final(v)@.len() == (if ix < old(v)@.len() {
            old(v)@.len() as int
        } else {
            ix as int + 1
        }),
        forall|j: int|
            0 <= j ==> digit_at(final(v)@, j) == (if j == ix as int {
                value
            } else {
                digit_at(old(v)@, j)
            }),
{
    if ix < v.len() {
        v[ix] = value;
    } else {
        while v.len() < ix
            invariant
                old(v)@.len() <= v@.len() <= ix,
                forall|j: int| 0 <= j ==> digit_at(v@, j) == digit_at(old(v)@, j),
            decreases ix - v@.len(),
        {
            v.push(0);
        }
        v.push(value);
    }
}

} // verus!
