use vstd::prelude::*;

verus! {

/// The decimal ASCII rendering of `n`, most significant digit first.
pub open spec fn dec_digits(n: nat) -> Seq<u8>
    decreases n,
{
    if n < 10 {
        seq![(48 + n) as u8]
    } else {
        dec_digits(n / 10).push((48 + n % 10) as u8)
    }
}

/// Renders `n` as decimal ASCII bytes.
pub fn dec_of(n: u64) -> (v: Vec<u8>)
    ensures
        v@ == dec_digits(n as nat),
    decreases n,
{
    if n < 10 {
        let mut v: Vec<u8> = Vec::new();
        v.push(48 + n as u8);
        assert(v@ =~= dec_digits(n as nat));
        v
    } else {
        let mut v = dec_of(n / 10);
        v.push(48 + (n % 10) as u8);
        v
    }
}

/// Every byte of a decimal rendering is an ASCII digit, and there is
/// at least one of them.
pub proof fn lemma_dec_digits_are_digits(n: nat)
    ensures
        dec_digits(n).len() >= 1,
        forall|i: int|
            0 <= i < dec_digits(n).len() ==> 48 <= #[trigger] dec_digits(n)[i] <= 57,
    decreases n,
{
    if n >= 10 {
        lemma_dec_digits_are_digits(n / 10);
    }
}

pub open spec fn pow10(d: nat) -> nat
    decreases d,
{
    if d == 0 {
        1
    } else {
        10 * pow10((d - 1) as nat)
    }
}

/// A number below `10^d` takes at most `d` decimal digits.
pub proof fn lemma_dec_digits_len_bound(n: nat, d: nat)
    requires
        1 <= d,
        n < pow10(d),
    ensures
        dec_digits(n).len() <= d,
    decreases n,
{
    if n < 10 {
    } else {
        assert(pow10(d) == 10 * pow10((d - 1) as nat));
        if d == 1 {
            assert(pow10(0nat) == 1);
            assert(false);
        }
        assert(n / 10 < pow10((d - 1) as nat)) by {
            if n / 10 >= pow10((d - 1) as nat) {
                assert(n >= 10 * (n / 10)) by (nonlinear_arith);
                assert(10 * (n / 10) >= 10 * pow10((d - 1) as nat)) by (nonlinear_arith)
                    requires
                        n / 10 >= pow10((d - 1) as nat),
                ;
            }
        }
        lemma_dec_digits_len_bound(n / 10, (d - 1) as nat);
    }
}

/// Channel levels (at most 255) take at most three digits.
pub proof fn lemma_dec_digits_len_3(n: nat)
    requires
        n < 1000,
    ensures
        dec_digits(n).len() <= 3,
{
    reveal_with_fuel(pow10, 4);
    lemma_dec_digits_len_bound(n, 3);
}

/// Anything a `u64` can hold takes at most twenty digits.
pub proof fn lemma_dec_digits_len_20(n: nat)
    requires
        n <= u64::MAX,
    ensures
        dec_digits(n).len() <= 20,
{
    reveal_with_fuel(pow10, 21);
    lemma_dec_digits_len_bound(n, 20);
}

} // verus!
