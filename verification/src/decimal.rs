//! Decimal text fields. Amounts and operation counters travel on the wire as
//! ASCII digit strings inside record values; this module parses and prints
//! them. Parsing returns a typed outcome instead of aborting on malformed
//! text, so a caller can decide per field whether a bad value is fatal.

use vstd::prelude::*;

verus! {

/// An ASCII decimal digit.
pub open spec fn is_digit(b: u8) -> bool {
    0x30 <= b <= 0x39
}

pub open spec fn all_digits(s: Seq<u8>) -> bool {
    forall|i: int| 0 <= i < s.len() ==> is_digit(#[trigger] s[i])
}

/// Numeric value of an ASCII digit string, most significant digit first.
pub open spec fn dec_val(s: Seq<u8>) -> int
    decreases s.len(),
{
    if s.len() == 0 {
        0
    } else {
        dec_val(s.drop_last()) * 10 + (s.last() - 0x30)
    }
}

/// Canonical decimal text of a number: no sign, no leading zeros (except for
/// the single digit of zero itself).
pub open spec fn dec_rep(n: nat) -> Seq<u8>
    decreases n,
{
    if n < 10 {
        seq![(n + 0x30) as u8]
    } else {
        dec_rep(n / 10).push(((n % 10) + 0x30) as u8)
    }
}

/// What parsing a record value as an unsigned 32-bit amount yields: the value
/// of the digits if the text is non-empty, all digits, and in range, and
/// nothing otherwise.
pub open spec fn parsed_u32(s: Seq<u8>) -> Option<u32> {
    if s.len() > 0 && all_digits(s) && dec_val(s) <= u32::MAX {
        Some(dec_val(s) as u32)
    } else {
        None
    }
}

proof fn lemma_dec_val_nonneg(s: Seq<u8>)
    requires
        all_digits(s),
    ensures
        dec_val(s) >= 0,
    decreases s.len(),
{
    if s.len() > 0 {
        assert(all_digits(s.drop_last()));
        lemma_dec_val_nonneg(s.drop_last());
    }
}

/// On an all-digit string the value of a prefix never exceeds the value of
/// the whole: appending digits only grows the number.
proof fn lemma_dec_val_prefix(s: Seq<u8>, i: int)
    requires
        all_digits(s),
        0 <= i <= s.len(),
    ensures
        dec_val(s.take(i)) <= dec_val(s),
    decreases s.len(),
{
    if i == s.len() {
        assert(s.take(i) =~= s);
    } else {
        assert(all_digits(s.drop_last()));
        assert(s.take(i) =~= s.drop_last().take(i));
        lemma_dec_val_prefix(s.drop_last(), i);
        lemma_dec_val_nonneg(s.drop_last());
    }
}

/// The canonical decimal text is made of digits only, and is never empty.
pub proof fn lemma_dec_rep_digits(n: nat)
    ensures
        dec_rep(n).len() >= 1,
        all_digits(dec_rep(n)),
    decreases n,
{
    if n >= 10 {
        lemma_dec_rep_digits(n / 10);
        let s = dec_rep(n);
        assert forall|i: int| 0 <= i < s.len() implies is_digit(#[trigger] s[i]) by {
            if i < s.len() - 1 {
                assert(s[i] == dec_rep(n / 10)[i]);
            }
        }
    }
}

/// Reading back the canonical decimal text gives the number itself.
pub proof fn lemma_dec_val_of_rep(n: nat)
    ensures
        dec_val(dec_rep(n)) == n,
    decreases n,
{
    if n < 10 {
        let s = dec_rep(n);
        assert(s.drop_last() =~= Seq::<u8>::empty());
        assert(dec_val(Seq::<u8>::empty()) == 0);
        assert(s.last() == (n + 0x30) as u8);
        assert(dec_val(s) == dec_val(s.drop_last()) * 10 + (s.last() - 0x30));
        assert(dec_val(s) == n);
    } else {
        lemma_dec_val_of_rep(n / 10);
        let s = dec_rep(n);
        assert(s.drop_last() =~= dec_rep(n / 10));
        assert(dec_val(s) == dec_val(dec_rep(n / 10)) * 10 + (n % 10));
        vstd::arithmetic::div_mod::lemma_fundamental_div_mod(n as int, 10);
    }
}

spec fn pow10(k: nat) -> nat
    decreases k,
{
    if k == 0 {
        1
    } else {
        10 * pow10((k - 1) as nat)
    }
}

proof fn lemma_dec_rep_len(n: nat, k: nat)
    requires
        k >= 1,
        n < pow10(k),
    ensures
        dec_rep(n).len() <= k,
    decreases n,
{
    if n >= 10 {
        assert(pow10(k) == 10 * pow10((k - 1) as nat));
        assert(n / 10 < pow10((k - 1) as nat)) by (nonlinear_arith)
            requires
                n < 10 * pow10((k - 1) as nat),
        ;
        lemma_dec_rep_len(n / 10, (k - 1) as nat);
    }
}

/// The decimal text of a 32-bit number is at most ten digits, so it always
/// fits in a record value (whose length must fit in one byte).
pub proof fn lemma_dec_rep_len_u32(n: nat)
    requires
        n <= u32::MAX,
    ensures
        1 <= dec_rep(n).len() <= 10,
{
    assert(pow10(10) == 10000000000) by {
        reveal_with_fuel(pow10, 11);
    }
    lemma_dec_rep_len(n, 10);
    lemma_dec_rep_digits(n);
}

/// Decimal text round trip: parsing the canonical decimal text of any 32-bit
/// number gives that number back.
pub proof fn lemma_parse_of_rep(n: nat)
    requires
        n <= u32::MAX,
    ensures
        parsed_u32(dec_rep(n)) == Some(n as u32),
{
    lemma_dec_rep_digits(n);
    lemma_dec_val_of_rep(n);
}

/// Prints a number as canonical decimal ASCII text.
pub fn u32_to_dec(n: u32) -> (r: Vec<u8>)
    ensures
        r@ == dec_rep(n as nat),
    decreases n,
{
    if n < 10 {
        let mut v: Vec<u8> = Vec::new();
        v.push((n as u8) + 0x30);
        proof {
            assert(v@ =~= dec_rep(n as nat));
        }
        v
    } else {
        let mut v = u32_to_dec(n / 10);
        v.push((n % 10) as u8 + 0x30);
        v
    }
}

/// Parses a record value as an unsigned 32-bit decimal number. Yields the
/// number exactly when the text is non-empty, all ASCII digits, and the value
/// fits; any other input is rejected rather than aborted on.
pub fn parse_u32(s: &Vec<u8>) -> (r: Option<u32>)
    ensures
        r == parsed_u32(s@),
{
    if s.len() == 0 {
        return None;
    }
    let ghost whole = s@;
    let mut acc: u64 = 0;
    let mut i: usize = 0;
    while i < s.len()
        invariant
            s@ == whole,
            0 < whole.len(),
            i <= whole.len(),
            all_digits(whole.take(i as int)),
            acc == dec_val(whole.take(i as int)),
            acc <= u32::MAX,
        decreases whole.len() - i,
    {
        let b = s[i];
        if b < 0x30 || b > 0x39 {
            assert(!all_digits(whole));
            return None;
        }
        acc = acc * 10 + ((b - 0x30) as u64);
        i = i + 1;
        proof {
            assert(whole.take(i as int).drop_last() =~= whole.take(i - 1));
            assert(whole.take(i as int).last() == whole[i - 1]);
        }
        if acc > 0xFFFF_FFFF {
            proof {
                if all_digits(whole) {
                    lemma_dec_val_prefix(whole, i as int);
                }
            }
            return None;
        }
    }
    proof {
        assert(whole.take(whole.len() as int) =~= whole);
    }
    Some(acc as u32)
}

} // verus!
