//! The number of passphrases that a request can produce.

use vstd::prelude::*;
use vstd::arithmetic::power::{lemma_pow0, lemma_pow_increases, lemma_pow_positive, pow};

verus! {

/// The number of passphrases counted for a request: one word out of
/// `word_count` for each of `phrase_length` places and, where there is salt,
/// one of `phrase_length` places for it and one character out of
/// `salt_chars_count` for each of its `salt_length` places.
pub open spec fn space_size(
    word_count: nat,
    phrase_length: nat,
    salt_length: nat,
    salt_chars_count: nat,
) -> int {
    let words = pow(word_count as int, phrase_length);
    if salt_length > 0 {
        words * (phrase_length * pow(salt_chars_count as int, salt_length))
    } else {
        words
    }
}

/// One more factor makes the next power.
pub proof fn pow_step(b: int, e: nat)
    ensures
        pow(b, e + 1) == b * pow(b, e),
{
    reveal(pow);
}

/// Zero to a positive power is zero.
pub proof fn pow_of_zero(e: nat)
    requires
        e > 0,
    ensures
        pow(0, e) == 0,
{
    pow_step(0, (e - 1) as nat);
}

/// One to any power is one.
pub proof fn pow_of_one(e: nat)
    ensures
        pow(1, e) == 1,
    decreases e,
{
    if e == 0 {
        lemma_pow0(1);
    } else {
        pow_of_one((e - 1) as nat);
        pow_step(1, (e - 1) as nat);
    }
}

/// `base` to the power `exp`, where that fits in 128 bits.
pub fn checked_power(base: u128, exp: usize) -> (r: Option<u128>)
    ensures
        r == (if pow(base as int, exp as nat) <= u128::MAX {
            Some(pow(base as int, exp as nat) as u128)
        } else {
            None::<u128>
        }),
{
    if exp == 0 {
        proof {
            lemma_pow0(base as int);
        }
        return Some(1);
    }
    if base == 0 {
        proof {
            pow_of_zero(exp as nat);
        }
        return Some(0);
    }
    if base == 1 {
        proof {
            pow_of_one(exp as nat);
        }
        return Some(1);
    }
    let mut acc: u128 = 1;
    let mut i: usize = 0;
    proof {
        lemma_pow0(base as int);
    }
    while i < exp
        invariant
            i <= exp,
            base >= 2,
            acc == pow(base as int, i as nat),
        decreases exp - i,
    {
        proof {
            pow_step(base as int, i as nat);
        }
        match acc.checked_mul(base) {
            None => {
                proof {
                    lemma_pow_increases(base as nat, (i + 1) as nat, exp as nat);
                    assert(pow(base as int, (i + 1) as nat) == acc * base) by (nonlinear_arith)
                        requires
                            pow(base as int, (i + 1) as nat) == base * pow(base as int, i as nat),
                            acc == pow(base as int, i as nat),
                    ;
                }
                return None;
            },
            Some(next) => {
                proof {
                    assert(base * acc == acc * base) by (nonlinear_arith);
                }
                acc = next;
            },
        }
        i += 1;
    }
    Some(acc)
}

/// The number of passphrases counted for a request, where it fits in 128
/// bits. Its binary logarithm is the request's entropy in bits.
pub fn combination_count(
    word_list_size: usize,
    phrase_length: usize,
    salt_length: usize,
    salt_chars_count: usize,
) -> (r: Option<u128>)
    ensures
        r == (if space_size(
            word_list_size as nat,
            phrase_length as nat,
            salt_length as nat,
            salt_chars_count as nat,
        ) <= u128::MAX {
            Some(
                space_size(
                    word_list_size as nat,
                    phrase_length as nat,
                    salt_length as nat,
                    salt_chars_count as nat,
                ) as u128,
            )
        } else {
            None::<u128>
        }),
{
    let ghost word_pow = pow(word_list_size as int, phrase_length as nat);
    let ghost salt_pow = pow(salt_chars_count as int, salt_length as nat);
    if salt_length == 0 {
        return checked_power(word_list_size as u128, phrase_length);
    }
    if phrase_length == 0 {
        proof {
            assert(word_pow * (0 * salt_pow) == 0) by (nonlinear_arith);
        }
        return Some(0);
    }
    if word_list_size == 0 {
        proof {
            pow_of_zero(phrase_length as nat);
            assert(0 * (phrase_length * salt_pow) == 0) by (nonlinear_arith);
        }
        return Some(0);
    }
    if salt_chars_count == 0 {
        proof {
            pow_of_zero(salt_length as nat);
            assert(word_pow * (phrase_length * 0) == 0) by (nonlinear_arith);
        }
        return Some(0);
    }
    proof {
        lemma_pow_positive(word_list_size as int, phrase_length as nat);
        lemma_pow_positive(salt_chars_count as int, salt_length as nat);
        assert(phrase_length * salt_pow >= salt_pow && phrase_length * salt_pow >= 1)
            by (nonlinear_arith)
            requires
                phrase_length >= 1,
                salt_pow >= 1,
        ;
        assert(word_pow * (phrase_length * salt_pow) >= word_pow && word_pow * (phrase_length
            * salt_pow) >= phrase_length * salt_pow) by (nonlinear_arith)
            requires
                word_pow >= 1,
                phrase_length * salt_pow >= 1,
        ;
    }
    let words: u128 = match checked_power(word_list_size as u128, phrase_length) {
        None => {
            return None;
        },
        Some(w) => w,
    };
    let salts: u128 = match checked_power(salt_chars_count as u128, salt_length) {
        None => {
            return None;
        },
        Some(s) => s,
    };
    let placed: u128 = match (phrase_length as u128).checked_mul(salts) {
        None => {
            return None;
        },
        Some(p) => p,
    };
    words.checked_mul(placed)
}

} // verus!
