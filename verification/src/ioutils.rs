//! The random digit-string source used to name temporary break-point
//! paths during cycle resolution.
//!
//! The generator is an explicit value: a linear congruential step over a
//! caller-supplied seed. A deterministic seed gives a reproducible stream;
//! a caller wanting unpredictability across runs seeds from the clock and
//! the process id. Creation of temporary files and directories is
//! filesystem work and lives with the embedding program, which draws its
//! random name suffixes from this generator.

use vstd::prelude::*;

verus! {

/// One linear congruential step (the multiplier and increment are the
/// classic Numerical Recipes constants).
pub open spec fn lcg_next(state: u32) -> int {
    state * 1664525 + 1013904223
}

/// The character of a single decimal digit.
pub open spec fn digit_char(d: int) -> char {
    if d == 0 {
        '0'
    } else if d == 1 {
        '1'
    } else if d == 2 {
        '2'
    } else if d == 3 {
        '3'
    } else if d == 4 {
        '4'
    } else if d == 5 {
        '5'
    } else if d == 6 {
        '6'
    } else if d == 7 {
        '7'
    } else if d == 8 {
        '8'
    } else {
        '9'
    }
}

/// The decimal digit string of `n`, most significant digit first.
pub open spec fn dec_digits(n: int) -> Seq<char>
    decreases n,
{
    if n < 10 {
        seq![digit_char(n)]
    } else {
        dec_digits(n / 10).push(digit_char(n % 10))
    }
}

/// A self-contained pseudo-random source for temporary path names.
pub struct RandomPathGenerator {
    state: u32,
}

impl RandomPathGenerator {
    /// The current internal state.
    pub closed spec fn seed(self) -> u32 {
        self.state
    }

    /// A generator starting from `seed`.
    pub fn new(seed: u32) -> (rng: RandomPathGenerator)
        ensures
            rng.seed() == seed,
    {
        RandomPathGenerator { state: seed }
    }
}

/// The text of one digit.
fn digit_str(d: u64) -> (t: &'static str)
    requires
        d < 10,
    ensures
        t@ == seq![digit_char(d as int)],
{
    proof {
        reveal_strlit("0");
        reveal_strlit("1");
        reveal_strlit("2");
        reveal_strlit("3");
        reveal_strlit("4");
        reveal_strlit("5");
        reveal_strlit("6");
        reveal_strlit("7");
        reveal_strlit("8");
        reveal_strlit("9");
        assert("0"@ =~= seq!['0']);
        assert("1"@ =~= seq!['1']);
        assert("2"@ =~= seq!['2']);
        assert("3"@ =~= seq!['3']);
        assert("4"@ =~= seq!['4']);
        assert("5"@ =~= seq!['5']);
        assert("6"@ =~= seq!['6']);
        assert("7"@ =~= seq!['7']);
        assert("8"@ =~= seq!['8']);
        assert("9"@ =~= seq!['9']);
    }
    if d == 0 {
        "0"
    } else if d == 1 {
        "1"
    } else if d == 2 {
        "2"
    } else if d == 3 {
        "3"
    } else if d == 4 {
        "4"
    } else if d == 5 {
        "5"
    } else if d == 6 {
        "6"
    } else if d == 7 {
        "7"
    } else if d == 8 {
        "8"
    } else {
        "9"
    }
}

/// The digit characters of the collected remainders, read back to front.
spec fn digits_chars(ds: Seq<u64>) -> Seq<char> {
    Seq::new(ds.len(), |k: int| digit_char(ds[ds.len() - 1 - k] as int))
}

/// The decimal rendering of `n`.
fn u64_to_string(n: u64) -> (s: String)
    ensures
        s@ == dec_digits(n as int),
{
    let mut digits: Vec<u64> = Vec::new();
    digits.push(n % 10);
    let mut m: u64 = n / 10;
    proof {
        if m > 0 {
            assert(dec_digits(n as int) =~= dec_digits(m as int) + digits_chars(digits@));
        } else {
            assert(dec_digits(n as int) =~= digits_chars(digits@));
        }
    }
    while m > 0
        invariant
            digits@.len() >= 1,
            forall|k: int| 0 <= k < digits@.len() ==> digits@[k] < 10,
            m > 0 ==> dec_digits(n as int) == dec_digits(m as int) + digits_chars(digits@),
            m == 0 ==> dec_digits(n as int) == digits_chars(digits@),
        decreases m,
    {
        let ghost old_digits = digits@;
        let ghost old_m = m as int;
        digits.push(m % 10);
        m = m / 10;
        proof {
            if m > 0 {
                assert(dec_digits(old_m) == dec_digits(m as int).push(digit_char(old_m % 10)));
                assert(dec_digits(m as int) + digits_chars(digits@) =~= dec_digits(m as int).push(
                    digit_char(old_m % 10),
                ) + digits_chars(old_digits));
            } else {
                assert(dec_digits(old_m) == seq![digit_char(old_m)]);
                assert(old_m % 10 == old_m);
                assert(digits_chars(digits@) =~= seq![digit_char(old_m)] + digits_chars(
                    old_digits,
                ));
            }
        }
    }
    let mut out = String::new();
    let mut k: usize = digits.len();
    while k > 0
        invariant
            forall|t: int| 0 <= t < digits@.len() ==> digits@[t] < 10,
            k <= digits@.len(),
            out@ == digits_chars(digits@).subrange(0, digits@.len() - k),
        decreases k,
    {
        k -= 1;
        out.append(digit_str(digits[k]));
        proof {
            assert(out@ =~= digits_chars(digits@).subrange(0, digits@.len() - k));
        }
    }
    proof {
        assert(digits_chars(digits@).subrange(0, digits@.len() as int) =~= digits_chars(
            digits@,
        ));
    }
    out
}

/// Advances the generator by one congruential step and returns the next
/// random digit string: the step's value reduced to at most nine decimal
/// digits.
pub fn next_random(rng: &mut RandomPathGenerator) -> (r: String)
    ensures
        final(rng).seed() == lcg_next(old(rng).seed()) % 0x1_0000_0000,
        r@ == dec_digits((lcg_next(old(rng).seed()) % 1_000_000_000) as int),
{
    let step: u64 = rng.state as u64 * 1664525 + 1013904223;
    rng.state = (step % 0x1_0000_0000) as u32;
    u64_to_string(step % 1_000_000_000)
}

} // verus!
