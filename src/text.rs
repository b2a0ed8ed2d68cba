use vstd::prelude::*;

verus! {

/// Longest run of decimal digits that `read_number` accepts.
pub const MAX_NUMBER_DIGITS: usize = 18;

pub open spec fn is_digit(b: u8) -> bool {
    48 <= b <= 57
}

/// `10^k`.
pub open spec fn pow10(k: nat) -> nat
    decreases k,
{
    if k == 0 {
        1
    } else {
        10 * pow10((k - 1) as nat)
    }
}

/// The value of a sequence of decimal digits, most significant first.
pub open spec fn digits_value(s: Seq<u8>) -> nat
    decreases s.len(),
{
    if s.len() == 0 {
        0
    } else {
        digits_value(s.drop_last()) * 10 + (s.last() - 48) as nat
    }
}

/// The first position at or after `i` that does not hold a digit.
pub open spec fn run_end(s: Seq<u8>, i: int) -> int
    decreases s.len() - i,
{
    if i < 0 || i >= s.len() || !is_digit(s[i]) {
        i
    } else {
        run_end(s, i + 1)
    }
}

/// The number written at `i` and the position just past it: a run of one to
/// `MAX_NUMBER_DIGITS` digits.
pub open spec fn number_at(s: Seq<u8>, i: int) -> Option<(nat, int)> {
    let e = run_end(s, i);
    if 0 <= i && i < e && e - i <= MAX_NUMBER_DIGITS {
        Some((digits_value(s.subrange(i, e)), e))
    } else {
        None
    }
}

proof fn lemma_run_end_ge(s: Seq<u8>, i: int)
    ensures
        run_end(s, i) >= i,
    decreases s.len() - i,
{
    if 0 <= i < s.len() && is_digit(s[i]) {
        lemma_run_end_ge(s, i + 1);
    }
}

proof fn lemma_run_end_step(s: Seq<u8>, i: int, j: int)
    requires
        0 <= i <= j <= s.len(),
        forall|k: int| i <= k < j ==> is_digit(#[trigger] s[k]),
    ensures
        run_end(s, i) == run_end(s, j),
    decreases j - i,
{
    if i < j {
        assert(is_digit(s[i]));
        lemma_run_end_step(s, i + 1, j);
    }
}

/// Reads the number that starts at `i`, as `number_at` says.
pub fn read_number(s: &[u8], i: usize) -> (r: Option<(u64, usize)>)
    ensures
        match number_at(s@, i as int) {
            Some((v, e)) => {
                &&& r == Some((v as u64, e as usize))
                &&& v < pow10(MAX_NUMBER_DIGITS as nat)
                &&& i < e <= s.len()
            },
            None => r is None,
        },
{
    if i >= s.len() {
        return None;
    }
    let mut j: usize = i;
    let mut v: u64 = 0;
    assert(s@.subrange(i as int, i as int) =~= Seq::<u8>::empty());
    while j < s.len() && 48 <= s[j] && s[j] <= 57 && j - i < MAX_NUMBER_DIGITS
        invariant
            i <= j <= s.len(),
            j - i <= MAX_NUMBER_DIGITS,
            forall|k: int| i <= k < j ==> is_digit(#[trigger] s@[k]),
            v == digits_value(s@.subrange(i as int, j as int)),
            v < pow10((j - i) as nat),
        decreases s.len() - j,
    {
        proof {
            assert(s@.subrange(i as int, j + 1).drop_last() =~= s@.subrange(i as int, j as int));
            assert(pow10((j + 1 - i) as nat) == 10 * pow10((j - i) as nat));
            lemma_pow10_values();
            lemma_pow10_mono((j - i) as nat, 17);
        }
        v = v * 10 + (s[j] - 48) as u64;
        j = j + 1;
    }
    proof {
        lemma_run_end_step(s@, i as int, j as int);
        lemma_pow10_mono((j - i) as nat, MAX_NUMBER_DIGITS as nat);
    }
    if j == i {
        return None;
    }
    if j < s.len() && 48 <= s[j] && s[j] <= 57 {
        proof {
            lemma_run_end_ge(s@, j + 1);
        }
        return None;
    }
    Some((v, j))
}

pub proof fn lemma_pow10_values()
    ensures
        pow10(17) == 100000000000000000,
        pow10(18) == 1000000000000000000,
{
    reveal_with_fuel(pow10, 19);
}

proof fn lemma_pow10_mono(a: nat, b: nat)
    requires
        a <= b,
    ensures
        pow10(a) <= pow10(b),
        pow10(a) >= 1,
    decreases b,
{
    if a < b {
        lemma_pow10_mono(a, (b - 1) as nat);
    } else if a > 0 {
        lemma_pow10_mono((a - 1) as nat, (a - 1) as nat);
    }
}

} // verus!
