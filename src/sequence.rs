use vstd::prelude::*;

use crate::error::ErrorKind;

verus! {

/// The seeded Fibonacci numbers: `fib(0) == fib(1) == 1`, and every later
/// term is the sum of the two before it.
pub open spec fn fib(i: nat) -> nat
    decreases i,
{
    if i < 2 {
        1
    } else {
        fib((i - 1) as nat) + fib((i - 2) as nat)
    }
}

/// The index of the last term that `generate(count)` emits. The two seeds
/// are always emitted; each step from 2 up to `count - 2` adds one term.
pub open spec fn last_index(count: nat) -> nat {
    if count < 3 {
        1
    } else {
        (count - 2) as nat
    }
}

/// What `generate(count)` returns: the terms `fib(0) ..= fib(last_index(count))`,
/// or `ArithmeticOverflow` when the last of them does not fit in a `u64`.
pub open spec fn generate_outcome(count: nat) -> Result<Seq<u64>, ErrorKind> {
    if fib(last_index(count)) <= u64::MAX {
        Ok(Seq::new(last_index(count) + 1, |i: int| fib(i as nat) as u64))
    } else {
        Err(ErrorKind::ArithmeticOverflow)
    }
}

/// The mathematical content of a result of `generate`.
pub open spec fn outcome_of(r: Result<Vec<u64>, ErrorKind>) -> Result<Seq<u64>, ErrorKind> {
    match r {
        Ok(v) => Ok(v@),
        Err(e) => Err(e),
    }
}

/// The sequence never decreases.
pub proof fn lemma_fib_monotone(i: nat, j: nat)
    requires
        i <= j,
    ensures
        fib(i) <= fib(j),
    decreases j,
{
    if i < j {
        lemma_fib_monotone(i, (j - 1) as nat);
    }
}

/// Computes the seeded Fibonacci sequence for `count`: the seeds 1 and 1,
/// then one term per step from 2 up to `count - 2`, so that `count - 1` terms
/// in all are emitted when `count >= 3`, and only the seeds otherwise.
pub fn generate(count: u32) -> (r: Result<Vec<u64>, ErrorKind>)
    ensures
        outcome_of(r) == generate_outcome(count as nat),
{
    let mut terms: Vec<u64> = Vec::new();
    terms.push(1);
    terms.push(1);
    if count < 3 {
        assert(terms@ =~= Seq::new(2, |i: int| fib(i as nat) as u64));
        return Ok(terms);
    }
    let last: u32 = count - 2;
    let mut prev: u64 = 1;
    let mut curr: u64 = 1;
    let mut k: u32 = 2;
    while k <= last
        invariant
            last == last_index(count as nat),
            2 <= k <= last + 1,
            terms@.len() == k,
            forall|j: int| 0 <= j < k ==> terms@[j] == fib(j as nat),
            prev == fib((k - 2) as nat),
            curr == fib((k - 1) as nat),
        decreases last + 1 - k,
    {
        match prev.checked_add(curr) {
            None => {
                proof {
                    lemma_fib_monotone(k as nat, last as nat);
                }
                return Err(ErrorKind::ArithmeticOverflow);
            },
            Some(next) => {
                terms.push(next);
                prev = curr;
                curr = next;
                k = k + 1;
            },
        }
    }
    assert(terms@ =~= Seq::new(last as nat + 1, |i: int| fib(i as nat) as u64));
    Ok(terms)
}

/// Every term that `generate` emits after the two seeds is the sum of the
/// two terms just before it, and `count - 3` such terms follow the seeds when
/// `count >= 3`, none when `count` is 2.
pub proof fn generated_terms_follow_recurrence(count: u32)
    requires
        count >= 2,
    ensures
        generate_outcome(count as nat) matches Ok(v) ==> {
            &&& v.len() - 2 == if count >= 3 { count - 3 } else { 0 }
            &&& forall|i: int| 2 <= i < v.len() ==> #[trigger] v[i] == v[i - 1] + v[i - 2]
        },
{
    if generate_outcome(count as nat) is Ok {
        let v = Seq::new(last_index(count as nat) + 1, |i: int| fib(i as nat) as u64);
        assert forall|i: int| 2 <= i < v.len() implies #[trigger] v[i] == v[i - 1] + v[i - 2] by {
            lemma_fib_monotone(i as nat, last_index(count as nat));
            lemma_fib_monotone((i - 1) as nat, last_index(count as nat));
            lemma_fib_monotone((i - 2) as nat, last_index(count as nat));
        }
    }
}

/// Below a `count` of 2, `generate` emits the two seeds and nothing more.
pub proof fn short_count_emits_only_seeds(count: u32)
    requires
        count < 2,
    ensures
        generate_outcome(count as nat) == Ok::<Seq<u64>, ErrorKind>(seq![1u64, 1u64]),
{
    let v = Seq::new(2, |i: int| fib(i as nat) as u64);
    assert(v =~= seq![1u64, 1u64]);
}

/// `generate` carries no state from one call to the next: two calls with the
/// same `count` give the same outcome.
pub proof fn generate_is_idempotent(
    count: u32,
    first: Result<Vec<u64>, ErrorKind>,
    second: Result<Vec<u64>, ErrorKind>,
)
    requires
        outcome_of(first) == generate_outcome(count as nat),
        outcome_of(second) == generate_outcome(count as nat),
    ensures
        outcome_of(first) == outcome_of(second),
{
}

/// The character of a decimal digit `d < 10`.
pub open spec fn digit_char(d: nat) -> char {
    ((d + 48) as u8) as char
}

/// The decimal digits of `n`, most significant first, with no leading zero.
pub open spec fn decimal(n: nat) -> Seq<char>
    decreases n,
{
    if n < 10 {
        seq![digit_char(n)]
    } else {
        decimal(n / 10) + seq![digit_char(n % 10)]
    }
}

/// The separator placed between two rendered terms.
pub open spec fn arrow() -> Seq<char> {
    seq![' ', '-', '>', ' ']
}

/// The terms of `s` in decimal, joined by `arrow()`.
pub open spec fn arrow_join(s: Seq<u64>) -> Seq<char>
    decreases s.len(),
{
    if s.len() == 0 {
        Seq::empty()
    } else if s.len() == 1 {
        decimal(s[0] as nat)
    } else {
        arrow_join(s.drop_last()) + arrow() + decimal(s.last() as nat)
    }
}

/// Relies on `ToString::to_string` through `u64`'s `Display`, which writes
/// the number in decimal, with no sign and no leading zero.
#[verifier::external_body]
fn decimal_text(n: u64) -> (r: String)
    ensures
        r@ == decimal(n as nat),
{
    n.to_string()
}

/// Renders the terms in decimal, separated by `" -> "`, as in
/// `1 -> 1 -> 2 -> 3 -> 5`.
pub fn render(terms: &Vec<u64>) -> (r: String)
    ensures
        r@ == arrow_join(terms@),
{
    let mut out = String::new();
    let mut i: usize = 0;
    while i < terms.len()
        invariant
            i <= terms@.len(),
            out@ == arrow_join(terms@.subrange(0, i as int)),
        decreases terms@.len() - i,
    {
        let ghost before = terms@.subrange(0, i as int);
        let ghost after = terms@.subrange(0, i as int + 1);
        assert(after.drop_last() =~= before);
        if i > 0 {
            let sep = " -> ";
            proof {
                reveal_strlit(" -> ");
            }
            assert(sep@ =~= arrow());
            out.append(sep);
        } else {
            assert(before =~= Seq::<u64>::empty());
        }
        let digits = decimal_text(terms[i]);
        out.append(digits.as_str());
        i = i + 1;
    }
    assert(terms@.subrange(0, terms@.len() as int) =~= terms@);
    out
}

} // verus!
