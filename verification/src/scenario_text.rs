//! The scenario text format: decimal values separated by whitespace,
//! alternating wait seconds and toggle targets.
//!
//! The format accepts nothing but ASCII digits and whitespace, reads each
//! maximal digit run as one value of at most nine digits, and demands an
//! even number of values: the first of each pair is a wait, the second a
//! toggle target.

use vstd::prelude::*;

use crate::driver::ScenarioError;
use crate::driver::SimSeq;

verus! {

/// An ASCII decimal digit.
pub open spec fn is_digit(b: u8) -> bool {
    48 <= b <= 57
}

/// Whitespace between scenario values: space, tab, line feed, return.
pub open spec fn is_space(b: u8) -> bool {
    b == 32 || b == 9 || b == 10 || b == 13
}

/// Nothing but digits and whitespace.
pub open spec fn valid_bytes(s: Seq<u8>) -> bool {
    forall|i: int| 0 <= i < s.len() ==> is_digit(#[trigger] s[i]) || is_space(s[i])
}

/// The value of a digit run, most significant digit first.
pub open spec fn digits_val(d: Seq<u8>) -> nat
    decreases d.len(),
{
    if d.len() == 0 {
        0
    } else {
        digits_val(d.drop_last()) * 10 + (d.last() - 48) as nat
    }
}

/// Ten to the `k`.
pub open spec fn pow10(k: nat) -> nat
    decreases k,
{
    if k == 0 {
        1
    } else {
        10 * pow10((k - 1) as nat)
    }
}

/// The input after its leading whitespace.
pub open spec fn skip_space(s: Seq<u8>) -> Seq<u8>
    decreases s.len(),
{
    if s.len() > 0 && is_space(s[0]) {
        skip_space(s.drop_first())
    } else {
        s
    }
}

/// The length of the leading digit run.
pub open spec fn digit_run(s: Seq<u8>) -> nat
    decreases s.len(),
{
    if s.len() > 0 && is_digit(s[0]) {
        (1 + digit_run(s.drop_first())) as nat
    } else {
        0
    }
}

/// The values in the input, in order: each maximal digit run is one.
pub open spec fn tokens(s: Seq<u8>) -> Seq<Seq<u8>>
    decreases s.len(),
    via tokens_decreases
{
    let t = skip_space(s);
    if t.len() == 0 || !is_digit(t[0]) {
        Seq::empty()
    } else {
        seq![t.subrange(0, digit_run(t) as int)] + tokens(
            t.subrange(digit_run(t) as int, t.len() as int),
        )
    }
}

#[via_fn]
proof fn tokens_decreases(s: Seq<u8>) {
    lemma_skip_space_len(s);
    lemma_digit_run_len(skip_space(s));
}

/// Skipping whitespace never lengthens the input.
proof fn lemma_skip_space_len(s: Seq<u8>)
    ensures
        skip_space(s).len() <= s.len(),
    decreases s.len(),
{
    if s.len() > 0 && is_space(s[0]) {
        lemma_skip_space_len(s.drop_first());
    }
}

/// The leading digit run stays inside the input.
proof fn lemma_digit_run_len(s: Seq<u8>)
    ensures
        digit_run(s) <= s.len(),
    decreases s.len(),
{
    if s.len() > 0 && is_digit(s[0]) {
        lemma_digit_run_len(s.drop_first());
    }
}

/// Ten to the power never shrinks as the exponent grows.
proof fn lemma_pow10_mono(a: nat, b: nat)
    requires
        a <= b,
    ensures
        pow10(a) <= pow10(b),
        pow10(a) >= 1,
    decreases b,
{
    if a < b {
        lemma_pow10_mono(a, (b - 1) as nat);
    } else if a > 0 {
        lemma_pow10_mono((a - 1) as nat, (b - 1) as nat);
    }
}

/// One leading whitespace byte changes no values.
proof fn lemma_tokens_space(s: Seq<u8>)
    requires
        s.len() > 0,
        is_space(s[0]),
    ensures
        tokens(s) == tokens(s.drop_first()),
{
    assert(skip_space(s) == skip_space(s.drop_first()));
}

/// An exhausted input holds no values.
proof fn lemma_tokens_empty(s: Seq<u8>)
    requires
        s.len() == 0,
    ensures
        tokens(s) == Seq::<Seq<u8>>::empty(),
{
    assert(skip_space(s) == s);
}

/// Every value read so far mirrors its digit run: at most nine digits,
/// the run's decimal value, below one billion.
spec fn vals_ok(vals: Seq<u64>, all: Seq<u8>) -> bool {
    forall|k: int|
        #![trigger vals[k]]
        #![trigger tokens(all)[k]]
        0 <= k < vals.len() ==> tokens(all)[k].len() <= 9 && vals[k] as nat == digits_val(
            tokens(all)[k],
        ) && vals[k] < 1000000000
}

/// Appending a value that mirrors the next digit run keeps every value
/// mirroring its run.
proof fn lemma_vals_ok_push(vals: Seq<u64>, all: Seq<u8>, v: u64)
    requires
        vals_ok(vals, all),
        tokens(all)[vals.len() as int].len() <= 9,
        v as nat == digits_val(tokens(all)[vals.len() as int]),
        v < 1000000000,
    ensures
        vals_ok(vals.push(v), all),
{
    let pushed = vals.push(v);
    assert forall|k: int|
        #![trigger pushed[k]]
        #![trigger tokens(all)[k]]
        0 <= k < pushed.len() implies tokens(all)[k].len() <= 9 && pushed[k] as nat == digits_val(
        tokens(all)[k],
    ) && pushed[k] < 1000000000 by {
        if k < vals.len() {
            assert(pushed[k] == vals[k]);
            assert(vals[k] as nat == digits_val(tokens(all)[k]));
        } else {
            assert(pushed[k] == v);
        }
    }
}

/// The input from position `i` on.
spec fn suffix(s: Seq<u8>, i: int) -> Seq<u8> {
    s.subrange(i, s.len() as int)
}

/// Stepping one byte into a suffix.
proof fn lemma_suffix_step(s: Seq<u8>, i: int)
    requires
        0 <= i < s.len(),
    ensures
        suffix(s, i).drop_first() == suffix(s, i + 1),
        suffix(s, i).len() == s.len() - i,
        suffix(s, i)[0] == s[i],
{
    assert(suffix(s, i).drop_first() =~= suffix(s, i + 1));
}

impl SimSeq {
    /// Reads a scenario from text: whitespace-separated decimal values of
    /// at most nine digits each, taken pairwise as wait seconds and toggle
    /// target, in this order. Rejects any other byte, an overlong value,
    /// and an odd number of values.
    pub fn from_bytes(data: &[u8]) -> (r: Result<SimSeq, ScenarioError>)
        ensures
            !valid_bytes(data@) ==> r == Err::<SimSeq, ScenarioError>(ScenarioError::InvalidByte),
            valid_bytes(data@) && (exists|k: int|
                0 <= k < tokens(data@).len() && #[trigger] tokens(data@)[k].len() > 9) ==> r
                == Err::<SimSeq, ScenarioError>(ScenarioError::ValueTooLarge),
            valid_bytes(data@) && (forall|k: int|
                0 <= k < tokens(data@).len() ==> #[trigger] tokens(data@)[k].len() <= 9) && tokens(
                data@,
            ).len() % 2 == 1 ==> r == Err::<SimSeq, ScenarioError>(ScenarioError::LengthMismatch),
            valid_bytes(data@) && (forall|k: int|
                0 <= k < tokens(data@).len() ==> #[trigger] tokens(data@)[k].len() <= 9) && tokens(
                data@,
            ).len() % 2 == 0 ==> (r matches Ok(s) && s.wf() && s.waits@.len() * 2 == tokens(
                data@,
            ).len() && (forall|q: int|
                0 <= q < s.waits@.len() ==> (#[trigger] s.waits@[q]) as nat == digits_val(
                    tokens(data@)[2 * q],
                ) && s.toggles@[q] as nat == digits_val(tokens(data@)[2 * q + 1]))),
    {
        let ghost all = data@;

        // Nothing but digits and whitespace is accepted.
        let mut i: usize = 0;
        while i < data.len()
            invariant
                all == data@,
                i <= all.len(),
                forall|j: int| 0 <= j < i ==> is_digit(#[trigger] all[j]) || is_space(all[j]),
            decreases all.len() - i,
        {
            let b: u8 = data[i];
            if !(48 <= b && b <= 57 || b == 32 || b == 9 || b == 10 || b == 13) {
                return Err(ScenarioError::InvalidByte);
            }
            i = i + 1;
        }
        assert(valid_bytes(all));

        // Read the values, one maximal digit run each.
        let mut vals: Vec<u64> = Vec::new();
        let mut i: usize = 0;
        proof {
            assert(suffix(all, 0) =~= all);
            assert(tokens(all).skip(0) =~= tokens(all));
        }
        while i < data.len()
            invariant
                valid_bytes(all),
                all == data@,
                i <= all.len(),
                vals@.len() <= tokens(all).len(),
                tokens(suffix(all, i as int)) == tokens(all).skip(vals@.len() as int),
                vals_ok(vals@, all),
            decreases all.len() - i,
        {
            let b: u8 = data[i];
            if b == 32 || b == 9 || b == 10 || b == 13 {
                proof {
                    lemma_suffix_step(all, i as int);
                    lemma_tokens_space(suffix(all, i as int));
                }
                i = i + 1;
            } else {
                let ghost i0: int = i as int;
                let ghost s0 = suffix(all, i0);
                proof {
                    lemma_suffix_step(all, i0);
                    assert(is_digit(all[i0]));
                    assert(skip_space(s0) == s0);
                }
                let mut v: u64 = 0;
                let mut dcount: usize = 0;
                proof {
                    assert(all.subrange(i0, i0) =~= Seq::<u8>::empty());
                    assert(digits_val(all.subrange(i0, i0)) == 0);
                    assert(pow10(0) == 1);
                }
                while i < data.len() && 48 <= data[i] && data[i] <= 57
                    invariant
                        valid_bytes(all),
                        all == data@,
                        0 <= i0 <= i <= all.len(),
                        is_digit(all[i0]),
                        forall|j: int| i0 <= j < i ==> is_digit(#[trigger] all[j]),
                        dcount == i - i0,
                        dcount <= 9,
                        digit_run(s0) == dcount + digit_run(suffix(all, i as int)),
                        v as nat == digits_val(all.subrange(i0, i as int)),
                        v < pow10(dcount as nat),
                        s0 == suffix(all, i0),
                        vals@.len() <= tokens(all).len(),
                        tokens(s0) == tokens(all).skip(vals@.len() as int),
                    decreases all.len() - i,
                {
                    if dcount == 9 {
                        // The run goes past nine digits: the value at this
                        // position is refused.
                        proof {
                            lemma_suffix_step(all, i as int);
                            assert(digit_run(suffix(all, i as int)) >= 1);
                            assert(digit_run(s0) > 9);
                            lemma_digit_run_len(s0);
                            assert(tokens(s0) == seq![s0.subrange(0, digit_run(s0) as int)]
                                + tokens(
                                s0.subrange(digit_run(s0) as int, s0.len() as int),
                            ));
                            assert(tokens(all).skip(vals@.len() as int).len() > 0);
                            assert(tokens(all)[vals@.len() as int] == tokens(all).skip(
                                vals@.len() as int,
                            )[0]);
                            assert(tokens(all)[vals@.len() as int].len() > 9);
                        }
                        return Err(ScenarioError::ValueTooLarge);
                    }
                    let b2: u8 = data[i];
                    proof {
                        lemma_pow10_mono(dcount as nat, 8);
                        assert(pow10(8) == 100000000) by {
                            reveal_with_fuel(pow10, 9);
                        }
                    }
                    v = v * 10 + ((b2 - 48) as u64);
                    proof {
                        lemma_suffix_step(all, i as int);
                        assert(digit_run(suffix(all, i as int)) == 1 + digit_run(
                            suffix(all, i as int + 1),
                        ));
                        assert(all.subrange(i0, i as int + 1) =~= all.subrange(i0, i as int).push(
                            all[i as int],
                        ));
                        assert(all.subrange(i0, i as int + 1).drop_last() =~= all.subrange(
                            i0,
                            i as int,
                        ));
                        assert(pow10((dcount + 1) as nat) == 10 * pow10(dcount as nat));
                    }
                    dcount = dcount + 1;
                    i = i + 1;
                }
                // The run has ended: one complete value.
                proof {
                    if i < data.len() {
                        lemma_suffix_step(all, i as int);
                        assert(digit_run(suffix(all, i as int)) == 0);
                    } else {
                        assert(suffix(all, i as int) =~= Seq::<u8>::empty());
                        assert(digit_run(suffix(all, i as int)) == 0);
                    }
                    assert(digit_run(s0) == dcount);
                    let tok = s0.subrange(0, dcount as int);
                    assert(tok =~= all.subrange(i0, i as int));
                    assert(tokens(s0) == seq![tok] + tokens(
                        s0.subrange(dcount as int, s0.len() as int),
                    ));
                    assert(s0.subrange(dcount as int, s0.len() as int) =~= suffix(all, i as int));
                    assert(tokens(all).skip(vals@.len() as int).len() > 0);
                    assert(tokens(all).len() >= vals@.len() + 1);
                    assert(tokens(all)[vals@.len() as int] == tokens(all).skip(
                        vals@.len() as int,
                    )[0]);
                    assert(tokens(all)[vals@.len() as int] == tok);
                    let m: int = vals@.len() as int;
                    assert(tokens(all).skip(m) == seq![tok] + tokens(suffix(all, i as int)));
                    assert(tokens(suffix(all, i as int)).len() == tokens(all).len() - m - 1);
                    assert forall|idx: int|
                        0 <= idx < tokens(suffix(all, i as int)).len() implies tokens(
                        suffix(all, i as int),
                    )[idx] == tokens(all).skip(m + 1)[idx] by {
                        assert(tokens(all).skip(m)[idx + 1] == tokens(all)[m + 1 + idx]);
                        assert((seq![tok] + tokens(suffix(all, i as int)))[idx + 1] == tokens(
                            suffix(all, i as int),
                        )[idx]);
                    }
                    assert(tokens(suffix(all, i as int)) =~= tokens(all).skip(m + 1));
                }
                proof {
                    lemma_pow10_mono(dcount as nat, 9);
                    assert(pow10(9) == 1000000000) by {
                        reveal_with_fuel(pow10, 10);
                    }
                    assert(v < 1000000000);
                }
                let ghost pre_vals = vals@;
                vals.push(v);
                proof {
                    assert(vals@ == pre_vals.push(v));
                    assert(tokens(all)[pre_vals.len() as int].len() == dcount);
                    assert(v as nat == digits_val(tokens(all)[pre_vals.len() as int]));
                    lemma_vals_ok_push(pre_vals, all, v);
                }
            }
        }
        proof {
            assert(suffix(all, i as int) =~= Seq::<u8>::empty());
            lemma_tokens_empty(suffix(all, i as int));
            assert(tokens(all).skip(vals@.len() as int).len() == 0);
            assert(vals@.len() == tokens(all).len());
        }

        proof {
            assert forall|k: int|
                0 <= k < tokens(all).len() implies #[trigger] tokens(all)[k].len() <= 9 by {
                assert(vals@[k] as nat == digits_val(tokens(all)[k]));
            }
        }

        // The values come in pairs: a wait, then a toggle target.
        if vals.len() % 2 == 1 {
            return Err(ScenarioError::LengthMismatch);
        }
        let mut waits: Vec<u64> = Vec::new();
        let mut toggles: Vec<usize> = Vec::new();
        let mut p: usize = 0;
        while p < vals.len()
            invariant
                valid_bytes(all),
                all == data@,
                vals@.len() == tokens(all).len(),
                vals@.len() % 2 == 0,
                p % 2 == 0,
                p <= vals@.len(),
                waits@.len() == p / 2,
                toggles@.len() == p / 2,
                vals_ok(vals@, all),
                forall|q: int|
                    0 <= q < waits@.len() ==> (#[trigger] waits@[q]) == vals@[2 * q]
                        && toggles@[q] == vals@[2 * q + 1] as usize,
                forall|q: int|
                    0 <= q < waits@.len() ==> (#[trigger] toggles@[q]) as nat == vals@[2 * q
                        + 1] as nat,
            decreases vals@.len() - p,
        {
            let wait: u64 = vals[p];
            let target: u64 = vals[p + 1];
            proof {
                // A value of at most nine digits fits a member id on any
                // machine here.
                assert(target < 1000000000);
            }
            waits.push(wait);
            toggles.push(target as usize);
            p = p + 2;
        }
        Ok(SimSeq { toggles, waits })
    }
}

} // verus!

