//! Fetching with retries: which failures are worth another attempt, how
//! long to wait before it, and when to give up.
use vstd::prelude::*;
use crate::text::{chars_of, decimal, extend, push_decimal, string_of};

verus! {

/// How long a fetch may take, in seconds.
pub const TIMEOUT_SECS: u64 = 20u64;
/// The most bytes of a page that are read.
pub const BODY_CAP_BYTES: u64 = 4194304u64;
/// Attempts a default policy makes.
pub const ATTEMPTS: u32 = 3u32;
/// The pause before the first retry of a default policy, in milliseconds.
pub const BACKOFF_MS: u64 = 250u64;

/// A failed fetch: the status the site answered, or why it failed.
#[derive(Debug, Clone, PartialEq, Eq)]
pub enum TransportError {
    Status(u16),
    Failed(String),
}

/// Whether a failure may pass if tried again: timeouts, rate limits and
/// server errors, and any failure to reach the site at all.
pub open spec fn transient_spec(e: TransportError) -> bool {
    match e {
        TransportError::Status(s) => s == 408 || s == 425 || s == 429 || (500 <= s && s <= 599),
        TransportError::Failed(_) => true,
    }
}

pub open spec fn transport_message(e: TransportError) -> Seq<char> {
    match e {
        TransportError::Status(s) => "the site answered "@ + decimal(s as nat),
        TransportError::Failed(reason) => reason@,
    }
}

impl TransportError {
    pub fn transient(&self) -> (r: bool)
        ensures
            r == transient_spec(*self),
    {
        match self {
            TransportError::Status(status) => {
                let s = *status;
                s == 408 || s == 425 || s == 429 || (500 <= s && s <= 599)
            },
            TransportError::Failed(_) => true,
        }
    }

    /// The message a reader sees.
    pub fn message(&self) -> (r: String)
        ensures
            r@ == transport_message(*self),
    {
        match self {
            TransportError::Status(status) => {
                let mut out = chars_of("the site answered ");
                push_decimal(&mut out, *status as u32);
                string_of(out.as_slice())
            },
            TransportError::Failed(reason) => reason.clone(),
        }
    }
}

/// Fetches a page.
pub trait Transport {
    fn get(&mut self, url: &str, accept: &str) -> Result<String, TransportError>;
}

/// The last failure of a fetch that was given up, and how many attempts
/// were made.
#[derive(Debug, Clone, PartialEq, Eq)]
pub struct GaveUp {
    pub error: TransportError,
    pub attempts: u32,
}

/// The message a reader sees of a retry that gave up.
pub open spec fn gave_up_message(g: GaveUp) -> Seq<char> {
    transport_message(g.error) + if g.attempts > 1 {
        " (after "@ + decimal(g.attempts as nat) + " attempts)"@
    } else {
        Seq::empty()
    }
}

impl GaveUp {
    /// The message a reader sees: the failure, and the attempts when more
    /// than one.
    pub fn message(&self) -> (r: String)
        ensures
            r@ == gave_up_message(*self),
    {
        let mut out = chars_of(self.error.message().as_str());
        if self.attempts > 1 {
            extend(&mut out, chars_of(" (after ").as_slice());
            push_decimal(&mut out, self.attempts);
            extend(&mut out, chars_of(" attempts)").as_slice());
        }
        string_of(out.as_slice())
    }
}

/// Waits between attempts.
pub trait Pause {
    fn pause(&self, millis: u64);
}

/// No wait at all.
#[derive(Debug, Clone, Copy, PartialEq, Eq)]
pub struct NoPause;

impl Pause for NoPause {
    fn pause(&self, millis: u64) {
    }
}

/// A retry policy: how many attempts, the pause before the first retry
/// (doubling with each further one), and how to wait.
#[derive(Debug, Clone, Copy)]
pub struct Retry<P> {
    pub attempts: u32,
    pub backoff_ms: u64,
    pub sleep: P,
}

impl Retry<NoPause> {
    /// One attempt, no retry.
    pub fn once() -> (r: Self)
        ensures
            r.attempts == 1,
            r.backoff_ms == 0,
    {
        Self::immediate(1)
    }

    /// `attempts` attempts with no pause between them.
    pub fn immediate(attempts: u32) -> (r: Self)
        ensures
            r.attempts == attempts,
            r.backoff_ms == 0,
    {
        Retry { attempts, backoff_ms: 0, sleep: NoPause }
    }
}

/// `2` to the `k`.
pub open spec fn pow2(k: nat) -> nat
    decreases k,
{
    if k == 0 {
        1
    } else {
        2 * pow2((k - 1) as nat)
    }
}

/// The pause after failed attempt `attempt` (from 1): the backoff doubled
/// once per earlier retry, at most 16 times, held at `u64::MAX`.
pub open spec fn pause_after(backoff: u64, attempt: u32) -> u64 {
    let k = if attempt - 1 < 16 { (attempt - 1) as nat } else { 16nat };
    if backoff * pow2(k) > u64::MAX {
        u64::MAX
    } else {
        (backoff * pow2(k)) as u64
    }
}

/// The attempts a policy makes at most: its count, and never fewer than one.
pub open spec fn attempt_limit(attempts: u32) -> u32 {
    if attempts == 0 {
        1
    } else {
        attempts
    }
}

/// After failed attempt `attempt`, whether to try again.
pub open spec fn retries(attempt: u32, attempts: u32, e: TransportError) -> bool {
    transient_spec(e) && attempt < attempt_limit(attempts)
}

impl<P: Pause> Retry<P> {
    /// The pause before the retry that follows failed attempt `attempt`.
    pub fn pause_for(&self, attempt: u32) -> (r: u64)
        requires
            attempt >= 1,
        ensures
            r == pause_after(self.backoff_ms, attempt),
    {
        let k: u32 = if attempt - 1 < 16 { attempt - 1 } else { 16 };
        let mut factor: u64 = 1;
        let mut i: u32 = 0;
        while i < k
            invariant
                i <= k <= 16,
                factor == pow2(i as nat),
                factor <= 65536,
            decreases k - i,
        {
            proof {
                assert(pow2((i + 1) as nat) == 2 * pow2(i as nat));
                lemma_pow2_bound(i as nat);
            }
            factor = factor * 2;
            i = i + 1;
        }
        let b = self.backoff_ms as u128;
        let f = factor as u128;
        assert(b * f <= 0xffff_ffff_ffff_ffff * 65536) by (nonlinear_arith)
            requires
                b <= 0xffff_ffff_ffff_ffff,
                f <= 65536,
        ;
        let product = b * f;
        assert(product == self.backoff_ms * pow2(k as nat)) by (nonlinear_arith)
            requires
                product == b * f,
                b == self.backoff_ms,
                f == factor,
                factor == pow2(k as nat),
        ;
        if product > 0xffff_ffff_ffff_ffff {
            u64::MAX
        } else {
            product as u64
        }
    }

    /// Runs `op` until it succeeds, fails for good, or the attempts run
    /// out, pausing between attempts. What `op` answers rests on the site,
    /// so the contract states the run for every answer: `op` is called once
    /// per attempt, every attempt but the last failed in a way worth
    /// retrying, the last one settles the result, and before each retry the
    /// sleeper was asked for the pause `pause_after` gives.
    #[verifier::loop_isolation(false)]
    pub fn run<T, F: FnMut() -> Result<T, TransportError>>(&self, op: F) -> (r: Result<T, GaveUp>)
        requires
            forall|f: F| #[trigger] call_requires(f, ()),
        ensures
            exists|ops: Seq<F>, answers: Seq<Result<T, TransportError>>| {
                &&& #[trigger] tried(self.attempts, op, ops, answers, r)
                &&& paused_between(self.sleep, self.backoff_ms, answers.len())
            },
    {
        let ghost first = op;
        let mut call = op;
        let attempts: u32 = if self.attempts == 0 {
            1
        } else {
            self.attempts
        };
        let mut attempt: u32 = 0;
        let ghost mut ops: Seq<F> = Seq::empty();
        let ghost mut answers: Seq<Result<T, TransportError>> = Seq::empty();
        loop
            invariant
                attempts == attempt_limit(self.attempts),
                attempt < attempts,
                forall|f: F| #[trigger] call_requires(f, ()),
                ops.len() == attempt,
                answers.len() == attempt,
                attempt == 0 ==> call == first,
                attempt > 0 ==> ops[0] == first,
                forall|k: int| 0 <= k < attempt ==> call_ensures(#[trigger] ops[k], (), answers[k]),
                forall|k: int| 0 <= k < attempt ==> (#[trigger] answers[k] matches Err(e) && retries((k + 1) as u32, self.attempts, e)),
                paused_between(self.sleep, self.backoff_ms, attempt as nat + 1),
            decreases attempts - attempt,
        {
            attempt = attempt + 1;
            let ghost before = call;
            let answer = call();
            proof {
                ops = ops.push(before);
                answers = answers.push(answer);
            }
            match answer {
                Ok(value) => {
                    let r = Ok(value);
                    assert(tried(self.attempts, first, ops, answers, r));
                    return r;
                },
                Err(error) => {
                    if error.transient() && attempt < attempts {
                        let pause = self.pause_for(attempt);
                        self.sleep.pause(pause);
                        assert(call_ensures(P::pause, (&self.sleep, pause_after(self.backoff_ms, attempt)), ()));
                    } else {
                        let r = Err(GaveUp { error, attempts: attempt });
                        assert(tried(self.attempts, first, ops, answers, r));
                        return r;
                    }
                },
            }
        }
    }
}

/// Before each retry, after failed attempt `k` of the first `n - 1`,
/// `sleep` was asked to wait `pause_after(backoff, k)`.
pub open spec fn paused_between<P: Pause>(sleep: P, backoff: u64, n: nat) -> bool {
    forall|k: u32| 1 <= k < n ==> #[trigger] call_ensures(P::pause, (&sleep, pause_after(backoff, k)), ())
}

/// A run of attempts that settles to `r`: `ops` holds the operation as it
/// stood before each attempt, from `op` on, and `answers` what each attempt
/// answered; there is at least one attempt and at most the limit, every
/// attempt but the last failed in a way worth retrying, and the last one
/// settles the result: its value, or a give-up with its failure and the
/// count of attempts.
pub open spec fn tried<T, F: FnMut() -> Result<T, TransportError>>(
    attempts: u32,
    op: F,
    ops: Seq<F>,
    answers: Seq<Result<T, TransportError>>,
    r: Result<T, GaveUp>,
) -> bool {
    let n = answers.len();
    &&& 1 <= n <= attempt_limit(attempts)
    &&& ops.len() == n
    &&& ops[0] == op
    &&& forall|k: int| 0 <= k < n ==> call_ensures(#[trigger] ops[k], (), answers[k])
    &&& forall|k: int| 0 <= k < n - 1 ==> (#[trigger] answers[k] matches Err(e) && retries((k + 1) as u32, attempts, e))
    &&& match answers[n - 1] {
        Ok(v) => r == Ok::<T, GaveUp>(v),
        Err(e) => !retries(n as u32, attempts, e) && r == Err::<T, GaveUp>(GaveUp { error: e, attempts: n as u32 }),
    }
}

proof fn lemma_pow2_mono(i: nat, j: nat)
    requires
        i <= j,
    ensures
        1 <= pow2(i) <= pow2(j),
    decreases j,
{
    if j > 0 {
        if j > i {
            lemma_pow2_mono(i, (j - 1) as nat);
        } else {
            lemma_pow2_mono((j - 1) as nat, (j - 1) as nat);
        }
    }
}

proof fn lemma_pow2_bound(i: nat)
    requires
        i < 16,
    ensures
        pow2(i) <= 32768,
        pow2(i) >= 1,
{
    lemma_pow2_mono(i, 15);
    assert(pow2(15) == 32768) by {
        reveal_with_fuel(pow2, 16);
    }
}

} // verus!
