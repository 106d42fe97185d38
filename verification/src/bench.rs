//! Benchmark parameters, measured results, and the parameter matrix.

use vstd::prelude::*;
use vstd::string::StringExecFns;
use crate::text::{decimal, push_decimal};

verus! {

/// The parameters of one benchmark run.
#[derive(Debug, PartialEq, Eq, Structural)]
pub struct Spec {
    /// Number of workers in the ring.
    pub procs: u32,
    /// Round trips to perform, shared by all payloads in flight.
    pub messages: u32,
    /// Payloads put on the ring at once.
    pub paralell: u32,
    /// Length of each payload in characters.
    pub size: u32,
}

impl Clone for Spec {
    fn clone(&self) -> (r: Self)
        ensures
            r == *self,
    {
        Spec { procs: self.procs, messages: self.messages, paralell: self.paralell, size: self.size }
    }
}

/// `base` raised to `exp`.
pub open spec fn power(base: nat, exp: nat) -> nat
    decreases exp,
{
    if exp == 0 {
        1
    } else {
        base * power(base, (exp - 1) as nat)
    }
}

/// A greater exponent never gives a smaller power of a positive base.
pub proof fn lemma_power_monotonic(base: nat, low: nat, high: nat)
    requires
        base >= 1,
        low <= high,
    ensures
        power(base, low) <= power(base, high),
    decreases high,
{
    if low < high {
        lemma_power_monotonic(base, low, (high - 1) as nat);
        let p = power(base, (high - 1) as nat);
        assert(p <= base * p) by (nonlinear_arith)
            requires
                base >= 1,
                p >= 0,
        ;
    }
}

/// `base` raised to `exp`, where the power fits the integer type.
pub fn pow(base: u32, exp: u32) -> (r: u32)
    requires
        base >= 1,
        power(base as nat, exp as nat) <= u32::MAX,
    ensures
        r == power(base as nat, exp as nat),
{
    let mut acc: u32 = 1;
    let mut i: u32 = 0;
    while i < exp
        invariant
            base >= 1,
            i <= exp,
            acc == power(base as nat, i as nat),
            power(base as nat, exp as nat) <= u32::MAX,
        decreases exp - i,
    {
        proof {
            lemma_power_monotonic(base as nat, (i + 1) as nat, exp as nat);
            assert(power(base as nat, (i + 1) as nat) == base * power(base as nat, i as nat));
            assert(acc * base == base * acc) by (nonlinear_arith);
        }
        acc = acc * base;
        i = i + 1;
    }
    acc
}

/// Number of entries of the parameter matrix.
pub open spec fn matrix_len() -> nat {
    180
}

/// The entry at position `i` of the parameter matrix. Ring sizes and trip
/// counts run over 10, 100 and 1000, the parallelism over 1, 2, 4, 8 and
/// 16, the payload sizes over 10, 100, 1000 and 10000; the payload size
/// varies fastest and the ring size slowest.
pub open spec fn matrix_entry(i: int) -> Spec {
    Spec {
        procs: power(10, (1 + i / 60) as nat) as u32,
        messages: power(10, (1 + (i / 20) % 3) as nat) as u32,
        paralell: power(2, ((i / 4) % 5) as nat) as u32,
        size: power(10, (1 + i % 4) as nat) as u32,
    }
}

/// The values of the powers that the matrix uses.
pub proof fn lemma_matrix_powers()
    ensures
        power(10, 1) == 10,
        power(10, 2) == 100,
        power(10, 3) == 1000,
        power(10, 4) == 10000,
        power(2, 0) == 1,
        power(2, 1) == 2,
        power(2, 2) == 4,
        power(2, 3) == 8,
        power(2, 4) == 16,
{
    reveal_with_fuel(power, 6);
}

/// The parameter matrix, in the order in which the runs are made.
pub fn tests() -> (v: Vec<Spec>)
    ensures
        v@.len() == matrix_len(),
        forall|i: int| 0 <= i < matrix_len() ==> #[trigger] v@[i] == matrix_entry(i),
{
    let max: u32 = 4;
    let mut v: Vec<Spec> = Vec::new();
    let mut procs: u32 = 1;
    while procs < max
        invariant
            max == 4,
            1 <= procs <= 4,
            v@.len() == (procs - 1) * 60,
            forall|i: int| 0 <= i < v@.len() ==> #[trigger] v@[i] == matrix_entry(i),
        decreases max - procs,
    {
        let mut msgs: u32 = 1;
        while msgs < max
            invariant
                max == 4,
                1 <= procs < 4,
                1 <= msgs <= 4,
                v@.len() == (procs - 1) * 60 + (msgs - 1) * 20,
                forall|i: int| 0 <= i < v@.len() ==> #[trigger] v@[i] == matrix_entry(i),
            decreases max - msgs,
        {
            let mut paralell: u32 = 0;
            while paralell < max + 1
                invariant
                    max == 4,
                    1 <= procs < 4,
                    1 <= msgs < 4,
                    0 <= paralell <= 5,
                    v@.len() == (procs - 1) * 60 + (msgs - 1) * 20 + paralell * 4,
                    forall|i: int| 0 <= i < v@.len() ==> #[trigger] v@[i] == matrix_entry(i),
                decreases max + 1 - paralell,
            {
                let mut size: u32 = 1;
                while size < max + 1
                    invariant
                        max == 4,
                        1 <= procs < 4,
                        1 <= msgs < 4,
                        0 <= paralell < 5,
                        1 <= size <= 5,
                        v@.len() == (procs - 1) * 60 + (msgs - 1) * 20 + paralell * 4 + (size
                            - 1),
                        forall|i: int| 0 <= i < v@.len() ==> #[trigger] v@[i] == matrix_entry(i),
                    decreases max + 1 - size,
                {
                    proof {
                        lemma_matrix_powers();
                    }
                    let ghost at = v@.len() as int;
                    let entry = Spec {
                        procs: pow(10, procs),
                        messages: pow(10, msgs),
                        paralell: pow(2, paralell),
                        size: pow(10, size),
                    };
                    assert(at / 60 == procs - 1);
                    assert((at / 20) % 3 == msgs - 1);
                    assert((at / 4) % 5 == paralell);
                    assert(at % 4 == size - 1);
                    assert(entry == matrix_entry(at));
                    v.push(entry);
                    size = size + 1;
                }
                paralell = paralell + 1;
            }
            msgs = msgs + 1;
        }
        procs = procs + 1;
    }
    v
}

/// Why a set of parameters cannot be run.
#[derive(Debug, PartialEq, Eq, Structural, Clone, Copy)]
pub enum ConfigError {
    /// The ring would have no worker.
    EmptyRing,
}

impl Spec {
    /// Whether a ring can be built from these parameters: it needs at least
    /// one worker.
    pub open spec fn valid(&self) -> bool {
        self.procs >= 1
    }

    /// Accepts the parameters, or says why they cannot be run.
    pub fn validate(&self) -> (r: core::result::Result<(), ConfigError>)
        ensures
            r is Ok <==> self.valid(),
            r is Err ==> r == core::result::Result::<(), ConfigError>::Err(ConfigError::EmptyRing),
    {
        if self.procs == 0 {
            Err(ConfigError::EmptyRing)
        } else {
            Ok(())
        }
    }

    /// The payload of a run: `size` times the letter x.
    pub fn payload(&self) -> (data: String)
        ensures
            data@ == Seq::new(self.size as nat, |i: int| 'x'),
    {
        let mut data = String::new();
        let mut i: u32 = 0;
        while i < self.size
            invariant
                i <= self.size,
                data@ == Seq::new(i as nat, |j: int| 'x'),
            decreases self.size - i,
        {
            proof {
                reveal_strlit("x");
            }
            data.append("x");
            i = i + 1;
            assert(data@ =~= Seq::new(i as nat, |j: int| 'x'));
        }
        data
    }

    /// The sentence that describes the parameters.
    pub open spec fn text(&self) -> Seq<char> {
        decimal(self.procs as nat) + " procs with "@ + decimal(self.messages as nat)
            + " messages "@ + decimal(self.paralell as nat) + " in paralell of a size of "@
            + decimal(self.size as nat)
    }

    /// Renders the parameters as a sentence for progress output.
    pub fn to_string(&self) -> (s: String)
        ensures
            s@ == self.text(),
    {
        let mut s = String::new();
        push_decimal(&mut s, self.procs as u64);
        s.append(" procs with ");
        push_decimal(&mut s, self.messages as u64);
        s.append(" messages ");
        push_decimal(&mut s, self.paralell as u64);
        s.append(" in paralell of a size of ");
        push_decimal(&mut s, self.size as u64);
        assert(s@ =~= self.text());
        s
    }
}

/// The outcome of one benchmark run.
#[derive(Debug, PartialEq, Eq)]
pub struct Result {
    /// Name of the substrate that ran the ring.
    pub name: String,
    /// The parameters of the run.
    pub spec: Spec,
    /// Nanoseconds spent building and closing the ring.
    pub setup: u64,
    /// Nanoseconds spent circulating payloads.
    pub run: u64,
}

impl Clone for Result {
    fn clone(&self) -> (r: Self)
        ensures
            r == *self,
    {
        Result { name: self.name.clone(), spec: self.spec.clone(), setup: self.setup, run: self.run }
    }
}

/// The time from `start` to `end`, and zero where the clock stepped back.
pub open spec fn span(start: u64, end: u64) -> u64 {
    if end >= start {
        (end - start) as u64
    } else {
        0
    }
}

/// Nanoseconds that passed between two readings of the clock.
pub fn elapsed(start: u64, end: u64) -> (d: u64)
    ensures
        d == span(start, end),
{
    if end >= start {
        end - start
    } else {
        0
    }
}

impl Result {
    /// The result of a run from the three readings of the clock: before the
    /// ring was built, once it was closed, and when the trip budget ran out.
    pub fn measured(name: &str, spec: &Spec, begun: u64, closed: u64, done: u64) -> (r: Result)
        ensures
            r.name@ == name@,
            r.spec == *spec,
            r.setup == span(begun, closed),
            r.run == span(closed, done),
    {
        Result {
            name: String::from_str(name),
            spec: spec.clone(),
            setup: elapsed(begun, closed),
            run: elapsed(closed, done),
        }
    }

    /// The comma-separated record of the result: name, ring size, trip
    /// count, parallelism, payload size, setup time and run time.
    pub open spec fn record(&self) -> Seq<char> {
        self.name@ + ","@ + decimal(self.spec.procs as nat) + ","@ + decimal(
            self.spec.messages as nat,
        ) + ","@ + decimal(self.spec.paralell as nat) + ","@ + decimal(self.spec.size as nat)
            + ","@ + decimal(self.setup as nat) + ","@ + decimal(self.run as nat)
    }

    /// Renders the result as one comma-separated record.
    pub fn to_string(&self) -> (s: String)
        ensures
            s@ == self.record(),
    {
        let mut s = self.name.clone();
        s.append(",");
        push_decimal(&mut s, self.spec.procs as u64);
        s.append(",");
        push_decimal(&mut s, self.spec.messages as u64);
        s.append(",");
        push_decimal(&mut s, self.spec.paralell as u64);
        s.append(",");
        push_decimal(&mut s, self.spec.size as u64);
        s.append(",");
        push_decimal(&mut s, self.setup);
        s.append(",");
        push_decimal(&mut s, self.run);
        s
    }
}

} // verus!
