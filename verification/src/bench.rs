//! Benchmark support: a deterministic pseudo-random generator for
//! datasets, and the measurements a benchmark run records.

use vstd::prelude::*;
use vstd::relations::sorted_by;

verus! {

/// One xorshift64 step (shifts 13, 7, 17).
pub open spec fn xorshift(x: u64) -> u64 {
    let a = x ^ (x << 13u64);
    let b = a ^ (a >> 7u64);
    b ^ (b << 17u64)
}

/// The states the generator goes through from `state`, `n` steps on.
pub open spec fn xorshift_iter(state: u64, n: nat) -> u64
    decreases n,
{
    if n == 0 {
        state
    } else {
        xorshift_iter(xorshift(state), (n - 1) as nat)
    }
}

/// Simple deterministic pseudo-random generator (xorshift64).
pub struct Rng {
    state: u64,
}

impl View for Rng {
    type V = u64;

    /// The generator's state.
    closed spec fn view(&self) -> u64 {
        self.state
    }
}

/// The lowercase ASCII letter a 32-bit draw stands for.
pub open spec fn letter_of(x: u32) -> char {
    ((x % 26) as u8 + 97u8) as char
}

/// The 32-bit draw a 64-bit draw is cut down to.
pub open spec fn draw32(x: u64) -> u32 {
    (x >> 16u64) as u32
}

/// The `n` letters generated from `state`.
pub open spec fn letters_from(state: u64, n: nat) -> Seq<char>
    decreases n,
{
    if n == 0 {
        Seq::empty()
    } else {
        seq![letter_of(draw32(xorshift(state)))] + letters_from(xorshift(state), (n - 1) as nat)
    }
}

/// The `n` bytes generated from `state`.
pub open spec fn bytes_from(state: u64, n: nat) -> Seq<u8>
    decreases n,
{
    if n == 0 {
        Seq::empty()
    } else {
        seq![(xorshift(state) & 0xFF) as u8] + bytes_from(xorshift(state), (n - 1) as nat)
    }
}

/// A nonzero state never steps to zero: the generator cannot get stuck.
pub proof fn law_xorshift_nonzero(x: u64)
    requires
        x != 0,
    ensures
        xorshift(x) != 0,
{
    assert(x != 0 ==> (x ^ (x << 13u64)) != 0) by (bit_vector);
    let a = x ^ (x << 13u64);
    assert(a != 0 ==> (a ^ (a >> 7u64)) != 0) by (bit_vector);
    let b = a ^ (a >> 7u64);
    assert(b != 0 ==> (b ^ (b << 17u64)) != 0) by (bit_vector);
}

impl Rng {
    /// A generator seeded with `seed`; seed 0 is replaced by 1.
    pub fn new(seed: u64) -> (r: Self)
        ensures
            r@ == (if seed == 0 { 1 } else { seed }),
            r@ != 0,
    {
        Rng { state: if seed == 0 { 1 } else { seed } }
    }

    /// The next 64-bit value, which is also the new state.
    pub fn next_u64(&mut self) -> (r: u64)
        ensures
            r == xorshift(old(self)@),
            final(self)@ == r,
            old(self)@ != 0 ==> final(self)@ != 0,
    {
        let mut x = self.state;
        x = x ^ (x << 13);
        x = x ^ (x >> 7);
        x = x ^ (x << 17);
        self.state = x;
        proof {
            if old(self)@ != 0 {
                law_xorshift_nonzero(old(self)@);
            }
        }
        x
    }

    /// The next 32-bit value: bits 16 to 47 of the next 64-bit value.
    pub fn next_u32(&mut self) -> (r: u32)
        ensures
            r == draw32(xorshift(old(self)@)),
            final(self)@ == xorshift(old(self)@),
    {
        (self.next_u64() >> 16) as u32
    }

    /// A string of `len` lowercase ASCII letters.
    pub fn next_string(&mut self, len: usize) -> (s: String)
        ensures
            s@ == letters_from(old(self)@, len as nat),
            final(self)@ == xorshift_iter(old(self)@, len as nat),
    {
        let mut s = String::new();
        let mut i: usize = 0;
        let ghost start = self@;
        while i < len
            invariant
                i <= len,
                letters_from(start, len as nat) == s@ + letters_from(self@, (len - i) as nat),
                xorshift_iter(start, len as nat) == xorshift_iter(self@, (len - i) as nat),
            decreases len - i,
        {
            let ghost st = self@;
            let c = ((self.next_u32() % 26) as u8 + 97u8) as char;
            crate::render::string_push(&mut s, c);
            proof {
                assert(((len - i) as nat - 1) as nat == (len - (i + 1)) as nat);
                assert(c == letter_of(draw32(xorshift(st))));
                let rest = letters_from(self@, (len - (i + 1)) as nat);
                assert(s@ + rest =~= (s@.drop_last() + seq![c]) + rest);
                assert((s@.drop_last() + seq![c]) + rest =~= s@.drop_last() + (seq![c] + rest));
            }
            i = i + 1;
        }
        proof {
            assert(s@ + Seq::<char>::empty() =~= s@);
        }
        s
    }

    /// A value in `0..max`: the next 64-bit value modulo `max`.
    pub fn next_range(&mut self, max: u64) -> (r: u64)
        requires
            max > 0,
        ensures
            r == xorshift(old(self)@) % max,
            final(self)@ == xorshift(old(self)@),
    {
        self.next_u64() % max
    }

    /// `len` bytes: the low byte of each of the next `len` 64-bit values.
    pub fn next_bytes(&mut self, len: usize) -> (v: Vec<u8>)
        ensures
            v@ == bytes_from(old(self)@, len as nat),
            final(self)@ == xorshift_iter(old(self)@, len as nat),
    {
        let mut v: Vec<u8> = Vec::new();
        let mut i: usize = 0;
        let ghost start = self@;
        while i < len
            invariant
                i <= len,
                bytes_from(start, len as nat) == v@ + bytes_from(self@, (len - i) as nat),
                xorshift_iter(start, len as nat) == xorshift_iter(self@, (len - i) as nat),
            decreases len - i,
        {
            let ghost before = v@;
            let b = (self.next_u64() & 0xFF) as u8;
            v.push(b);
            proof {
                assert(((len - i) as nat - 1) as nat == (len - (i + 1)) as nat);
                let rest = bytes_from(self@, (len - (i + 1)) as nat);
                assert(before + (seq![b] + rest) =~= v@ + rest);
            }
            i = i + 1;
        }
        proof {
            assert(v@ + Seq::<u8>::empty() =~= v@);
        }
        v
    }
}

/// The ascending order on durations.
pub open spec fn ascending() -> spec_fn(u64, u64) -> bool {
    |a: u64, b: u64| a <= b
}

/// Sorts `v` in place by calling `slice::sort_unstable`, which, as its
/// documentation says, leaves the same elements in ascending order.
#[verifier::external_body]
fn sort_unstable_u64(v: &mut Vec<u64>)
    ensures
        final(v)@.to_multiset() == old(v)@.to_multiset(),
        sorted_by(final(v)@, ascending()),
{
    v.sort_unstable();
}

/// All metrics for a single (format, dataset, operation) measurement.
#[derive(Debug, Clone)]
pub struct Measurement {
    pub format: String,
    pub dataset: String,
    /// "encode", "decode" or "roundtrip".
    pub operation: String,
    /// Individual run durations, in nanoseconds.
    pub durations_ns: Vec<u64>,
    /// Serialized size in bytes (for encode).
    pub serialized_size: Option<usize>,
    /// Peak RSS delta in bytes (if measurable).
    pub peak_rss_bytes: Option<usize>,
}

/// The durations of `m`, in ascending order.
pub open spec fn sorted_durations(m: Measurement) -> Seq<u64> {
    m.durations_ns@.sort_by(ascending())
}

/// The index in ascending order of the `pct`-th percentile of `n`
/// durations: the smallest index whose rank covers `pct` percent of them,
/// `ceil(n * pct / 100) - 1`, kept within the durations.
pub open spec fn percentile_index(n: nat, pct: nat) -> int {
    let i = (n * pct + 99) / 100 - 1;
    if i < 0 {
        0
    } else if i > n - 1 {
        n - 1
    } else {
        i
    }
}

impl Measurement {
    /// An empty measurement for a format, dataset and operation.
    pub fn new(format: &str, dataset: &str, operation: &str) -> (m: Self)
        ensures
            m.format@ == format@,
            m.dataset@ == dataset@,
            m.operation@ == operation@,
            m.durations_ns@ == Seq::<u64>::empty(),
            m.serialized_size is None,
            m.peak_rss_bytes is None,
    {
        Measurement {
            format: format.to_owned(),
            dataset: dataset.to_owned(),
            operation: operation.to_owned(),
            durations_ns: Vec::new(),
            serialized_size: None,
            peak_rss_bytes: None,
        }
    }

    /// Record a run that took `nanos` nanoseconds (as `Duration::as_nanos`
    /// gives it), kept as its low 64 bits.
    pub fn add_duration(&mut self, nanos: u128)
        ensures
            final(self).durations_ns@ == old(self).durations_ns@.push(nanos as u64),
            final(self).format == old(self).format,
            final(self).dataset == old(self).dataset,
            final(self).operation == old(self).operation,
            final(self).serialized_size == old(self).serialized_size,
            final(self).peak_rss_bytes == old(self).peak_rss_bytes,
    {
        self.durations_ns.push(nanos as u64);
    }

    /// The durations in ascending order.
    fn sorted(&self) -> (v: Vec<u64>)
        ensures
            v@ == sorted_durations(*self),
    {
        let mut v = self.durations_ns.clone();
        sort_unstable_u64(&mut v);
        proof {
            self.durations_ns@.lemma_sort_by_ensures(ascending());
            vstd::seq_lib::lemma_sorted_unique(v@, sorted_durations(*self), ascending());
        }
        v
    }

    /// Median duration in nanoseconds: the middle one in ascending order
    /// (the upper one of the two middle ones for an even count); 0 when
    /// there is none.
    pub fn median_ns(&self) -> (r: u64)
        ensures
            self.durations_ns@.len() == 0 ==> r == 0,
            self.durations_ns@.len() > 0 ==> r == sorted_durations(*self)[(self.durations_ns@.len() / 2) as int],
    {
        if self.durations_ns.len() == 0 {
            return 0;
        }
        let sorted = self.sorted();
        proof {
            self.durations_ns@.lemma_sort_by_ensures(ascending());
            vstd::seq_lib::to_multiset_len(sorted@);
            vstd::seq_lib::to_multiset_len(self.durations_ns@);
        }
        let n = sorted.len();
        sorted[n / 2]
    }

    /// The duration at the `pct`-th percentile of the ascending order.
    fn percentile(&self, pct: u64) -> (r: u64)
        requires
            self.durations_ns@.len() > 0,
            pct <= 100,
        ensures
            r == sorted_durations(*self)[percentile_index(self.durations_ns@.len(), pct as nat)],
    {
        let sorted = self.sorted();
        proof {
            self.durations_ns@.lemma_sort_by_ensures(ascending());
            vstd::seq_lib::to_multiset_len(sorted@);
            vstd::seq_lib::to_multiset_len(self.durations_ns@);
        }
        let n = sorted.len();
        assert((n as int) * (pct as int) <= (n as int) * 100) by (nonlinear_arith)
            requires
                pct <= 100,
        ;
        assert(((n as int) * (pct as int) + 99) / 100 <= n) by (nonlinear_arith)
            requires
                (n as int) * (pct as int) <= (n as int) * 100,
        ;
        let scaled: u128 = (n as u128) * (pct as u128) + 99;
        let rank = (scaled / 100) as usize;
        let idx = if rank == 0 {
            0
        } else if rank - 1 > n - 1 {
            n - 1
        } else {
            rank - 1
        };
        sorted[idx]
    }

    /// p95 duration in nanoseconds; 0 when there is none.
    pub fn p95_ns(&self) -> (r: u64)
        ensures
            self.durations_ns@.len() == 0 ==> r == 0,
            self.durations_ns@.len() > 0 ==> r == sorted_durations(*self)[percentile_index(
                self.durations_ns@.len(),
                95,
            )],
    {
        if self.durations_ns.len() == 0 {
            return 0;
        }
        self.percentile(95)
    }

    /// p99 duration in nanoseconds; 0 when there is none.
    pub fn p99_ns(&self) -> (r: u64)
        ensures
            self.durations_ns@.len() == 0 ==> r == 0,
            self.durations_ns@.len() > 0 ==> r == sorted_durations(*self)[percentile_index(
                self.durations_ns@.len(),
                99,
            )],
    {
        if self.durations_ns.len() == 0 {
            return 0;
        }
        self.percentile(99)
    }

    /// The shortest duration; 0 when there is none.
    pub fn min_ns(&self) -> (r: u64)
        ensures
            self.durations_ns@.len() == 0 ==> r == 0,
            self.durations_ns@.len() > 0 ==> self.durations_ns@.contains(r),
            forall|i: int| 0 <= i < self.durations_ns@.len() ==> r <= self.durations_ns@[i],
    {
        if self.durations_ns.len() == 0 {
            return 0;
        }
        let mut best = self.durations_ns[0];
        let mut i: usize = 1;
        while i < self.durations_ns.len()
            invariant
                1 <= i <= self.durations_ns@.len(),
                self.durations_ns@.contains(best),
                forall|j: int| 0 <= j < i ==> best <= self.durations_ns@[j],
            decreases self.durations_ns@.len() - i,
        {
            if self.durations_ns[i] < best {
                best = self.durations_ns[i];
            }
            i = i + 1;
        }
        best
    }

    /// The longest duration; 0 when there is none.
    pub fn max_ns(&self) -> (r: u64)
        ensures
            self.durations_ns@.len() == 0 ==> r == 0,
            self.durations_ns@.len() > 0 ==> self.durations_ns@.contains(r),
            forall|i: int| 0 <= i < self.durations_ns@.len() ==> r >= self.durations_ns@[i],
    {
        if self.durations_ns.len() == 0 {
            return 0;
        }
        let mut best = self.durations_ns[0];
        let mut i: usize = 1;
        while i < self.durations_ns.len()
            invariant
                1 <= i <= self.durations_ns@.len(),
                self.durations_ns@.contains(best),
                forall|j: int| 0 <= j < i ==> best >= self.durations_ns@[j],
            decreases self.durations_ns@.len() - i,
        {
            if self.durations_ns[i] > best {
                best = self.durations_ns[i];
            }
            i = i + 1;
        }
        best
    }
}

/// System hardware and software information, for reproducibility.
#[derive(Debug, Clone)]
pub struct SystemInfo {
    pub os: String,
    pub arch: String,
    pub cpu_model: String,
    pub cpu_cores: usize,
    pub ram_mb: u64,
    pub rust_version: String,
}

/// A complete benchmark report with all measurements.
#[derive(Debug, Clone)]
pub struct BenchReport {
    /// Commit hash or version tag.
    pub version: String,
    /// Timestamp (ISO 8601).
    pub timestamp: String,
    /// System information.
    pub system: SystemInfo,
    /// Benchmark mode.
    pub mode: String,
    /// Dataset version.
    pub dataset_version: String,
    /// All measurements.
    pub measurements: Vec<Measurement>,
}

/// How serious a detected regression is.
#[derive(Debug, Clone, Copy, PartialEq, Eq, Structural)]
pub enum Severity {
    Warning,
    Failure,
}

} // verus!
