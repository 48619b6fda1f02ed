//! Rolling telemetry history that feeds the sparklines.
use vstd::prelude::*;

verus! {

/// How many samples a series keeps.
pub const CAP: usize = 72;

/// The most recent `n` elements of `s` (all of `s` when it is shorter).
pub open spec fn recent(s: Seq<u64>, n: nat) -> Seq<u64> {
    if s.len() <= n {
        s
    } else {
        s.subrange(s.len() - n, s.len() as int)
    }
}

/// The smallest element of `s` (0 for an empty sequence).
pub open spec fn seq_min(s: Seq<u64>) -> u64
    decreases s.len(),
{
    if s.len() == 0 {
        0
    } else if s.len() == 1 {
        s[0]
    } else {
        let m = seq_min(s.drop_last());
        if s.last() < m {
            s.last()
        } else {
            m
        }
    }
}

/// The largest element of `s` (0 for an empty sequence).
pub open spec fn seq_max(s: Seq<u64>) -> u64
    decreases s.len(),
{
    if s.len() == 0 {
        0
    } else if s.len() == 1 {
        s[0]
    } else {
        let m = seq_max(s.drop_last());
        if s.last() > m {
            s.last()
        } else {
            m
        }
    }
}

/// Level drawn for sample `v` at position `i` of a nearly flat series:
/// a baseline of 35 plus a small offset from the value and a wobble from the position.
pub open spec fn flat_level(i: int, v: u64) -> u64 {
    let capped: u64 = if v < 100 { v } else { 100 };
    (35 + capped % 20 + i % 7) as u64
}

/// Level of sample `v` when the series spans `lo ..= lo + span`: a linear map onto `1 ..= 100`.
pub open spec fn scaled_level(v: u64, lo: u64, span: u64) -> u64 {
    ((v - lo) * 99 / (span as int) + 1) as u64
}

/// The sparkline levels of a series.
pub open spec fn normalized_levels(s: Seq<u64>) -> Seq<u64> {
    if s.len() == 0 {
        Seq::new(8, |i: int| 1u64)
    } else {
        let lo = seq_min(s);
        let span = (seq_max(s) - lo) as u64;
        if span <= 2 {
            Seq::new(s.len(), |i: int| flat_level(i, s[i]))
        } else {
            Seq::new(s.len(), |i: int| scaled_level(s[i], lo, span))
        }
    }
}

/// The series is small enough in range that scaling it cannot overflow.
pub open spec fn scalable(s: Seq<u64>) -> bool {
    (seq_max(s) - seq_min(s)) * 99 <= u64::MAX
}

/// Every element lies between the minimum and the maximum.
pub proof fn lemma_min_max_bound(s: Seq<u64>)
    ensures
        forall|j: int| 0 <= j < s.len() ==> seq_min(s) <= #[trigger] s[j] <= seq_max(s),
    decreases s.len(),
{
    if s.len() > 1 {
        lemma_min_max_bound(s.drop_last());
        assert forall|j: int| 0 <= j < s.len() implies seq_min(s) <= #[trigger] s[j] <= seq_max(
            s,
        ) by {
            if j < s.len() - 1 {
                assert(s[j] == s.drop_last()[j]);
            }
        }
    }
}

/// The minimum and the maximum are elements of a nonempty sequence.
proof fn lemma_min_max_attained(s: Seq<u64>)
    requires
        s.len() > 0,
    ensures
        exists|j: int| 0 <= j < s.len() && s[j] == seq_min(s),
        exists|j: int| 0 <= j < s.len() && s[j] == seq_max(s),
    decreases s.len(),
{
    if s.len() == 1 {
        assert(s[0] == seq_min(s));
        assert(s[0] == seq_max(s));
    } else {
        let t = s.drop_last();
        lemma_min_max_attained(t);
        let a = choose|j: int| 0 <= j < t.len() && t[j] == seq_min(t);
        let b = choose|j: int| 0 <= j < t.len() && t[j] == seq_max(t);
        assert(s[a] == t[a]);
        assert(s[b] == t[b]);
        let l = s.len() - 1;
        if s[l] < seq_min(t) {
            assert(s[l] == seq_min(s));
        } else {
            assert(s[a] == seq_min(s));
        }
        if s[l] > seq_max(t) {
            assert(s[l] == seq_max(s));
        } else {
            assert(s[b] == seq_max(s));
        }
    }
}

/// Every level drawn for a scalable series lies in `1 ..= 100`, and there is one level per
/// sample (eight for an empty series).
pub proof fn lemma_levels_in_range(s: Seq<u64>)
    requires
        scalable(s),
    ensures
        normalized_levels(s).len() == if s.len() == 0 { 8 } else { s.len() },
        forall|i: int|
            0 <= i < normalized_levels(s).len() ==> 1 <= #[trigger] normalized_levels(s)[i] <= 100,
{
    lemma_min_max_bound(s);
    let out = normalized_levels(s);
    if s.len() > 0 {
        let lo = seq_min(s);
        let span = (seq_max(s) - lo) as u64;
        if span > 2 {
            assert forall|i: int| 0 <= i < out.len() implies 1 <= #[trigger] out[i] <= 100 by {
                let d = (s[i] - lo) as int;
                assert(d * 99 / (span as int) <= 99) by (nonlinear_arith)
                    requires
                        0 <= d <= span,
                        span > 2,
                ;
                assert(d * 99 / (span as int) >= 0) by (nonlinear_arith)
                    requires
                        0 <= d,
                        span > 2,
                ;
            }
        }
    }
}

/// When a series is not flat, its smallest sample is drawn at level 1 and its largest at 100.
pub proof fn lemma_levels_span_full_height(s: Seq<u64>, i: int)
    requires
        0 <= i < s.len(),
        seq_max(s) - seq_min(s) > 2,
    ensures
        s[i] == seq_min(s) ==> normalized_levels(s)[i] == 1,
        s[i] == seq_max(s) ==> normalized_levels(s)[i] == 100,
{
    let span = (seq_max(s) - seq_min(s)) as int;
    assert((span * 99) / span == 99) by (nonlinear_arith)
        requires
            span > 2,
    ;
}

/// A series that is not flat is drawn across the full height: some sample at level 1 and
/// some sample at level 100.
pub proof fn lemma_levels_reach_floor_and_top(s: Seq<u64>)
    requires
        s.len() > 0,
        seq_max(s) - seq_min(s) > 2,
    ensures
        exists|i: int| 0 <= i < s.len() && normalized_levels(s)[i] == 1,
        exists|j: int| 0 <= j < s.len() && normalized_levels(s)[j] == 100,
{
    lemma_min_max_attained(s);
    let i = choose|i: int| 0 <= i < s.len() && s[i] == seq_min(s);
    let j = choose|j: int| 0 <= j < s.len() && s[j] == seq_max(s);
    lemma_levels_span_full_height(s, i);
    lemma_levels_span_full_height(s, j);
}

/// What each sparkline level is, in terms of the samples alone. Let `lo` and `hi` be the
/// smallest and largest sample (given here by their defining properties):
/// - an empty series draws eight bars at level 1;
/// - when `hi - lo > 2`, sample `s[i]` is drawn at `(s[i] - lo) * 99 / (hi - lo) + 1`, the
///   linear map of `lo ..= hi` onto `1 ..= 100`;
/// - otherwise (a nearly flat signal) at `35 + min(s[i], 100) % 20 + i % 7`.
pub proof fn lemma_levels_formula(s: Seq<u64>, lo: u64, hi: u64)
    requires
        s.len() > 0 ==> (forall|j: int| 0 <= j < s.len() ==> lo <= #[trigger] s[j] <= hi),
        s.len() > 0 ==> (exists|a: int| 0 <= a < s.len() && s[a] == lo),
        s.len() > 0 ==> (exists|b: int| 0 <= b < s.len() && s[b] == hi),
    ensures
        s.len() == 0 ==> normalized_levels(s) == Seq::new(8, |i: int| 1u64),
        s.len() > 0 ==> normalized_levels(s).len() == s.len(),
        s.len() > 0 && hi - lo > 2 ==> forall|i: int|
            0 <= i < s.len() ==> #[trigger] normalized_levels(s)[i] == (s[i] - lo) * 99 / ((hi
                - lo) as int) + 1,
        s.len() > 0 && hi - lo <= 2 ==> forall|i: int|
            0 <= i < s.len() ==> #[trigger] normalized_levels(s)[i] == 35 + (if s[i] < 100 {
                s[i] as int
            } else {
                100
            }) % 20 + i % 7,
{
    if s.len() > 0 {
        lemma_min_max_bound(s);
        lemma_min_max_attained(s);
        let a = choose|a: int| 0 <= a < s.len() && s[a] == lo;
        let b = choose|b: int| 0 <= b < s.len() && s[b] == hi;
        let a2 = choose|j: int| 0 <= j < s.len() && s[j] == seq_min(s);
        let b2 = choose|j: int| 0 <= j < s.len() && s[j] == seq_max(s);
        assert(seq_min(s) <= s[a] && lo <= s[a2]);
        assert(seq_max(s) >= s[b] && hi >= s[b2]);
        assert(seq_min(s) == lo && seq_max(s) == hi);
        if hi - lo > 2 {
            assert forall|i: int| 0 <= i < s.len() implies #[trigger] normalized_levels(s)[i] == (
            s[i] - lo) * 99 / ((hi - lo) as int) + 1 by {
                let d = (s[i] - lo) as int;
                let span = (hi - lo) as int;
                assert(d * 99 / span <= 99) by (nonlinear_arith)
                    requires
                        0 <= d <= span,
                        span > 2,
                ;
                assert(d * 99 / span >= 0) by (nonlinear_arith)
                    requires
                        0 <= d,
                        span > 2,
                ;
            }
        }
    }
}

/// In a series that is not flat, a larger sample is never drawn lower than a smaller one.
pub proof fn lemma_levels_monotone(s: Seq<u64>, i: int, j: int)
    requires
        0 <= i < s.len(),
        0 <= j < s.len(),
        s[i] <= s[j],
        seq_max(s) - seq_min(s) > 2,
    ensures
        normalized_levels(s)[i] <= normalized_levels(s)[j],
{
    lemma_min_max_bound(s);
    let lo = seq_min(s);
    let span = (seq_max(s) - lo) as int;
    let a = (s[i] - lo) as int;
    let b = (s[j] - lo) as int;
    assert(a * 99 <= b * 99) by (nonlinear_arith)
        requires
            a <= b,
    ;
    vstd::arithmetic::div_mod::lemma_div_is_ordered(a * 99, b * 99, span);
    assert(a * 99 / span <= 99) by (nonlinear_arith)
        requires
            0 <= a <= span,
            span > 2,
    ;
    assert(b * 99 / span <= 99) by (nonlinear_arith)
        requires
            0 <= b <= span,
            span > 2,
    ;
}

/// What a push does, stated over the samples directly: the series grows by one until it holds
/// 72 samples and then stays at 72; the new sample is the newest; the others are the newest of
/// the samples held before, in their order.
pub proof fn lemma_push_keeps_newest(old: Seq<u64>, value: u64)
    requires
        old.len() <= 72,
    ensures
        ({
            let new = recent(old.push(value), CAP as nat);
            &&& new.len() == if old.len() < 72 { old.len() + 1 } else { 72 }
            &&& new[new.len() - 1] == value
            &&& forall|i: int|
                0 <= i < new.len() - 1 ==> #[trigger] new[i] == old[old.len() - (new.len() - 1) + i]
        }),
{
}

/// The contents of a series after pushing each of `values` in turn.
pub open spec fn after_pushes(s: Seq<u64>, values: Seq<u64>) -> Seq<u64>
    decreases values.len(),
{
    if values.len() == 0 {
        s
    } else {
        recent(after_pushes(s, values.drop_last()).push(values.last()), CAP as nat)
    }
}

/// However many samples are pushed, a series holds exactly the most recent `CAP` of all the
/// samples it has seen, oldest first.
pub proof fn lemma_pushes_keep_most_recent(s: Seq<u64>, values: Seq<u64>)
    requires
        s.len() <= CAP,
    ensures
        after_pushes(s, values) == recent(s + values, CAP as nat),
    decreases values.len(),
{
    if values.len() > 0 {
        let init = values.drop_last();
        lemma_pushes_keep_most_recent(s, init);
        let all = s + values;
        assert(all == (s + init).push(values.last()));
        let prev = recent(s + init, CAP as nat);
        let pl = prev.push(values.last());
        if (s + init).len() > CAP {
            assert(recent(pl, CAP as nat) =~= recent(all, CAP as nat));
        } else {
            assert(recent(pl, CAP as nat) =~= recent(all, CAP as nat));
        }
    }
}

fn min_max(data: &Vec<u64>) -> (r: (u64, u64))
    requires
        data@.len() > 0,
    ensures
        r.0 == seq_min(data@),
        r.1 == seq_max(data@),
{
    let n = data.len();
    let mut lo = data[0];
    let mut hi = data[0];
    let mut i: usize = 1;
    while i < n
        invariant
            n == data@.len(),
            1 <= i <= n,
            lo == seq_min(data@.take(i as int)),
            hi == seq_max(data@.take(i as int)),
        decreases n - i,
    {
        assert(data@.take(i + 1).drop_last() == data@.take(i as int));
        let v = data[i];
        if v < lo {
            lo = v;
        }
        if v > hi {
            hi = v;
        }
        i += 1;
    }
    assert(data@.take(n as int) == data@);
    (lo, hi)
}

/// A bounded history of samples, oldest first.
pub struct Series {
    data: Vec<u64>,
}

impl View for Series {
    type V = Seq<u64>;

    closed spec fn view(&self) -> Seq<u64> {
        self.data@
    }
}

impl Series {
    #[verifier::type_invariant]
    spec fn bounded(&self) -> bool {
        self.data@.len() <= CAP
    }

    /// The number of samples held.
    pub fn len(&self) -> (n: usize)
        ensures
            n == self@.len(),
            n <= CAP,
    {
        proof {
            use_type_invariant(self);
        }
        self.data.len()
    }

    /// The samples, oldest first.
    pub fn values(&self) -> (v: Vec<u64>)
        ensures
            v@ == self@,
    {
        self.data.clone()
    }

    /// Whether the series can be normalised without overflow (see `scalable`).
    pub fn is_scalable(&self) -> (ok: bool)
        ensures
            ok == scalable(self@),
    {
        if self.data.len() == 0 {
            return true;
        }
        let (lo, hi) = min_max(&self.data);
        hi - lo <= u64::MAX / 99
    }

    /// Min-max normalises the series into `1 ..= 100` so that flat signals still show shape.
    /// An empty series draws eight bars of height 1.
    pub fn normalized(&self) -> (levels: Vec<u64>)
        requires
            scalable(self@),
        ensures
            levels@ == normalized_levels(self@),
    {
        proof {
            use_type_invariant(self);
        }
        let n = self.data.len();
        if n == 0 {
            return vec![1; 8];
        }
        let (lo, hi) = min_max(&self.data);
        proof {
            lemma_min_max_bound(self.data@);
        }
        let span = hi - lo;
        let mut levels: Vec<u64> = Vec::new();
        let mut k: usize = 0;
        if span <= 2 {
            while k < n
                invariant
                    n == self.data@.len(),
                    k <= n,
                    levels@.len() == k,
                    forall|j: int| 0 <= j < k ==> levels@[j] == flat_level(j, self.data@[j]),
                decreases n - k,
            {
                let v = self.data[k];
                let capped = if v < 100 { v } else { 100 };
                levels.push(35 + capped % 20 + (k % 7) as u64);
                k += 1;
            }
        } else {
            while k < n
                invariant
                    n == self.data@.len(),
                    k <= n,
                    lo == seq_min(self.data@),
                    hi == seq_max(self.data@),
                    span == hi - lo,
                    span > 2,
                    span * 99 <= u64::MAX,
                    forall|j: int| 0 <= j < n ==> lo <= #[trigger] self.data@[j] <= hi,
                    levels@.len() == k,
                    forall|j: int| 0 <= j < k ==> levels@[j] == scaled_level(self.data@[j], lo, span),
                decreases n - k,
            {
                let v = self.data[k];
                let d = v - lo;
                assert(d * 99 <= span * 99) by (nonlinear_arith)
                    requires
                        d <= span,
                ;
                assert((d * 99) / (span as int) <= 99) by (nonlinear_arith)
                    requires
                        d <= span,
                        span > 2,
                ;
                levels.push(d * 99 / span + 1);
                k += 1;
            }
        }
        assert(levels@ == normalized_levels(self@));
        levels
    }

    /// Appends a sample, dropping the oldest one once more than `CAP` are held.
    pub fn push_raw(&mut self, value: u64)
        ensures
            final(self)@ == recent(old(self)@.push(value), CAP as nat),
            final(self)@.len() <= CAP,
    {
        proof {
            use_type_invariant(&*self);
        }
        let mut data = Vec::new();
        std::mem::swap(&mut data, &mut self.data);
        if data.len() == CAP {
            data.remove(0);
        }
        data.push(value);
        self.data = data;
    }
}


impl Clone for Series {
    fn clone(&self) -> (c: Series)
        ensures
            c@ == self@,
    {
        proof {
            use_type_invariant(self);
        }
        Series { data: self.data.clone() }
    }
}

impl Default for Series {
    fn default() -> (s: Series)
        ensures
            s@ == Seq::<u64>::empty(),
    {
        Series { data: Vec::new() }
    }
}

/// One refresh worth of readings, each in hundredths of its unit
/// (MHz, %, °C, W, % of RAM, Mbps).
pub struct MetricSample {
    pub cpu_clock: u64,
    pub cpu_usage: u64,
    pub gpu_temp: u64,
    pub gpu_clock: u64,
    pub gpu_power: u64,
    pub gpu_usage: u64,
    pub ram_pct: u64,
    pub net_down: u64,
    pub net_up: u64,
}

/// The histories behind each sparkline, plus a refresh counter.
pub struct History {
    pub cpu_clock: Series,
    pub cpu_usage: Series,
    pub gpu_temp: Series,
    pub gpu_clock: Series,
    pub gpu_power: Series,
    pub gpu_usage: Series,
    pub ram_pct: Series,
    pub net_down: Series,
    pub net_up: Series,
    pub tick: u64,
}

/// The readings of a sample in series order: CPU clock, CPU usage, GPU temperature,
/// GPU clock, GPU power, GPU usage, RAM use, download, upload.
pub open spec fn sample_values(m: MetricSample) -> Seq<u64> {
    seq![
        m.cpu_clock,
        m.cpu_usage,
        m.gpu_temp,
        m.gpu_clock,
        m.gpu_power,
        m.gpu_usage,
        m.ram_pct,
        m.net_down,
        m.net_up,
    ]
}

/// The refresh counter and the contents of the nine series, in the order of `sample_values`.
pub open spec fn history_view(h: History) -> (u64, Seq<Seq<u64>>) {
    (
        h.tick,
        seq![
            h.cpu_clock@,
            h.cpu_usage@,
            h.gpu_temp@,
            h.gpu_clock@,
            h.gpu_power@,
            h.gpu_usage@,
            h.ram_pct@,
            h.net_down@,
            h.net_up@,
        ],
    )
}

/// The counter after one more refresh (wrapping).
pub open spec fn next_tick(t: u64) -> u64 {
    if t == u64::MAX {
        0
    } else {
        (t + 1) as u64
    }
}

/// One refresh: the counter advances and each series takes its reading.
pub open spec fn refresh_step(v: (u64, Seq<Seq<u64>>), m: MetricSample) -> (u64, Seq<Seq<u64>>) {
    (next_tick(v.0), Seq::new(9, |k: int| recent(v.1[k].push(sample_values(m)[k]), CAP as nat)))
}

/// A history with no refresh yet.
pub open spec fn empty_history() -> (u64, Seq<Seq<u64>>) {
    (0, Seq::new(9, |k: int| Seq::<u64>::empty()))
}

/// The history after refreshing with each of `samples` in turn, starting from the default.
pub open spec fn refreshed(samples: Seq<MetricSample>) -> (u64, Seq<Seq<u64>>)
    decreases samples.len(),
{
    if samples.len() == 0 {
        empty_history()
    } else {
        refresh_step(refreshed(samples.drop_last()), samples.last())
    }
}

/// The readings of series `k` over `samples`.
pub open spec fn readings(samples: Seq<MetricSample>, k: int) -> Seq<u64> {
    samples.map_values(|m: MetricSample| sample_values(m)[k])
}

/// After `n` refreshes from the default history, the counter is `n mod 2^64` and every
/// series holds the most recent `min(n, CAP)` readings of its metric, oldest first, so all
/// series stay in step.
pub proof fn lemma_refreshes_from_default(samples: Seq<MetricSample>)
    ensures
        refreshed(samples).0 == samples.len() % 0x1_0000_0000_0000_0000,
        refreshed(samples).1.len() == 9,
        forall|k: int|
            0 <= k < 9 ==> #[trigger] refreshed(samples).1[k] == recent(readings(samples, k), CAP as nat),
        forall|k: int|
            0 <= k < 9 ==> #[trigger] refreshed(samples).1[k].len() == if samples.len() < CAP {
                samples.len()
            } else {
                CAP as nat
            },
    decreases samples.len(),
{
    let n = samples.len();
    if n > 0 {
        let init = samples.drop_last();
        lemma_refreshes_from_default(init);
        let prev = refreshed(init);
        assert(prev.0 == (n - 1) % 0x1_0000_0000_0000_0000);
        assert forall|k: int| 0 <= k < 9 implies #[trigger] refreshed(samples).1[k] == recent(
            readings(samples, k),
            CAP as nat,
        ) by {
            let r = readings(samples, k);
            let ri = readings(init, k);
            assert(r =~= ri.push(sample_values(samples.last())[k]));
            let pl = prev.1[k].push(sample_values(samples.last())[k]);
            assert(recent(pl, CAP as nat) =~= recent(r, CAP as nat));
        }
    }
}

impl Clone for History {
    fn clone(&self) -> (c: History)
        ensures
            c.tick == self.tick,
            c.cpu_clock@ == self.cpu_clock@,
            c.cpu_usage@ == self.cpu_usage@,
            c.gpu_temp@ == self.gpu_temp@,
            c.gpu_clock@ == self.gpu_clock@,
            c.gpu_power@ == self.gpu_power@,
            c.gpu_usage@ == self.gpu_usage@,
            c.ram_pct@ == self.ram_pct@,
            c.net_down@ == self.net_down@,
            c.net_up@ == self.net_up@,
    {
        History {
            cpu_clock: self.cpu_clock.clone(),
            cpu_usage: self.cpu_usage.clone(),
            gpu_temp: self.gpu_temp.clone(),
            gpu_clock: self.gpu_clock.clone(),
            gpu_power: self.gpu_power.clone(),
            gpu_usage: self.gpu_usage.clone(),
            ram_pct: self.ram_pct.clone(),
            net_down: self.net_down.clone(),
            net_up: self.net_up.clone(),
            tick: self.tick,
        }
    }
}

impl Default for History {
    fn default() -> (h: History)
        ensures
            history_view(h) == empty_history(),
            h.tick == 0,
            h.cpu_clock@ == Seq::<u64>::empty(),
            h.cpu_usage@ == Seq::<u64>::empty(),
            h.gpu_temp@ == Seq::<u64>::empty(),
            h.gpu_clock@ == Seq::<u64>::empty(),
            h.gpu_power@ == Seq::<u64>::empty(),
            h.gpu_usage@ == Seq::<u64>::empty(),
            h.ram_pct@ == Seq::<u64>::empty(),
            h.net_down@ == Seq::<u64>::empty(),
            h.net_up@ == Seq::<u64>::empty(),
    {
        History {
            cpu_clock: Series::default(),
            cpu_usage: Series::default(),
            gpu_temp: Series::default(),
            gpu_clock: Series::default(),
            gpu_power: Series::default(),
            gpu_usage: Series::default(),
            ram_pct: Series::default(),
            net_down: Series::default(),
            net_up: Series::default(),
            tick: 0,
        }
    }
}

impl History {
    /// Records one refresh: advances the (wrapping) tick and appends each reading to its series.
    pub fn push_from_snapshot(&mut self, sample: &MetricSample)
        ensures
            history_view(*final(self)) == refresh_step(history_view(*old(self)), *sample),
            final(self).tick == (if old(self).tick == u64::MAX { 0 } else { old(self).tick + 1 }),
            final(self).cpu_clock@ == recent(old(self).cpu_clock@.push(sample.cpu_clock), CAP as nat),
            final(self).cpu_usage@ == recent(old(self).cpu_usage@.push(sample.cpu_usage), CAP as nat),
            final(self).gpu_temp@ == recent(old(self).gpu_temp@.push(sample.gpu_temp), CAP as nat),
            final(self).gpu_clock@ == recent(old(self).gpu_clock@.push(sample.gpu_clock), CAP as nat),
            final(self).gpu_power@ == recent(old(self).gpu_power@.push(sample.gpu_power), CAP as nat),
            final(self).gpu_usage@ == recent(old(self).gpu_usage@.push(sample.gpu_usage), CAP as nat),
            final(self).ram_pct@ == recent(old(self).ram_pct@.push(sample.ram_pct), CAP as nat),
            final(self).net_down@ == recent(old(self).net_down@.push(sample.net_down), CAP as nat),
            final(self).net_up@ == recent(old(self).net_up@.push(sample.net_up), CAP as nat),
    {
        self.tick = self.tick.wrapping_add(1);
        self.cpu_clock.push_raw(sample.cpu_clock);
        self.cpu_usage.push_raw(sample.cpu_usage);
        self.gpu_temp.push_raw(sample.gpu_temp);
        self.gpu_clock.push_raw(sample.gpu_clock);
        self.gpu_power.push_raw(sample.gpu_power);
        self.gpu_usage.push_raw(sample.gpu_usage);
        self.ram_pct.push_raw(sample.ram_pct);
        self.net_down.push_raw(sample.net_down);
        self.net_up.push_raw(sample.net_up);
    }
}

} // verus!
