//! Network adapter choice, traffic deltas between refreshes, and reading the round-trip time
//! out of the output of the `ping` command.
use vstd::prelude::*;
use crate::text::{
    ascii_lower, lower_char, chars_of, contains_seq, contains_str, is_white, is_whitespace,
    starts_with_chars, starts_with_seq, string_of, to_ascii_lower,
};

verus! {

// ---------------------------------------------------------------- choosing the adapter

/// The traffic counters of one network adapter, in bytes since boot.
pub struct AdapterTotals {
    pub name: String,
    pub received: u64,
    pub transmitted: u64,
}

/// Loopback and virtual switch adapters are never chosen.
pub open spec fn is_virtual_adapter(name: Seq<char>) -> bool {
    let l = ascii_lower(name);
    contains_seq(l, "loopback"@) || contains_seq(l, "vethernet"@) || contains_seq(l, "hyper-v"@)
}

/// Wireless adapters are preferred.
pub open spec fn is_wireless_adapter(name: Seq<char>) -> bool {
    let l = ascii_lower(name);
    contains_seq(l, "wi-fi"@) || contains_seq(l, "wifi"@) || contains_seq(l, "wlan"@)
        || contains_seq(l, "wireless"@)
}

/// The bonus that puts any wireless adapter ahead of every wired one (2^62).
pub const WIRELESS_BONUS: u64 = 4611686018427387904;

/// How strongly an adapter is preferred: its total traffic, plus the wireless bonus.
pub open spec fn adapter_rank(a: AdapterTotals) -> int {
    a.received + a.transmitted + if is_wireless_adapter(a.name@) {
        WIRELESS_BONUS as int
    } else {
        0
    }
}

/// Every rank that is computed fits in a `u64`.
pub open spec fn ranks_fit(adapters: Seq<AdapterTotals>) -> bool {
    forall|i: int|
        0 <= i < adapters.len() && !is_virtual_adapter(adapters[i].name@) ==> adapter_rank(
            #[trigger] adapters[i],
        ) <= u64::MAX
}

/// The adapter chosen among `adapters`: the first non-virtual one of highest rank, where
/// only a rank above 0 counts.
pub open spec fn best_adapter(adapters: Seq<AdapterTotals>) -> Option<AdapterTotals>
    decreases adapters.len(),
{
    if adapters.len() == 0 {
        None
    } else {
        let prev = best_adapter(adapters.drop_last());
        let a = adapters.last();
        if is_virtual_adapter(a.name@) {
            prev
        } else {
            let bar = match prev {
                Some(b) => adapter_rank(b),
                None => 0,
            };
            if bar < adapter_rank(a) {
                Some(a)
            } else {
                prev
            }
        }
    }
}

/// The (name, received, transmitted) of the chosen adapter, or `("N/A", 0, 0)`.
pub open spec fn picked_adapter(adapters: Seq<AdapterTotals>) -> (Seq<char>, u64, u64) {
    match best_adapter(adapters) {
        Some(b) => (b.name@, b.received, b.transmitted),
        None => ("N/A"@, 0, 0),
    }
}

fn adapter_flags(name: &String) -> (r: (bool, bool))
    ensures
        r.0 == is_virtual_adapter(name@),
        r.1 == is_wireless_adapter(name@),
{
    let l = to_ascii_lower(&chars_of(name.as_str()));
    let is_virtual = contains_str(&l, "loopback") || contains_str(&l, "vethernet") || contains_str(
        &l,
        "hyper-v",
    );
    let is_wireless = contains_str(&l, "wi-fi") || contains_str(&l, "wifi") || contains_str(
        &l,
        "wlan",
    ) || contains_str(&l, "wireless");
    (is_virtual, is_wireless)
}

/// Whether every rank `pick_adapter` computes for `adapters` fits in a `u64`.
pub fn adapter_ranks_fit(adapters: &Vec<AdapterTotals>) -> (fit: bool)
    ensures
        fit == ranks_fit(adapters@),
{
    let mut i: usize = 0;
    while i < adapters.len()
        invariant
            i <= adapters@.len(),
            forall|k: int|
                0 <= k < i && !is_virtual_adapter(adapters@[k].name@) ==> adapter_rank(
                    #[trigger] adapters@[k],
                ) <= u64::MAX,
        decreases adapters.len() - i,
    {
        let a = &adapters[i];
        let (is_virtual, is_wireless) = adapter_flags(&a.name);
        if !is_virtual {
            let bonus: u64 = if is_wireless {
                WIRELESS_BONUS
            } else {
                0
            };
            match a.received.checked_add(a.transmitted) {
                None => {
                    return false;
                },
                Some(total) => {
                    if total.checked_add(bonus).is_none() {
                        return false;
                    }
                },
            }
        }
        i += 1;
    }
    true
}

/// Chooses the adapter whose traffic is shown.
pub fn pick_adapter(adapters: &Vec<AdapterTotals>) -> (r: (String, u64, u64))
    requires
        ranks_fit(adapters@),
    ensures
        (r.0@, r.1, r.2) == picked_adapter(adapters@),
{
    let mut best: Option<usize> = None;
    let mut best_rank: u64 = 0;
    let mut i: usize = 0;
    while i < adapters.len()
        invariant
            i <= adapters@.len(),
            ranks_fit(adapters@),
            match best_adapter(adapters@.take(i as int)) {
                Some(b) => best matches Some(k) && k < i && adapters@[k as int] == b
                    && best_rank == adapter_rank(b),
                None => best is None && best_rank == 0,
            },
        decreases adapters.len() - i,
    {
        assert(adapters@.take(i + 1).drop_last() == adapters@.take(i as int));
        assert(adapters@.take(i + 1).last() == adapters@[i as int]);
        let a = &adapters[i];
        let (is_virtual, is_wireless) = adapter_flags(&a.name);
        if !is_virtual {
            assert(adapter_rank(adapters@[i as int]) <= u64::MAX);
            let bonus: u64 = if is_wireless {
                WIRELESS_BONUS
            } else {
                0
            };
            let ranked = a.received + a.transmitted + bonus;
            if best_rank < ranked {
                best = Some(i);
                best_rank = ranked;
            }
        }
        i += 1;
    }
    assert(adapters@.take(adapters@.len() as int) == adapters@);
    match best {
        Some(k) => {
            let b = &adapters[k];
            (b.name.clone(), b.received, b.transmitted)
        },
        None => {
            let mut name = String::new();
            crate::text::push_str(&mut name, "N/A");
            (name, 0, 0)
        },
    }
}

/// The chosen adapter is a real (non-virtual) adapter of the list, no other real adapter
/// ranks higher, and every real adapter listed before it ranks strictly lower; when nothing
/// is chosen, every real adapter has rank 0.
pub proof fn lemma_best_adapter_is_first_highest(adapters: Seq<AdapterTotals>)
    ensures
        match best_adapter(adapters) {
            Some(b) => exists|k: int|
                0 <= k < adapters.len() && adapters[k] == b && !is_virtual_adapter(b.name@)
                    && adapter_rank(b) > 0 && (forall|j: int|
                    0 <= j < adapters.len() && !is_virtual_adapter(adapters[j].name@)
                        ==> adapter_rank(#[trigger] adapters[j]) <= adapter_rank(b)) && (forall|
                    j: int,
                |
                    0 <= j < k && !is_virtual_adapter(adapters[j].name@) ==> adapter_rank(
                        #[trigger] adapters[j],
                    ) < adapter_rank(b)),
            None => forall|j: int|
                0 <= j < adapters.len() && !is_virtual_adapter(adapters[j].name@) ==> adapter_rank(
                    #[trigger] adapters[j],
                ) == 0,
        },
    decreases adapters.len(),
{
    if adapters.len() > 0 {
        let t = adapters.drop_last();
        lemma_best_adapter_is_first_highest(t);
        let l = adapters.len() - 1;
        let a = adapters[l];
        match best_adapter(t) {
            Some(b) => {
                let k = choose|k: int|
                    0 <= k < t.len() && t[k] == b && !is_virtual_adapter(b.name@) && adapter_rank(b)
                        > 0 && (forall|j: int|
                        0 <= j < t.len() && !is_virtual_adapter(t[j].name@) ==> adapter_rank(
                            #[trigger] t[j],
                        ) <= adapter_rank(b)) && (forall|j: int|
                        0 <= j < k && !is_virtual_adapter(t[j].name@) ==> adapter_rank(
                            #[trigger] t[j],
                        ) < adapter_rank(b));
                if !is_virtual_adapter(a.name@) && adapter_rank(b) < adapter_rank(a) {
                    assert forall|j: int|
                        0 <= j < adapters.len() && !is_virtual_adapter(
                            adapters[j].name@,
                        ) implies adapter_rank(#[trigger] adapters[j]) <= adapter_rank(a) by {
                        if j < l {
                            assert(adapters[j] == t[j]);
                        }
                    }
                    assert forall|j: int|
                        0 <= j < l && !is_virtual_adapter(adapters[j].name@) implies adapter_rank(
                            #[trigger] adapters[j],
                        ) < adapter_rank(a) by {
                        assert(adapters[j] == t[j]);
                    }
                    assert(adapters[l] == a);
                } else {
                    assert(adapters[k] == t[k]);
                    assert forall|j: int|
                        0 <= j < adapters.len() && !is_virtual_adapter(
                            adapters[j].name@,
                        ) implies adapter_rank(#[trigger] adapters[j]) <= adapter_rank(b) by {
                        if j < l {
                            assert(adapters[j] == t[j]);
                        }
                    }
                    assert forall|j: int|
                        0 <= j < k && !is_virtual_adapter(adapters[j].name@) implies adapter_rank(
                            #[trigger] adapters[j],
                        ) < adapter_rank(b) by {
                        assert(adapters[j] == t[j]);
                    }
                }
            },
            None => {
                if !is_virtual_adapter(a.name@) && 0 < adapter_rank(a) {
                    assert forall|j: int|
                        0 <= j < adapters.len() && !is_virtual_adapter(
                            adapters[j].name@,
                        ) implies adapter_rank(#[trigger] adapters[j]) <= adapter_rank(a) by {
                        if j < l {
                            assert(adapters[j] == t[j]);
                        }
                    }
                    assert forall|j: int|
                        0 <= j < l && !is_virtual_adapter(adapters[j].name@) implies adapter_rank(
                            #[trigger] adapters[j],
                        ) < adapter_rank(a) by {
                        assert(adapters[j] == t[j]);
                    }
                    assert(adapters[l] == a);
                } else {
                    assert forall|j: int|
                        0 <= j < adapters.len() && !is_virtual_adapter(
                            adapters[j].name@,
                        ) implies adapter_rank(#[trigger] adapters[j]) == 0 by {
                        if j < l {
                            assert(adapters[j] == t[j]);
                        }
                    }
                }
            },
        }
    }
}


// ---------------------------------------------------------------- traffic between refreshes

/// The first adapter named `name`.
pub open spec fn find_adapter(adapters: Seq<AdapterTotals>, name: Seq<char>) -> Option<
    AdapterTotals,
>
    decreases adapters.len(),
{
    if adapters.len() == 0 {
        None
    } else if adapters[0].name@ == name {
        Some(adapters[0])
    } else {
        find_adapter(adapters.drop_first(), name)
    }
}

proof fn lemma_found_adapter_has_name(adapters: Seq<AdapterTotals>, name: Seq<char>)
    ensures
        find_adapter(adapters, name) matches Some(a) ==> a.name@ == name,
    decreases adapters.len(),
{
    if adapters.len() > 0 && adapters[0].name@ != name {
        lemma_found_adapter_has_name(adapters.drop_first(), name);
    }
}

/// The adapter followed after a refresh: the one followed so far while it is still listed,
/// else a freshly chosen one.
pub open spec fn followed_adapter(adapters: Seq<AdapterTotals>, name: Seq<char>) -> (
    Seq<char>,
    u64,
    u64,
) {
    match find_adapter(adapters, name) {
        Some(a) => (a.name@, a.received, a.transmitted),
        None => picked_adapter(adapters),
    }
}

/// `a - b`, or 0 when `b` is larger (a counter that went backwards).
pub open spec fn counter_delta(a: u64, b: u64) -> u64 {
    if a >= b {
        (a - b) as u64
    } else {
        0
    }
}

/// The traffic of the followed adapter since the previous refresh, in bytes.
pub struct TrafficDelta {
    pub adapter: String,
    pub received: u64,
    pub transmitted: u64,
}

/// Which adapter is followed and its counters at the previous refresh.
pub struct NetTracker {
    pub adapter: String,
    pub last_received: u64,
    pub last_transmitted: u64,
}

fn find_adapter_index(adapters: &Vec<AdapterTotals>, name: &String) -> (r: Option<usize>)
    ensures
        match find_adapter(adapters@, name@) {
            Some(a) => r matches Some(k) && k < adapters@.len() && adapters@[k as int] == a,
            None => r is None,
        },
{
    let mut j: usize = 0;
    assert(adapters@.skip(0) == adapters@);
    while j < adapters.len()
        invariant
            j <= adapters@.len(),
            find_adapter(adapters@, name@) == find_adapter(adapters@.skip(j as int), name@),
        decreases adapters.len() - j,
    {
        assert(adapters@.skip(j as int)[0] == adapters@[j as int]);
        assert(adapters@.skip(j as int).drop_first() == adapters@.skip(j + 1));
        if adapters[j].name == *name {
            return Some(j);
        }
        j += 1;
    }
    None
}

impl NetTracker {
    /// Starts following the adapter `pick_adapter` chooses, from its current counters.
    pub fn new(adapters: &Vec<AdapterTotals>) -> (t: NetTracker)
        requires
            ranks_fit(adapters@),
        ensures
            (t.adapter@, t.last_received, t.last_transmitted) == picked_adapter(adapters@),
    {
        let (adapter, rx, tx) = pick_adapter(adapters);
        NetTracker { adapter, last_received: rx, last_transmitted: tx }
    }

    /// Takes fresh counters: follows the same adapter while it is listed (else chooses anew),
    /// reports the traffic since the last refresh (0 for a counter that went backwards) and
    /// remembers the new counters.
    pub fn observe(&mut self, adapters: &Vec<AdapterTotals>) -> (d: TrafficDelta)
        requires
            find_adapter(adapters@, old(self).adapter@) is None ==> ranks_fit(adapters@),
        ensures
            ({
                let (name, rx, tx) = followed_adapter(adapters@, old(self).adapter@);
                &&& final(self).adapter@ == name
                &&& final(self).last_received == rx
                &&& final(self).last_transmitted == tx
                &&& d.adapter@ == name
                &&& d.received == counter_delta(rx, old(self).last_received)
                &&& d.transmitted == counter_delta(tx, old(self).last_transmitted)
            }),
    {
        proof {
            lemma_found_adapter_has_name(adapters@, self.adapter@);
        }
        let (name, rx, tx) = match find_adapter_index(adapters, &self.adapter) {
            Some(k) => (adapters[k].name.clone(), adapters[k].received, adapters[k].transmitted),
            None => {
                let picked = pick_adapter(adapters);
                self.adapter = picked.0.clone();
                picked
            },
        };
        let received = rx.saturating_sub(self.last_received);
        let transmitted = tx.saturating_sub(self.last_transmitted);
        self.last_received = rx;
        self.last_transmitted = tx;
        TrafficDelta { adapter: name, received, transmitted }
    }
}

/// Consecutive refreshes of an adapter whose counters only grow add up: the traffic reported
/// over two refreshes is the growth of the counter across both.
pub proof fn lemma_deltas_add_up(c0: u64, c1: u64, c2: u64)
    requires
        c0 <= c1 <= c2,
    ensures
        counter_delta(c1, c0) + counter_delta(c2, c1) == c2 - c0,
{
}

/// How often the round-trip time is measured, in milliseconds.
pub const PING_EVERY_MS: u64 = 5000;

/// Whether a new round-trip measurement is due, `elapsed_ms` after the previous one.
pub fn ping_due(elapsed_ms: u64) -> (due: bool)
    ensures
        due == (elapsed_ms >= PING_EVERY_MS),
{
    elapsed_ms >= PING_EVERY_MS
}


// ---------------------------------------------------------------- reading `ping` output

/// What the output of one `ping` says about the round-trip time.
pub enum PingReply {
    /// `time=N ms`: the number as written, digits and at most one decimal point.
    Millis(String),
    /// `time<1ms`.
    BelowOneMs,
    /// No time in the output.
    NoReading,
}

/// A `PingReply` as plain values: `Some(Some(text))` for a time in milliseconds,
/// `Some(None)` for below one millisecond, `None` for no reading.
pub type PingView = Option<Option<Seq<char>>>;

pub open spec fn ping_view(r: PingReply) -> PingView {
    match r {
        PingReply::Millis(t) => Some(Some(t@)),
        PingReply::BelowOneMs => Some(None),
        PingReply::NoReading => None,
    }
}

/// The whitespace-separated words of `s`, the word being built so far being `cur`.
pub open spec fn split_words(s: Seq<char>, cur: Seq<char>) -> Seq<Seq<char>>
    decreases s.len(),
{
    if s.len() == 0 {
        if cur.len() > 0 {
            seq![cur]
        } else {
            Seq::empty()
        }
    } else if is_white(s[0]) {
        let done: Seq<Seq<char>> = if cur.len() > 0 {
            seq![cur]
        } else {
            Seq::empty()
        };
        done + split_words(s.drop_first(), Seq::empty())
    } else {
        split_words(s.drop_first(), cur.push(s[0]))
    }
}

/// The whitespace-separated words of `s` (what `str::split_whitespace` yields).
pub open spec fn words(s: Seq<char>) -> Seq<Seq<char>> {
    split_words(s, Seq::empty())
}

pub open spec fn is_number_char(c: char) -> bool {
    (48 <= (c as u32) <= 57) || c == '.'
}

/// The longest prefix of `s` made of digits and decimal points.
pub open spec fn number_prefix(s: Seq<char>) -> Seq<char>
    decreases s.len(),
{
    if s.len() > 0 && is_number_char(s[0]) {
        seq![s[0]] + number_prefix(s.drop_first())
    } else {
        Seq::empty()
    }
}

pub open spec fn count_digits(s: Seq<char>) -> nat
    decreases s.len(),
{
    if s.len() == 0 {
        0
    } else {
        (if 48 <= (s[0] as u32) <= 57 { 1nat } else { 0nat }) + count_digits(s.drop_first())
    }
}

pub open spec fn count_points(s: Seq<char>) -> nat
    decreases s.len(),
{
    if s.len() == 0 {
        0
    } else {
        (if s[0] == '.' { 1nat } else { 0nat }) + count_points(s.drop_first())
    }
}

/// A run of digits and points that `f64::from_str` accepts: at least one digit and at most
/// one point.
pub open spec fn is_decimal_number(s: Seq<char>) -> bool {
    count_digits(s) >= 1 && count_points(s) <= 1
}

/// What one word says: `time=` followed by a number gives that number; a word starting with
/// `time<` means below one millisecond (both matched case-insensitively).
pub open spec fn word_reading(w: Seq<char>) -> PingView {
    let l = ascii_lower(w);
    let num = number_prefix(l.skip("time="@.len() as int));
    if starts_with_seq(l, "time="@) && is_decimal_number(num) {
        Some(Some(num))
    } else if starts_with_seq(l, "time<"@) {
        Some(None)
    } else {
        None
    }
}

/// The reading of the first word that has one.
pub open spec fn first_reading(ws: Seq<Seq<char>>) -> PingView
    decreases ws.len(),
{
    if ws.len() == 0 {
        None
    } else {
        match word_reading(ws[0]) {
            Some(r) => Some(r),
            None => first_reading(ws.drop_first()),
        }
    }
}

fn number_text(v: &Vec<char>, from: usize) -> (r: (Vec<char>, bool))
    requires
        from <= v@.len(),
    ensures
        r.0@ == number_prefix(v@.skip(from as int)),
        r.1 == is_decimal_number(r.0@),
{
    let n = v.len();
    let mut j: usize = from;
    let mut digits: usize = 0;
    let mut points: usize = 0;
    let mut num: Vec<char> = Vec::new();
    assert(v@.subrange(from as int, from as int) =~= Seq::<char>::empty());
    while j < n && ((v[j] as u32 >= 48 && v[j] as u32 <= 57) || v[j] == '.')
        invariant
            n == v@.len(),
            from <= j <= n,
            num@ == v@.subrange(from as int, j as int),
            digits <= j - from,
            points <= j - from,
            number_prefix(v@.skip(from as int)) == num@ + number_prefix(v@.skip(j as int)),
            count_digits(num@) == digits,
            count_points(num@) == points,
            forall|m: int| 0 <= m < num@.len() ==> is_number_char(#[trigger] num@[m]),
        decreases n - j,
    {
        let c = v[j];
        proof {
            lemma_counts_push(num@, c);
            assert(v@.skip(j as int).drop_first() == v@.skip(j + 1));
            assert(v@.skip(j as int)[0] == c);
            assert(num@ + number_prefix(v@.skip(j as int)) == num@.push(c) + number_prefix(
                v@.skip(j + 1),
            ));
        }
        if c == '.' {
            points += 1;
        } else {
            digits += 1;
        }
        num.push(c);
        j += 1;
    }
    proof {
        if j < n {
            assert(v@.skip(j as int)[0] == v@[j as int]);
        }
        assert(number_prefix(v@.skip(j as int)) == Seq::<char>::empty());
        assert(num@ + Seq::<char>::empty() == num@);
    }
    let ok = digits >= 1 && points <= 1;
    (num, ok)
}

proof fn lemma_counts_push(s: Seq<char>, c: char)
    ensures
        count_digits(s.push(c)) == count_digits(s) + (if 48 <= (c as u32) <= 57 { 1nat } else { 0nat }),
        count_points(s.push(c)) == count_points(s) + (if c == '.' { 1nat } else { 0nat }),
    decreases s.len(),
{
    if s.len() > 0 {
        lemma_counts_push(s.drop_first(), c);
        assert(s.push(c).drop_first() == s.drop_first().push(c));
    } else {
        assert(s.push(c).drop_first() == s);
    }
}

fn word_reply(w: &Vec<char>) -> (r: Option<PingReply>)
    ensures
        match word_reading(w@) {
            Some(x) => r matches Some(p) && ping_view(p) == Some(x),
            None => r is None,
        },
{
    let l = to_ascii_lower(w);
    if starts_with_chars(&l, &chars_of("time=")) {
        let (num, ok) = number_text(&l, "time=".unicode_len());
        if ok {
            return Some(PingReply::Millis(string_of(&num)));
        }
    }
    if starts_with_chars(&l, &chars_of("time<")) {
        return Some(PingReply::BelowOneMs);
    }
    None
}

/// Finds the round-trip time in the text that `ping` printed.
pub fn parse_ping_reply(stdout: &str) -> (r: PingReply)
    ensures
        ping_view(r) == first_reading(words(stdout@)),
{
    let v = chars_of(stdout);
    let n = v.len();
    let mut cur: Vec<char> = Vec::new();
    let mut i: usize = 0;
    assert(v@.skip(0) == v@);
    while i < n
        invariant
            n == v@.len(),
            v@ == stdout@,
            i <= n,
            first_reading(words(v@)) == first_reading(split_words(v@.skip(i as int), cur@)),
        decreases n - i,
    {
        let c = v[i];
        let ghost s = v@.skip(i as int);
        let ghost rest = split_words(v@.skip(i + 1), Seq::empty());
        proof {
            assert(s[0] == c);
            assert(s.drop_first() == v@.skip(i + 1));
            assert(s.len() > 0);
        }
        if is_whitespace(c) {
            if cur.len() > 0 {
                proof {
                    assert(split_words(s, cur@) == seq![cur@] + rest);
                    assert((seq![cur@] + rest)[0] == cur@);
                    assert((seq![cur@] + rest).drop_first() == rest);
                    assert(first_reading(seq![cur@] + rest) == match word_reading(cur@) {
                        Some(r) => Some(r),
                        None => first_reading(rest),
                    });
                }
                match word_reply(&cur) {
                    Some(r) => {
                        return r;
                    },
                    None => {},
                }
                cur = Vec::new();
            } else {
                proof {
                    assert(cur@ =~= Seq::<char>::empty());
                    assert(split_words(s, cur@) == Seq::<Seq<char>>::empty() + rest);
                    assert(Seq::<Seq<char>>::empty() + rest == rest);
                }
            }
        } else {
            proof {
                assert(split_words(s, cur@) == split_words(v@.skip(i + 1), cur@.push(c)));
            }
            cur.push(c);
        }
        i += 1;
    }
    proof {
        assert(v@.skip(n as int).len() == 0);
    }
    if cur.len() > 0 {
        proof {
            assert(split_words(v@.skip(n as int), cur@) == seq![cur@]);
            assert(seq![cur@].drop_first() == Seq::<Seq<char>>::empty());
            assert(seq![cur@][0] == cur@);
        }
        match word_reply(&cur) {
            Some(r) => {
                return r;
            },
            None => {
                assert(first_reading(seq![cur@]) == first_reading(Seq::<Seq<char>>::empty()));
            },
        }
    } else {
        assert(split_words(v@.skip(n as int), cur@) == Seq::<Seq<char>>::empty());
    }
    PingReply::NoReading
}

// ---------------------------------------------------------------- the number after `time=`

/// An ASCII digit `0`..=`9` or a decimal point.
pub open spec fn digit_or_point(c: char) -> bool {
    ('0' as u32 <= c as u32 && c as u32 <= '9' as u32) || c == '.'
}

proof fn lemma_lower_concat(a: Seq<char>, b: Seq<char>)
    ensures
        ascii_lower(a + b) == ascii_lower(a) + ascii_lower(b),
{
    assert(ascii_lower(a + b) =~= ascii_lower(a) + ascii_lower(b));
}

proof fn lemma_number_prefix_of(d: Seq<char>, t: Seq<char>)
    requires
        forall|i: int| 0 <= i < d.len() ==> digit_or_point(#[trigger] d[i]),
        t.len() == 0 || !digit_or_point(t[0]),
    ensures
        number_prefix(d + t) == d,
    decreases d.len(),
{
    if d.len() == 0 {
        assert(d + t == t);
    } else {
        lemma_number_prefix_of(d.drop_first(), t);
        assert((d + t).drop_first() == d.drop_first() + t);
        assert((d + t)[0] == d[0]);
        assert(d == seq![d[0]] + d.drop_first());
    }
}

proof fn lemma_counts_of(d: Seq<char>)
    requires
        forall|i: int| 0 <= i < d.len() ==> digit_or_point(#[trigger] d[i]),
        forall|i: int, j: int| 0 <= i < j < d.len() ==> !(d[i] == '.' && d[j] == '.'),
    ensures
        (exists|i: int| 0 <= i < d.len() && d[i] != '.') ==> count_digits(d) >= 1,
        count_points(d) <= 1,
        (exists|i: int| 0 <= i < d.len() && d[i] == '.') ==> count_points(d) == 1,
        (forall|i: int| 0 <= i < d.len() ==> d[i] != '.') ==> count_points(d) == 0,
    decreases d.len(),
{
    if d.len() > 0 {
        let t = d.drop_first();
        assert forall|i: int| 0 <= i < t.len() implies digit_or_point(#[trigger] t[i]) by {
            assert(t[i] == d[i + 1]);
        }
        assert forall|i: int, j: int| 0 <= i < j < t.len() implies !(t[i] == '.' && t[j] == '.') by {
            assert(t[i] == d[i + 1] && t[j] == d[j + 1]);
        }
        lemma_counts_of(t);
        if exists|i: int| 0 <= i < d.len() && d[i] != '.' {
            let i = choose|i: int| 0 <= i < d.len() && d[i] != '.';
            if i > 0 {
                assert(t[i - 1] == d[i]);
            }
        }
        if d[0] == '.' {
            assert forall|i: int| 0 <= i < t.len() implies t[i] != '.' by {
                assert(t[i] == d[i + 1]);
            }
        } else {
            if exists|i: int| 0 <= i < d.len() && d[i] == '.' {
                let i = choose|i: int| 0 <= i < d.len() && d[i] == '.';
                assert(t[i - 1] == d[i]);
            }
            if forall|i: int| 0 <= i < d.len() ==> d[i] != '.' {
                assert forall|i: int| 0 <= i < t.len() implies t[i] != '.' by {
                    assert(t[i] == d[i + 1]);
                }
            }
        }
    }
}

/// The time read from a word `time=` + `d` + `rest` (in any letter case), where `d` is made of
/// ASCII digits and points, holds at least one digit and at most one point, and `rest` does
/// not continue the number: the reading is exactly `d`, every digit of it.
pub proof fn lemma_time_equals_reads_whole_number(d: Seq<char>, rest: Seq<char>)
    requires
        forall|i: int| 0 <= i < d.len() ==> digit_or_point(#[trigger] d[i]),
        exists|i: int| 0 <= i < d.len() && d[i] != '.',
        forall|i: int, j: int| 0 <= i < j < d.len() ==> !(d[i] == '.' && d[j] == '.'),
        rest.len() == 0 || !digit_or_point(rest[0]),
    ensures
        word_reading("time="@ + d + rest) == Some(Some(d)),
{
    reveal_strlit("time=");
    let p = "time="@;
    let w = p + d + rest;
    lemma_lower_concat(p + d, rest);
    lemma_lower_concat(p, d);
    assert(ascii_lower(p) == p);
    assert(ascii_lower(d) =~= d) by {
        assert forall|i: int| 0 <= i < d.len() implies #[trigger] ascii_lower(d)[i] == d[i] by {
            assert(digit_or_point(d[i]));
        }
    }
    let lr = ascii_lower(rest);
    let l = ascii_lower(w);
    assert(l == p + d + lr);
    assert(lr.len() == 0 || !digit_or_point(lr[0])) by {
        if lr.len() > 0 {
            assert(lr[0] == lower_char(rest[0]));
        }
    }
    assert(l.subrange(0, p.len() as int) =~= p);
    assert(l.skip(p.len() as int) =~= d + lr);
    lemma_number_prefix_of(d, lr);
    lemma_counts_of(d);
}

// ---------------------------------------------------------------- the adapter choice, directly

/// The adapter's lower-cased name names no loopback, vEthernet or Hyper-V adapter.
pub open spec fn eligible_name(name: Seq<char>) -> bool {
    let l = name.map_values(|c: char| lower_char(c));
    !contains_seq(l, "loopback"@) && !contains_seq(l, "vethernet"@) && !contains_seq(l, "hyper-v"@)
}

/// Total traffic, plus 2^62 for a name saying Wi-Fi, WiFi, WLAN or wireless (any case).
pub open spec fn preference(a: AdapterTotals) -> int {
    let l = a.name@.map_values(|c: char| lower_char(c));
    a.received + a.transmitted + if contains_seq(l, "wi-fi"@) || contains_seq(l, "wifi"@)
        || contains_seq(l, "wlan"@) || contains_seq(l, "wireless"@) {
        0x4000_0000_0000_0000int
    } else {
        0int
    }
}

/// The adapter `pick_adapter` reports, stated over the names and counters directly: either one
/// of the listed adapters whose name is not that of a loopback, vEthernet or Hyper-V adapter,
/// preferred over every other such adapter (wireless first, then by traffic) and listed before
/// any other equally preferred one; or, when no such adapter has any preference at all,
/// `("N/A", 0, 0)`. An adapter whose lower-cased name contains `loopback`, `vethernet` or
/// `hyper-v` is never reported.
pub proof fn lemma_picked_adapter_rule(adapters: Seq<AdapterTotals>)
    ensures
        ({
            let r = picked_adapter(adapters);
            ||| exists|k: int|
                0 <= k < adapters.len() && eligible_name(adapters[k].name@) && r == (
                    adapters[k].name@,
                    adapters[k].received,
                    adapters[k].transmitted,
                ) && preference(adapters[k]) > 0 && (forall|j: int|
                    0 <= j < adapters.len() && eligible_name(adapters[j].name@) ==> preference(
                        #[trigger] adapters[j],
                    ) <= preference(adapters[k])) && (forall|j: int|
                    0 <= j < k && eligible_name(adapters[j].name@) ==> preference(
                        #[trigger] adapters[j],
                    ) < preference(adapters[k]))
            ||| r == ("N/A"@, 0u64, 0u64) && (forall|j: int|
                0 <= j < adapters.len() && eligible_name(adapters[j].name@) ==> preference(
                    #[trigger] adapters[j],
                ) == 0)
        }),
{
    lemma_best_adapter_is_first_highest(adapters);
    assert forall|j: int| 0 <= j < adapters.len() implies (eligible_name(adapters[j].name@)
        == !is_virtual_adapter(adapters[j].name@) && preference(#[trigger] adapters[j])
        == adapter_rank(adapters[j])) by {
    }
    match best_adapter(adapters) {
        Some(b) => {
            let k = choose|k: int|
                0 <= k < adapters.len() && adapters[k] == b && !is_virtual_adapter(b.name@)
                    && adapter_rank(b) > 0 && (forall|j: int|
                    0 <= j < adapters.len() && !is_virtual_adapter(adapters[j].name@)
                        ==> adapter_rank(#[trigger] adapters[j]) <= adapter_rank(b)) && (forall|
                    j: int,
                |
                    0 <= j < k && !is_virtual_adapter(adapters[j].name@) ==> adapter_rank(
                        #[trigger] adapters[j],
                    ) < adapter_rank(b));
            assert(eligible_name(adapters[k].name@));
        },
        None => {},
    }
}

// ---------------------------------------------------------------- following an adapter, directly

/// The adapter followed after a refresh, stated by index: while an adapter named `name` is
/// listed, the first one so named (with its counters); otherwise the adapter `pick_adapter`
/// chooses.
pub proof fn lemma_followed_adapter_rule(adapters: Seq<AdapterTotals>, name: Seq<char>)
    ensures
        forall|k0: int|
            0 <= k0 < adapters.len() && adapters[k0].name@ == name && (forall|k: int|
                0 <= k < k0 ==> (#[trigger] adapters[k]).name@ != name) ==> followed_adapter(
                adapters,
                name,
            ) == (name, adapters[k0].received, adapters[k0].transmitted),
        (forall|k: int| 0 <= k < adapters.len() ==> (#[trigger] adapters[k]).name@ != name)
            ==> followed_adapter(adapters, name) == picked_adapter(adapters),
{
    lemma_find_adapter_rule(adapters, name);
}

proof fn lemma_find_adapter_rule(adapters: Seq<AdapterTotals>, name: Seq<char>)
    ensures
        forall|k0: int|
            0 <= k0 < adapters.len() && adapters[k0].name@ == name && (forall|k: int|
                0 <= k < k0 ==> (#[trigger] adapters[k]).name@ != name) ==> find_adapter(
                adapters,
                name,
            ) == Some(adapters[k0]),
        (forall|k: int| 0 <= k < adapters.len() ==> (#[trigger] adapters[k]).name@ != name)
            ==> find_adapter(adapters, name) is None,
    decreases adapters.len(),
{
    if adapters.len() > 0 {
        let t = adapters.drop_first();
        lemma_find_adapter_rule(t, name);
        assert forall|k0: int|
            0 <= k0 < adapters.len() && adapters[k0].name@ == name && (forall|k: int|
                0 <= k < k0 ==> (#[trigger] adapters[k]).name@ != name) implies find_adapter(
            adapters,
            name,
        ) == Some(adapters[k0]) by {
            if k0 > 0 {
                assert(adapters[0].name@ != name);
                assert(t[k0 - 1] == adapters[k0]);
                assert forall|k: int| 0 <= k < k0 - 1 implies (#[trigger] t[k]).name@ != name by {
                    assert(t[k] == adapters[k + 1]);
                }
            }
        }
        if forall|k: int| 0 <= k < adapters.len() ==> (#[trigger] adapters[k]).name@ != name {
            assert(adapters[0].name@ != name);
            assert forall|k: int| 0 <= k < t.len() implies (#[trigger] t[k]).name@ != name by {
                assert(t[k] == adapters[k + 1]);
            }
        }
    }
}

/// The traffic reported for a counter, stated directly: the growth since the last refresh,
/// or 0 when the counter went backwards.
pub proof fn lemma_counter_delta_rule(now: u64, before: u64)
    ensures
        now >= before ==> counter_delta(now, before) == now - before,
        now < before ==> counter_delta(now, before) == 0,
{
}

} // verus!
