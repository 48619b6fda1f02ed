//! What the CPU, memory, GPU and thermal-zone readings are turned into: the CPU name, the
//! label of each memory module, the choice of thermal zone, the note on missing sensors,
//! and the totals and unit conversions.
use vstd::prelude::*;
use crate::text::{
    ascii_lower, chars_of, contains_seq, contains_str, decimal, push_chars, push_decimal,
    push_str, to_ascii_lower, trim, trim_chars, trimmed,
};

verus! {

// ---------------------------------------------------------------- CPU

/// The CPU name shown: the first core's brand string, trimmed, or `Unknown CPU` when there
/// is none or it is blank.
pub open spec fn cpu_name_of(brand: Option<Seq<char>>) -> Seq<char> {
    match brand {
        Some(b) => if trimmed(b).len() > 0 {
            trimmed(b)
        } else {
            "Unknown CPU"@
        },
        None => "Unknown CPU"@,
    }
}

pub fn cpu_display_name(first_brand: Option<&str>) -> (name: String)
    ensures
        name@ == cpu_name_of(
            match first_brand {
                Some(b) => Some(b@),
                None => None,
            },
        ),
{
    if let Some(b) = first_brand {
        let t = trim(b);
        if t.as_str().unicode_len() > 0 {
            return t;
        }
    }
    let mut name = String::new();
    push_str(&mut name, "Unknown CPU");
    name
}

/// Whether the ACPI thermal zones are consulted for the CPU temperature: only while no
/// other source has given one.
pub fn needs_acpi_temperature(cpu_temp_known: bool) -> (needed: bool)
    ensures
        needed == !cpu_temp_known,
{
    !cpu_temp_known
}

/// The sum of `s`.
pub open spec fn seq_sum(s: Seq<u64>) -> nat
    decreases s.len(),
{
    if s.len() == 0 {
        0
    } else {
        seq_sum(s.drop_last()) + s.last() as nat
    }
}

proof fn lemma_prefix_sum_bounded(s: Seq<u64>, i: int)
    requires
        0 <= i <= s.len(),
    ensures
        seq_sum(s.take(i)) <= seq_sum(s),
    decreases s.len() - i,
{
    if i < s.len() {
        lemma_prefix_sum_bounded(s, i + 1);
        assert(s.take(i + 1).drop_last() == s.take(i));
    } else {
        assert(s.take(i) == s);
    }
}

/// The sum of the core clocks, in MHz.
pub fn total_frequency(freqs: &Vec<u64>) -> (total: u64)
    requires
        seq_sum(freqs@) <= u64::MAX,
    ensures
        total == seq_sum(freqs@),
{
    let mut total: u64 = 0;
    let mut i: usize = 0;
    while i < freqs.len()
        invariant
            i <= freqs@.len(),
            seq_sum(freqs@) <= u64::MAX,
            total == seq_sum(freqs@.take(i as int)),
        decreases freqs.len() - i,
    {
        proof {
            assert(freqs@.take(i + 1).drop_last() == freqs@.take(i as int));
            lemma_prefix_sum_bounded(freqs@, i + 1);
        }
        total = total + freqs[i];
        i += 1;
    }
    assert(freqs@.take(freqs@.len() as int) == freqs@);
    total
}

/// Bytes to whole MiB, rounding down.
pub fn mib_from_bytes(bytes: u64) -> (mib: u64)
    ensures
        mib == bytes / 1048576,
{
    bytes / 1048576
}

// ---------------------------------------------------------------- memory modules

/// A memory module as the system inventory reports it.
pub struct MemoryModule {
    pub bank_label: Option<String>,
    pub device_locator: Option<String>,
    pub part_number: Option<String>,
    pub configured_clock_speed: Option<u32>,
}

pub open spec fn or_empty(s: Option<String>) -> Seq<char> {
    match s {
        Some(x) => x@,
        None => Seq::empty(),
    }
}

/// `N MT/s`, or `?` when the speed is unknown.
pub open spec fn speed_text(speed: Option<u32>) -> Seq<char> {
    match speed {
        Some(s) => decimal(s as nat) + " MT/s"@,
        None => "?"@,
    }
}

/// The label of a memory module whose capacity reads `gb` (in GB): named by its slot, else by
/// its bank, else by its part number (without the speed), else just `DIMM`.
pub open spec fn ram_label_of(m: MemoryModule, gb: Seq<char>) -> Seq<char> {
    let locator = or_empty(m.device_locator);
    let bank = or_empty(m.bank_label);
    let part = trimmed(or_empty(m.part_number));
    if locator.len() > 0 {
        locator + " "@ + gb + "GB "@ + speed_text(m.configured_clock_speed)
    } else if bank.len() > 0 {
        bank + " "@ + gb + "GB "@ + speed_text(m.configured_clock_speed)
    } else if part.len() > 0 {
        part + " "@ + gb + "GB"@
    } else {
        "DIMM "@ + gb + "GB"@
    }
}

fn chars_or_empty(s: &Option<String>) -> (v: Vec<char>)
    ensures
        v@ == or_empty(*s),
{
    match s {
        Some(x) => chars_of(x.as_str()),
        None => Vec::new(),
    }
}

fn push_speed(s: &mut String, speed: Option<u32>)
    ensures
        final(s)@ == old(s)@ + speed_text(speed),
{
    match speed {
        Some(v) => {
            push_decimal(s, v as u64);
            push_str(s, " MT/s");
        },
        None => push_str(s, "?"),
    }
}

/// Labels a memory module; `gb_text` is its capacity in GB as it is to be printed.
pub fn ram_slot_label(m: &MemoryModule, gb_text: &str) -> (label: String)
    ensures
        label@ == ram_label_of(*m, gb_text@),
{
    let locator = chars_or_empty(&m.device_locator);
    let bank = chars_or_empty(&m.bank_label);
    let part = trim_chars(&chars_or_empty(&m.part_number));
    let mut label = String::new();
    if locator.len() > 0 {
        push_chars(&mut label, &locator);
        push_str(&mut label, " ");
        push_str(&mut label, gb_text);
        push_str(&mut label, "GB ");
        push_speed(&mut label, m.configured_clock_speed);
    } else if bank.len() > 0 {
        push_chars(&mut label, &bank);
        push_str(&mut label, " ");
        push_str(&mut label, gb_text);
        push_str(&mut label, "GB ");
        push_speed(&mut label, m.configured_clock_speed);
    } else if part.len() > 0 {
        push_chars(&mut label, &part);
        push_str(&mut label, " ");
        push_str(&mut label, gb_text);
        push_str(&mut label, "GB");
    } else {
        push_str(&mut label, "DIMM ");
        push_str(&mut label, gb_text);
        push_str(&mut label, "GB");
    }
    assert(label@ == ram_label_of(*m, gb_text@));
    label
}

/// Labels every memory module listed; each comes with its capacity in GB as it is to be
/// printed.
pub fn ram_slot_labels(modules: &Vec<(MemoryModule, String)>) -> (labels: Vec<String>)
    ensures
        labels@.len() == modules@.len(),
        forall|i: int|
            0 <= i < modules@.len() ==> #[trigger] labels@[i]@ == ram_label_of(
                modules@[i].0,
                modules@[i].1@,
            ),
{
    let mut labels: Vec<String> = Vec::new();
    let mut i: usize = 0;
    while i < modules.len()
        invariant
            i <= modules@.len(),
            labels@.len() == i,
            forall|k: int|
                0 <= k < i ==> #[trigger] labels@[k]@ == ram_label_of(
                    modules@[k].0,
                    modules@[k].1@,
                ),
        decreases modules.len() - i,
    {
        let (m, gb) = &modules[i];
        labels.push(ram_slot_label(m, gb.as_str()));
        i += 1;
    }
    labels
}

// ---------------------------------------------------------------- thermal zones

/// A thermal zone reading: its instance name and temperature in tenths of a kelvin.
pub struct ThermalReading {
    pub instance_name: Option<String>,
    pub current_temperature: Option<u32>,
}

/// The lowest and highest readings (tenths of a kelvin) taken as plausible: those whose
/// Celsius value `raw / 10 - 273.15` lies in `10 .. 110`, that is 10.05 °C ..= 109.95 °C.
pub const ZONE_MIN_RAW: u32 = 2832;

pub const ZONE_MAX_RAW: u32 = 3831;

/// A zone that belongs to the processor.
pub open spec fn is_cpu_zone(name: Option<String>) -> bool {
    let l = ascii_lower(or_empty(name));
    contains_seq(l, "cpu"@) || contains_seq(l, "tzcpu"@) || contains_seq(l, "processor"@)
}

/// The reading used for the CPU temperature: the first plausible reading of a processor zone,
/// else the last plausible reading of any zone.
pub open spec fn zone_scan(zones: Seq<ThermalReading>, best: Option<u32>) -> Option<u32>
    decreases zones.len(),
{
    if zones.len() == 0 {
        best
    } else {
        let z = zones[0];
        match z.current_temperature {
            None => zone_scan(zones.drop_first(), best),
            Some(raw) => if !(ZONE_MIN_RAW <= raw <= ZONE_MAX_RAW) {
                zone_scan(zones.drop_first(), best)
            } else if is_cpu_zone(z.instance_name) {
                Some(raw)
            } else {
                zone_scan(zones.drop_first(), Some(raw))
            },
        }
    }
}

fn cpu_zone(name: &Option<String>) -> (b: bool)
    ensures
        b == is_cpu_zone(*name),
{
    let l = to_ascii_lower(&chars_or_empty(name));
    contains_str(&l, "cpu") || contains_str(&l, "tzcpu") || contains_str(&l, "processor")
}

/// Chooses the thermal zone reading (in tenths of a kelvin) used as the CPU temperature.
pub fn select_thermal_zone(zones: &Vec<ThermalReading>) -> (raw: Option<u32>)
    ensures
        raw == zone_scan(zones@, None),
{
    let mut best: Option<u32> = None;
    let mut j: usize = 0;
    assert(zones@.skip(0) == zones@);
    while j < zones.len()
        invariant
            j <= zones@.len(),
            zone_scan(zones@, None) == zone_scan(zones@.skip(j as int), best),
        decreases zones.len() - j,
    {
        assert(zones@.skip(j as int)[0] == zones@[j as int]);
        assert(zones@.skip(j as int).drop_first() == zones@.skip(j + 1));
        let z = &zones[j];
        if let Some(raw) = z.current_temperature {
            if ZONE_MIN_RAW <= raw && raw <= ZONE_MAX_RAW {
                if cpu_zone(&z.instance_name) {
                    return Some(raw);
                }
                best = Some(raw);
            }
        }
        j += 1;
    }
    best
}

// ---------------------------------------------------------------- missing sensors

/// `ws` joined with `sep` between consecutive items.
pub open spec fn join(ws: Seq<Seq<char>>, sep: Seq<char>) -> Seq<char>
    decreases ws.len(),
{
    if ws.len() == 0 {
        Seq::empty()
    } else if ws.len() == 1 {
        ws[0]
    } else {
        join(ws.drop_last(), sep) + sep + ws.last()
    }
}

/// The sensors that cannot be read: CPU temperature, fan and power when unknown, and RAM
/// temperature when no memory module has one.
pub open spec fn missing_sensors(
    cpu_temp: bool,
    cpu_fan: bool,
    cpu_power: bool,
    slot_temps: Seq<bool>,
) -> Seq<Seq<char>> {
    let t: Seq<Seq<char>> = if cpu_temp {
        Seq::empty()
    } else {
        seq!["CPU temp"@]
    };
    let f: Seq<Seq<char>> = if cpu_fan {
        Seq::empty()
    } else {
        seq!["CPU fan"@]
    };
    let p: Seq<Seq<char>> = if cpu_power {
        Seq::empty()
    } else {
        seq!["CPU power"@]
    };
    let r: Seq<Seq<char>> = if exists|i: int| 0 <= i < slot_temps.len() && slot_temps[i] {
        Seq::empty()
    } else {
        seq!["RAM temp"@]
    };
    t + f + p + r
}

/// The footer note on the sensors that cannot be read.
pub open spec fn note_of(missing: Seq<Seq<char>>) -> Seq<char> {
    if missing.len() == 0 {
        "Native sensors OK."@
    } else {
        join(missing, ", "@) + " unavailable via Windows APIs (needs chipset/EC access)."@
    }
}

fn any_known(v: &Vec<bool>) -> (b: bool)
    ensures
        b == exists|i: int| 0 <= i < v@.len() && v@[i],
{
    let mut i: usize = 0;
    while i < v.len()
        invariant
            i <= v@.len(),
            forall|k: int| 0 <= k < i ==> !v@[k],
        decreases v.len() - i,
    {
        if v[i] {
            return true;
        }
        i += 1;
    }
    false
}

/// Builds the note naming the sensors that cannot be read; `slot_temps_known` tells, for each
/// memory module, whether its temperature is known.
pub fn native_note(
    cpu_temp_known: bool,
    cpu_fan_known: bool,
    cpu_power_known: bool,
    slot_temps_known: &Vec<bool>,
) -> (note: String)
    ensures
        note@ == note_of(
            missing_sensors(cpu_temp_known, cpu_fan_known, cpu_power_known, slot_temps_known@),
        ),
{
    let mut missing: Vec<&str> = Vec::new();
    if !cpu_temp_known {
        missing.push("CPU temp");
    }
    if !cpu_fan_known {
        missing.push("CPU fan");
    }
    if !cpu_power_known {
        missing.push("CPU power");
    }
    if !any_known(slot_temps_known) {
        missing.push("RAM temp");
    }
    let ghost views = missing@.map_values(|s: &str| s@);
    assert(views == missing_sensors(
        cpu_temp_known,
        cpu_fan_known,
        cpu_power_known,
        slot_temps_known@,
    ));
    let mut note = String::new();
    if missing.len() == 0 {
        push_str(&mut note, "Native sensors OK.");
        return note;
    }
    let mut i: usize = 0;
    while i < missing.len()
        invariant
            i <= missing@.len(),
            views == missing@.map_values(|s: &str| s@),
            i > 0 ==> note@ == join(views.take(i as int), ", "@),
            i == 0 ==> note@ == Seq::<char>::empty(),
        decreases missing.len() - i,
    {
        assert(views.take(i + 1).drop_last() == views.take(i as int));
        assert(views.take(i + 1).last() == missing@[i as int]@);
        if i > 0 {
            push_str(&mut note, ", ");
        } else {
            assert(views.take(1) == seq![views[0]]);
        }
        push_str(&mut note, missing[i]);
        i += 1;
    }
    assert(views.take(missing@.len() as int) == views);
    push_str(&mut note, " unavailable via Windows APIs (needs chipset/EC access).");
    note
}


/// The chosen thermal zone reading is always a plausible one.
pub proof fn lemma_zone_choice_plausible(zones: Seq<ThermalReading>, best: Option<u32>)
    requires
        best matches Some(b) ==> ZONE_MIN_RAW <= b <= ZONE_MAX_RAW,
    ensures
        zone_scan(zones, best) matches Some(r) ==> ZONE_MIN_RAW <= r <= ZONE_MAX_RAW,
    decreases zones.len(),
{
    if zones.len() > 0 {
        let z = zones[0];
        match z.current_temperature {
            None => lemma_zone_choice_plausible(zones.drop_first(), best),
            Some(raw) => {
                if !(ZONE_MIN_RAW <= raw <= ZONE_MAX_RAW) {
                    lemma_zone_choice_plausible(zones.drop_first(), best);
                } else if !is_cpu_zone(z.instance_name) {
                    lemma_zone_choice_plausible(zones.drop_first(), Some(raw));
                }
            },
        }
    }
}


/// A zone with a plausible reading.
pub open spec fn zone_plausible(z: ThermalReading) -> bool {
    z.current_temperature matches Some(r) && ZONE_MIN_RAW <= r <= ZONE_MAX_RAW
}

/// A processor zone with a plausible reading.
pub open spec fn cpu_zone_plausible(z: ThermalReading) -> bool {
    zone_plausible(z) && is_cpu_zone(z.instance_name)
}

#[verifier::rlimit(50)]
#[verifier::spinoff_prover]
proof fn lemma_zone_scan_rule(zones: Seq<ThermalReading>, best: Option<u32>)
    ensures
        forall|i0: int|
            0 <= i0 < zones.len() && cpu_zone_plausible(zones[i0]) && (forall|i: int|
                0 <= i < i0 ==> !cpu_zone_plausible(#[trigger] zones[i])) ==> zone_scan(zones, best)
                == zones[i0].current_temperature,
        (forall|i: int| 0 <= i < zones.len() ==> !cpu_zone_plausible(#[trigger] zones[i])) ==> {
            &&& forall|j: int|
                0 <= j < zones.len() && zone_plausible(zones[j]) && (forall|i: int|
                    j < i < zones.len() ==> !zone_plausible(#[trigger] zones[i])) ==> zone_scan(
                    zones,
                    best,
                ) == zones[j].current_temperature
            &&& (forall|i: int| 0 <= i < zones.len() ==> !zone_plausible(#[trigger] zones[i]))
                ==> zone_scan(zones, best) == best
        },
    decreases zones.len(),
{
    if zones.len() > 0 {
        let z = zones[0];
        let t = zones.drop_first();
        let next = if zone_plausible(z) {
            z.current_temperature
        } else {
            best
        };
        lemma_zone_scan_rule(t, next);
        let r = zone_scan(zones, best);
        if !cpu_zone_plausible(z) {
            assert(r == zone_scan(t, next));
        }
        assert forall|i0: int|
            0 <= i0 < zones.len() && cpu_zone_plausible(zones[i0]) && (forall|i: int|
                0 <= i < i0 ==> !cpu_zone_plausible(#[trigger] zones[i])) implies r
            == zones[i0].current_temperature by {
            if i0 > 0 {
                assert(!cpu_zone_plausible(zones[0]));
                assert(t[i0 - 1] == zones[i0]);
                assert forall|i: int| 0 <= i < i0 - 1 implies !cpu_zone_plausible(
                    #[trigger] t[i],
                ) by {
                    assert(t[i] == zones[i + 1]);
                }
            }
        }
        if forall|i: int| 0 <= i < zones.len() ==> !cpu_zone_plausible(#[trigger] zones[i]) {
            assert(!cpu_zone_plausible(zones[0]));
            assert forall|i: int| 0 <= i < t.len() implies !cpu_zone_plausible(#[trigger] t[i]) by {
                assert(t[i] == zones[i + 1]);
            }
            assert forall|j: int|
                0 <= j < zones.len() && zone_plausible(zones[j]) && (forall|i: int|
                    j < i < zones.len() ==> !zone_plausible(#[trigger] zones[i])) implies r
                == zones[j].current_temperature by {
                if j == 0 {
                    assert forall|i: int| 0 <= i < t.len() implies !zone_plausible(
                        #[trigger] t[i],
                    ) by {
                        assert(t[i] == zones[i + 1]);
                    }
                } else {
                    assert(t[j - 1] == zones[j]);
                    assert forall|i: int| j - 1 < i < t.len() implies !zone_plausible(
                        #[trigger] t[i],
                    ) by {
                        assert(t[i] == zones[i + 1]);
                    }
                }
            }
            if forall|i: int| 0 <= i < zones.len() ==> !zone_plausible(#[trigger] zones[i]) {
                assert(!zone_plausible(zones[0]));
                assert forall|i: int| 0 <= i < t.len() implies !zone_plausible(#[trigger] t[i]) by {
                    assert(t[i] == zones[i + 1]);
                }
            }
        }
    }
}

/// The CPU temperature reading, stated directly: the first plausible processor zone; with
/// none, the last plausible zone; nothing when no zone is plausible.
pub proof fn lemma_thermal_zone_rule(zones: Seq<ThermalReading>)
    ensures
        forall|i0: int|
            0 <= i0 < zones.len() && cpu_zone_plausible(zones[i0]) && (forall|i: int|
                0 <= i < i0 ==> !cpu_zone_plausible(#[trigger] zones[i])) ==> zone_scan(zones, None)
                == zones[i0].current_temperature,
        (forall|i: int| 0 <= i < zones.len() ==> !cpu_zone_plausible(#[trigger] zones[i])) ==> {
            &&& forall|j: int|
                0 <= j < zones.len() && zone_plausible(zones[j]) && (forall|i: int|
                    j < i < zones.len() ==> !zone_plausible(#[trigger] zones[i])) ==> zone_scan(
                    zones,
                    None,
                ) == zones[j].current_temperature
            &&& (forall|i: int| 0 <= i < zones.len() ==> !zone_plausible(#[trigger] zones[i]))
                ==> zone_scan(zones, None) is None
        },
{
    lemma_zone_scan_rule(zones, None);
}

// ---------------------------------------------------------------- the note, directly

proof fn lemma_contains_concat(a: Seq<Seq<char>>, b: Seq<Seq<char>>, x: Seq<char>)
    ensures
        (a + b).contains(x) <==> (a.contains(x) || b.contains(x)),
{
    if (a + b).contains(x) {
        let i = choose|i: int| 0 <= i < (a + b).len() && (a + b)[i] == x;
        if i < a.len() {
            assert(a[i] == x);
        } else {
            assert(b[i - a.len()] == x);
        }
    }
    if a.contains(x) {
        let i = choose|i: int| 0 <= i < a.len() && a[i] == x;
        assert((a + b)[i] == x);
    }
    if b.contains(x) {
        let i = choose|i: int| 0 <= i < b.len() && b[i] == x;
        assert((a + b)[i + a.len()] == x);
    }
}

/// Each sensor is named in the missing list exactly when it is unknown, independently of the
/// others: `CPU temp`, `CPU fan` and `CPU power` when their reading is unknown, `RAM temp`
/// when no memory module has a temperature. Nothing else is listed and nothing twice, in
/// that order.
pub proof fn lemma_missing_sensors_rule(
    cpu_temp: bool,
    cpu_fan: bool,
    cpu_power: bool,
    slot_temps: Seq<bool>,
)
    ensures
        ({
            let m = missing_sensors(cpu_temp, cpu_fan, cpu_power, slot_temps);
            let ram_unknown = forall|i: int| 0 <= i < slot_temps.len() ==> !slot_temps[i];
            &&& m.contains("CPU temp"@) <==> !cpu_temp
            &&& m.contains("CPU fan"@) <==> !cpu_fan
            &&& m.contains("CPU power"@) <==> !cpu_power
            &&& m.contains("RAM temp"@) <==> ram_unknown
            &&& m.len() == (if cpu_temp { 0int } else { 1int }) + (if cpu_fan { 0int } else { 1int })
                + (if cpu_power { 0int } else { 1int }) + (if ram_unknown { 1int } else { 0int })
            &&& forall|i: int|
                0 <= i < m.len() ==> #[trigger] m[i] == "CPU temp"@ || m[i] == "CPU fan"@ || m[i]
                    == "CPU power"@ || m[i] == "RAM temp"@
            &&& forall|i: int, j: int| 0 <= i < j < m.len() ==> m[i] != m[j]
        }),
{
    reveal_strlit("CPU temp");
    reveal_strlit("CPU fan");
    reveal_strlit("CPU power");
    reveal_strlit("RAM temp");
    let a = "CPU temp"@;
    let b = "CPU fan"@;
    let c = "CPU power"@;
    let d = "RAM temp"@;
    assert(a != b && a != c && a != d && b != c && b != d && c != d) by {
        assert(a[4] != b[4] || a.len() != b.len());
        assert(a.len() != c.len());
        assert(a[0] != d[0]);
        assert(b.len() != c.len());
        assert(b[0] != d[0]);
        assert(c[0] != d[0]);
    }
    let t: Seq<Seq<char>> = if cpu_temp { Seq::empty() } else { seq![a] };
    let f: Seq<Seq<char>> = if cpu_fan { Seq::empty() } else { seq![b] };
    let p: Seq<Seq<char>> = if cpu_power { Seq::empty() } else { seq![c] };
    let r: Seq<Seq<char>> = if exists|i: int| 0 <= i < slot_temps.len() && slot_temps[i] {
        Seq::empty()
    } else {
        seq![d]
    };
    let m = missing_sensors(cpu_temp, cpu_fan, cpu_power, slot_temps);
    assert(m == t + f + p + r);
    lemma_contains_concat(t + f + p, r, a);
    lemma_contains_concat(t + f, p, a);
    lemma_contains_concat(t, f, a);
    lemma_contains_concat(t + f + p, r, b);
    lemma_contains_concat(t + f, p, b);
    lemma_contains_concat(t, f, b);
    lemma_contains_concat(t + f + p, r, c);
    lemma_contains_concat(t + f, p, c);
    lemma_contains_concat(t, f, c);
    lemma_contains_concat(t + f + p, r, d);
    lemma_contains_concat(t + f, p, d);
    lemma_contains_concat(t, f, d);
    assert(seq![a].contains(a) && seq![b].contains(b) && seq![c].contains(c) && seq![d].contains(d)) by {
        assert(seq![a][0] == a);
        assert(seq![b][0] == b);
        assert(seq![c][0] == c);
        assert(seq![d][0] == d);
    }
    assert(!Seq::<Seq<char>>::empty().contains(a));
    assert(!Seq::<Seq<char>>::empty().contains(b));
    assert(!Seq::<Seq<char>>::empty().contains(c));
    assert(!Seq::<Seq<char>>::empty().contains(d));
    assert forall|i: int|
        0 <= i < m.len() implies #[trigger] m[i] == a || m[i] == b || m[i] == c || m[i] == d by {
        assert(m.contains(m[i]));
        lemma_contains_concat(t + f + p, r, m[i]);
        lemma_contains_concat(t + f, p, m[i]);
        lemma_contains_concat(t, f, m[i]);
        if t.contains(m[i]) {
            let k = choose|k: int| 0 <= k < t.len() && t[k] == m[i];
        }
        if f.contains(m[i]) {
            let k = choose|k: int| 0 <= k < f.len() && f[k] == m[i];
        }
        if p.contains(m[i]) {
            let k = choose|k: int| 0 <= k < p.len() && p[k] == m[i];
        }
        if r.contains(m[i]) {
            let k = choose|k: int| 0 <= k < r.len() && r[k] == m[i];
        }
    }
    assert forall|i: int, j: int| 0 <= i < j < m.len() implies m[i] != m[j] by {
        let ti = if cpu_temp { 0int } else { 1int };
        let fi = if cpu_fan { 0int } else { 1int };
        let pi = if cpu_power { 0int } else { 1int };
        assert(i < ti ==> m[i] == a);
        assert(ti <= i < ti + fi ==> m[i] == b);
        assert(ti + fi <= i < ti + fi + pi ==> m[i] == c);
        assert(ti + fi + pi <= i ==> m[i] == d);
        assert(j < ti ==> m[j] == a);
        assert(ti <= j < ti + fi ==> m[j] == b);
        assert(ti + fi <= j < ti + fi + pi ==> m[j] == c);
        assert(ti + fi + pi <= j ==> m[j] == d);
    }
}

} // verus!
