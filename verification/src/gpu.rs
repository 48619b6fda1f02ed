//! How each GPU poll updates what is shown: a failed poll records its error and keeps the
//! previous readings; a successful one replaces each reading it obtained and keeps the
//! others.
use vstd::prelude::*;
use crate::text::push_str;

verus! {

/// What one poll of the GPU driver gave.
pub enum GpuPoll {
    /// The driver library could not be loaded; the message from that attempt, if any.
    Unavailable(Option<String>),
    /// The first GPU could not be opened; the message.
    OpenFailed(String),
    /// The readings of the first GPU; `None` where a query failed.
    Device(GpuSample),
}

/// The readings of one GPU poll.
pub struct GpuSample {
    pub name: Option<String>,
    pub clock_mhz: Option<u32>,
    pub temp_c: Option<u32>,
    pub power_mw: Option<u32>,
    /// Used and total video memory, in bytes.
    pub memory: Option<(u64, u64)>,
    pub fan_pct: Option<u32>,
    pub usage_pct: Option<u32>,
}

/// What is shown of the GPU.
pub struct GpuState {
    pub name: String,
    pub clock_mhz: Option<u32>,
    pub temp_c: Option<u32>,
    pub power_mw: Option<u32>,
    pub vram_used_mb: Option<u64>,
    pub vram_total_mb: Option<u64>,
    pub fan_pct: Option<u32>,
    pub usage_pct: Option<u32>,
    pub error: Option<String>,
}

/// A fresh reading where there is one, else the previous value.
pub open spec fn fresher<T>(new: Option<T>, old: Option<T>) -> Option<T> {
    match new {
        Some(v) => Some(v),
        None => old,
    }
}

/// The GPU name shown for a poll's name reading.
pub open spec fn gpu_name_of(name: Option<String>) -> Seq<char> {
    match name {
        Some(n) => n@,
        None => "NVIDIA GPU"@,
    }
}

/// The readings are unchanged from `a` to `b`.
pub open spec fn same_readings(a: GpuState, b: GpuState) -> bool {
    &&& b.name@ == a.name@
    &&& b.clock_mhz == a.clock_mhz
    &&& b.temp_c == a.temp_c
    &&& b.power_mw == a.power_mw
    &&& b.vram_used_mb == a.vram_used_mb
    &&& b.vram_total_mb == a.vram_total_mb
    &&& b.fan_pct == a.fan_pct
    &&& b.usage_pct == a.usage_pct
}

/// `new` is what `old` becomes after a poll that returned `poll`.
pub open spec fn polled(old: GpuState, poll: GpuPoll, new: GpuState) -> bool {
    match poll {
        GpuPoll::Unavailable(e) => same_readings(old, new) && new.error == e,
        GpuPoll::OpenFailed(m) => same_readings(old, new) && new.error == Some(m),
        GpuPoll::Device(s) => {
            &&& new.error is None
            &&& new.name@ == gpu_name_of(s.name)
            &&& new.clock_mhz == fresher(s.clock_mhz, old.clock_mhz)
            &&& new.temp_c == fresher(s.temp_c, old.temp_c)
            &&& new.power_mw == fresher(s.power_mw, old.power_mw)
            &&& new.vram_used_mb == match s.memory {
                Some((used, _)) => Some((used / 1048576) as u64),
                None => old.vram_used_mb,
            }
            &&& new.vram_total_mb == match s.memory {
                Some((_, total)) => Some((total / 1048576) as u64),
                None => old.vram_total_mb,
            }
            &&& new.fan_pct == fresher(s.fan_pct, old.fan_pct)
            &&& new.usage_pct == fresher(s.usage_pct, old.usage_pct)
        },
    }
}

impl Default for GpuState {
    fn default() -> (s: GpuState)
        ensures
            s.name@ == Seq::<char>::empty(),
            s.clock_mhz is None,
            s.temp_c is None,
            s.power_mw is None,
            s.vram_used_mb is None,
            s.vram_total_mb is None,
            s.fan_pct is None,
            s.usage_pct is None,
            s.error is None,
    {
        GpuState {
            name: String::new(),
            clock_mhz: None,
            temp_c: None,
            power_mw: None,
            vram_used_mb: None,
            vram_total_mb: None,
            fan_pct: None,
            usage_pct: None,
            error: None,
        }
    }
}

impl GpuState {
    /// Takes in the result of one poll.
    pub fn apply(&mut self, poll: GpuPoll)
        ensures
            polled(*old(self), poll, *final(self)),
    {
        match poll {
            GpuPoll::Unavailable(e) => {
                self.error = e;
            },
            GpuPoll::OpenFailed(m) => {
                self.error = Some(m);
            },
            GpuPoll::Device(s) => {
                self.error = None;
                self.name = match s.name {
                    Some(n) => n,
                    None => {
                        let mut n = String::new();
                        push_str(&mut n, "NVIDIA GPU");
                        n
                    },
                };
                if let Some(c) = s.clock_mhz {
                    self.clock_mhz = Some(c);
                }
                if let Some(t) = s.temp_c {
                    self.temp_c = Some(t);
                }
                if let Some(p) = s.power_mw {
                    self.power_mw = Some(p);
                }
                if let Some((used, total)) = s.memory {
                    self.vram_used_mb = Some(crate::sensors::mib_from_bytes(used));
                    self.vram_total_mb = Some(crate::sensors::mib_from_bytes(total));
                }
                if let Some(f) = s.fan_pct {
                    self.fan_pct = Some(f);
                }
                if let Some(u) = s.usage_pct {
                    self.usage_pct = Some(u);
                }
            },
        }
    }
}

/// A failed poll never loses a reading, and a reading once obtained stays shown until a
/// fresh one replaces it.
pub proof fn lemma_readings_survive_failures(old: GpuState, poll: GpuPoll, new: GpuState)
    requires
        polled(old, poll, new),
    ensures
        old.temp_c is Some ==> new.temp_c is Some,
        old.clock_mhz is Some ==> new.clock_mhz is Some,
        old.power_mw is Some ==> new.power_mw is Some,
        old.fan_pct is Some ==> new.fan_pct is Some,
        old.usage_pct is Some ==> new.usage_pct is Some,
        old.vram_total_mb is Some ==> new.vram_total_mb is Some,
        !(poll is Device) ==> same_readings(old, new),
{
}

/// A successful poll, stated reading by reading: every reading the poll obtained replaces the
/// shown one, every reading it missed leaves the shown one as it was, the error is cleared,
/// and the name is the reported one or `NVIDIA GPU`.
pub proof fn lemma_successful_poll_rule(old: GpuState, s: GpuSample, new: GpuState)
    requires
        polled(old, GpuPoll::Device(s), new),
    ensures
        new.error is None,
        s.name matches Some(n) ==> new.name@ == n@,
        s.name is None ==> new.name@ == "NVIDIA GPU"@,
        s.clock_mhz is Some ==> new.clock_mhz == s.clock_mhz,
        s.clock_mhz is None ==> new.clock_mhz == old.clock_mhz,
        s.temp_c is Some ==> new.temp_c == s.temp_c,
        s.temp_c is None ==> new.temp_c == old.temp_c,
        s.power_mw is Some ==> new.power_mw == s.power_mw,
        s.power_mw is None ==> new.power_mw == old.power_mw,
        s.fan_pct is Some ==> new.fan_pct == s.fan_pct,
        s.fan_pct is None ==> new.fan_pct == old.fan_pct,
        s.usage_pct is Some ==> new.usage_pct == s.usage_pct,
        s.usage_pct is None ==> new.usage_pct == old.usage_pct,
        s.memory matches Some(m) ==> new.vram_used_mb == Some((m.0 / 1048576) as u64)
            && new.vram_total_mb == Some((m.1 / 1048576) as u64),
        s.memory is None ==> new.vram_used_mb == old.vram_used_mb && new.vram_total_mb
            == old.vram_total_mb,
{
}

} // verus!
