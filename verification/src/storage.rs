//! Drive discovery and the byte layouts of the three temperature queries that are sent to a
//! physical drive: NVMe SMART/health log page, ATA SMART READ DATA, and the storage
//! temperature property.  The device I/O itself happens outside the library; here the
//! request buffers are built and the replies decoded.
use vstd::prelude::*;
use crate::text::{chars_le, chars_le_exec, chars_of, decimal, push_decimal, push_str, trim, trimmed};

verus! {

// ---------------------------------------------------------------- little-endian bytes

/// The four little-endian bytes of `x`.
pub open spec fn le32(x: u32) -> Seq<u8> {
    seq![(x % 256) as u8, ((x / 256) % 256) as u8, ((x / 65536) % 256) as u8, (x / 16777216) as u8]
}

/// `n` zero bytes.
pub open spec fn zeros(n: nat) -> Seq<u8> {
    Seq::new(n, |i: int| 0u8)
}

/// The little-endian `u32` stored at `s[i .. i + 4]`.
pub open spec fn u32_at(s: Seq<u8>, i: int) -> int {
    s[i] + 256 * s[i + 1] + 65536 * s[i + 2] + 16777216 * s[i + 3]
}

/// The little-endian `u16` stored at `s[i .. i + 2]`.
pub open spec fn u16_at(s: Seq<u8>, i: int) -> int {
    s[i] + 256 * s[i + 1]
}

/// The little-endian two's complement `i16` stored at `s[i .. i + 2]`.
pub open spec fn i16_at(s: Seq<u8>, i: int) -> int {
    if u16_at(s, i) >= 32768 {
        u16_at(s, i) - 65536
    } else {
        u16_at(s, i)
    }
}

fn push_u32_le(v: &mut Vec<u8>, x: u32)
    ensures
        final(v)@ == old(v)@ + le32(x),
{
    v.push((x % 256) as u8);
    v.push(((x / 256) % 256) as u8);
    v.push(((x / 65536) % 256) as u8);
    v.push((x / 16777216) as u8);
}

fn push_zeros(v: &mut Vec<u8>, n: usize)
    ensures
        final(v)@ == old(v)@ + zeros(n as nat),
{
    let mut i: usize = 0;
    while i < n
        invariant
            i <= n,
            v@ == old(v)@ + zeros(i as nat),
        decreases n - i,
    {
        v.push(0);
        i += 1;
        assert(zeros(i as nat) == zeros((i - 1) as nat).push(0u8));
    }
}

fn read_u32_le(buf: &[u8], i: usize) -> (r: u32)
    requires
        i + 4 <= buf@.len(),
    ensures
        r == u32_at(buf@, i as int),
{
    buf[i] as u32 + (buf[i + 1] as u32) * 256 + (buf[i + 2] as u32) * 65536 + (buf[i + 3] as u32)
        * 16777216
}

fn read_u16_le(buf: &[u8], i: usize) -> (r: u16)
    requires
        i + 2 <= buf@.len(),
    ensures
        r == u16_at(buf@, i as int),
{
    buf[i] as u16 + (buf[i + 1] as u16) * 256
}

fn read_i16_le(buf: &[u8], i: usize) -> (r: i16)
    requires
        i + 2 <= buf@.len(),
    ensures
        r == i16_at(buf@, i as int),
{
    let u = read_u16_le(buf, i);
    if u >= 32768 {
        (u as i32 - 65536) as i16
    } else {
        u as i16
    }
}

// ---------------------------------------------------------------- NVMe SMART / health log

/// Size of the NVMe query buffer: an 8-byte property query, the 40-byte protocol-specific
/// header and a 512-byte log page.
pub const NVME_QUERY_LEN: usize = 560;

/// The property query asking for the NVMe SMART/health log page (page 2) of namespace `nsid`,
/// through storage property `property_id`: eight little-endian words (property, standard
/// query, protocol NVMe, data type log page, page id, namespace, header size, payload size)
/// followed by zeros.
pub open spec fn nvme_query_bytes(property_id: u32, nsid: u32) -> Seq<u8> {
    le32(property_id) + le32(0) + le32(3) + le32(2) + le32(2) + le32(nsid) + le32(40) + le32(512)
        + zeros(528)
}

/// Builds the NVMe SMART/health log request.
pub fn nvme_query_input(property_id: u32, nsid: u32) -> (buf: Vec<u8>)
    ensures
        buf@ == nvme_query_bytes(property_id, nsid),
        buf@.len() == NVME_QUERY_LEN,
{
    let mut buf: Vec<u8> = Vec::new();
    push_u32_le(&mut buf, property_id);
    push_u32_le(&mut buf, 0);
    push_u32_le(&mut buf, 3);
    push_u32_le(&mut buf, 2);
    push_u32_le(&mut buf, 2);
    push_u32_le(&mut buf, nsid);
    push_u32_le(&mut buf, 40);
    push_u32_le(&mut buf, 512);
    push_zeros(&mut buf, 528);
    buf
}

/// The temperature, in °C, that an NVMe query reply reports: the reply must be at least
/// 48 bytes, the log data (located by the offset and length words of the protocol header)
/// must hold at least 3 bytes inside the buffer, and the composite temperature in its bytes
/// 1..3 must be a plausible 273..=400 K.
pub open spec fn nvme_temperature_of(out: Seq<u8>, returned: u32) -> Option<u16> {
    if returned < 48 {
        None
    } else {
        let abs = 8 + u32_at(out, 24);
        if u32_at(out, 28) < 3 || out.len() < abs + 3 {
            None
        } else {
            let kelvin = u16_at(out, abs + 1);
            if 273 <= kelvin <= 400 {
                Some((kelvin - 273) as u16)
            } else {
                None
            }
        }
    }
}

/// Decodes the temperature from an NVMe query reply of which `returned` bytes were written.
pub fn nvme_temperature(out: &[u8], returned: u32) -> (t: Option<u16>)
    requires
        out@.len() >= 32,
    ensures
        t == nvme_temperature_of(out@, returned),
{
    if returned < 48 {
        return None;
    }
    let data_offset = read_u32_le(out, 24) as u64;
    let data_len = read_u32_le(out, 28);
    let abs = 8 + data_offset;
    if data_len < 3 || (out.len() as u64) < abs + 3 {
        return None;
    }
    let at = abs as usize;
    let kelvin = read_u16_le(out, at + 1);
    if 273 <= kelvin && kelvin <= 400 {
        Some(kelvin - 273)
    } else {
        None
    }
}

// ---------------------------------------------------------------- ATA SMART

/// Size of the ATA SMART command block (`SENDCMDINPARAMS`).
pub const ATA_COMMAND_LEN: usize = 36;

/// Size of the ATA SMART reply block (`SENDCMDOUTPARAMS`): a 16-byte header and the
/// 512-byte SMART data sector.
pub const ATA_REPLY_LEN: usize = 528;

/// SMART READ DATA: buffer size 512, then the IDE registers (features 0xD0, sector count 1,
/// sector number 1, cylinder 0xC24F, drive/head 0xA0, command 0xB0), drive 0, zero padding.
pub open spec fn ata_command_bytes() -> Seq<u8> {
    le32(512) + seq![0xD0u8, 1u8, 1u8, 0x4Fu8, 0xC2u8, 0xA0u8, 0xB0u8, 0u8] + zeros(24)
}

/// Builds the ATA SMART READ DATA command block.
pub fn ata_smart_command() -> (buf: Vec<u8>)
    ensures
        buf@ == ata_command_bytes(),
        buf@.len() == ATA_COMMAND_LEN,
{
    let mut buf: Vec<u8> = Vec::new();
    push_u32_le(&mut buf, 512);
    buf.push(0xD0);
    buf.push(1);
    buf.push(1);
    buf.push(0x4F);
    buf.push(0xC2);
    buf.push(0xA0);
    buf.push(0xB0);
    buf.push(0);
    push_zeros(&mut buf, 24);
    assert(buf@ == ata_command_bytes());
    buf
}

/// A plausible drive temperature: 1..110 °C.
pub open spec fn plausible(t: int) -> bool {
    1 <= t < 110
}

/// Scans the 30 SMART attribute entries from entry `k` on (entry `k` sits at byte
/// `18 + 12k` of the reply: id, then its raw value 5 bytes later).  Attribute 194 decides
/// at once (its raw value if plausible, else nothing); otherwise the last plausible
/// attribute 190 seen wins.
pub open spec fn ata_scan(out: Seq<u8>, k: nat, best: Option<u8>) -> Option<u8>
    decreases 30 - k,
{
    if k >= 30 {
        best
    } else {
        let id = out[18 + 12 * k as int];
        let raw = out[23 + 12 * k as int];
        if id == 194 {
            if plausible(raw as int) {
                Some(raw)
            } else {
                None
            }
        } else if id == 190 && plausible(raw as int) {
            ata_scan(out, k + 1, Some(raw))
        } else {
            ata_scan(out, k + 1, best)
        }
    }
}

/// Decodes the temperature, in °C, from an ATA SMART reply.
pub fn ata_smart_temperature(out: &[u8]) -> (t: Option<u8>)
    requires
        out@.len() >= ATA_REPLY_LEN,
    ensures
        t == ata_scan(out@, 0, None),
{
    let mut best: Option<u8> = None;
    let mut k: usize = 0;
    while k < 30
        invariant
            k <= 30,
            out@.len() >= ATA_REPLY_LEN,
            ata_scan(out@, 0, None) == ata_scan(out@, k as nat, best),
        decreases 30 - k,
    {
        let id = out[18 + 12 * k];
        let raw = out[23 + 12 * k];
        if id == 194 {
            if 1 <= raw && raw < 110 {
                return Some(raw);
            } else {
                return None;
            }
        }
        if id == 190 && 1 <= raw && raw < 110 {
            best = Some(raw);
        }
        k += 1;
    }
    best
}

// ---------------------------------------------------------------- storage temperature property

/// Size of the storage temperature reply buffer.
pub const STORAGE_REPLY_LEN: usize = 512;

/// The query for `StorageDeviceTemperatureProperty` (6), standard query.
pub open spec fn storage_query_bytes() -> Seq<u8> {
    le32(6) + le32(0)
}

/// Builds the storage temperature property query.
pub fn storage_temperature_query() -> (buf: Vec<u8>)
    ensures
        buf@ == storage_query_bytes(),
{
    let mut buf: Vec<u8> = Vec::new();
    push_u32_le(&mut buf, 6);
    push_u32_le(&mut buf, 0);
    buf
}

/// Scans temperature info entries `k ..count` (16 bytes each from byte 24, temperature as
/// `i16` at offset 2) for the first plausible one, stopping at an entry that does not fit in
/// the `returned` bytes.
pub open spec fn storage_scan(out: Seq<u8>, returned: u32, count: nat, k: nat) -> Option<i16>
    decreases count - k,
{
    if k >= count {
        None
    } else {
        let off: int = 24 + 16 * k as int;
        if off + 4 > returned {
            None
        } else if plausible(i16_at(out, off + 2)) {
            Some(i16_at(out, off + 2) as i16)
        } else {
            storage_scan(out, returned, count, k + 1)
        }
    }
}

/// The temperature a storage temperature property reply reports: at least 24 bytes must have
/// been returned; at most 8 of the announced entries are examined.
pub open spec fn storage_temperature_of(out: Seq<u8>, returned: u32) -> Option<i16> {
    if returned < 24 {
        None
    } else {
        let count = u16_at(out, 12);
        storage_scan(out, returned, if count < 8 { count as nat } else { 8 }, 0)
    }
}

/// Decodes the temperature, in °C, from a storage temperature property reply.
pub fn storage_temperature(out: &[u8], returned: u32) -> (t: Option<i16>)
    requires
        out@.len() >= STORAGE_REPLY_LEN,
    ensures
        t == storage_temperature_of(out@, returned),
{
    if returned < 24 {
        return None;
    }
    let info_count = read_u16_le(out, 12) as usize;
    let count = if info_count < 8 { info_count } else { 8 };
    let mut off: usize = 24;
    let mut k: usize = 0;
    while k < count
        invariant
            count <= 8,
            k <= count,
            off == 24 + 16 * k,
            out@.len() >= STORAGE_REPLY_LEN,
            storage_temperature_of(out@, returned) == storage_scan(
                out@,
                returned,
                count as nat,
                k as nat,
            ),
        decreases count - k,
    {
        if off + 4 > returned as usize {
            return None;
        }
        let temperature = read_i16_le(out, off + 2);
        if 1 <= temperature && temperature < 110 {
            return Some(temperature);
        }
        off += 16;
        k += 1;
    }
    None
}


// ---------------------------------------------------------------- drives

/// The device path of physical drive `index`, `\\.\PhysicalDriveN`.
pub open spec fn drive_path_chars(index: u32) -> Seq<char> {
    "\\\\.\\PhysicalDrive"@ + decimal(index as nat)
}

pub fn physical_drive_path(index: u32) -> (path: String)
    ensures
        path@ == drive_path_chars(index),
{
    let mut path = String::new();
    push_str(&mut path, "\\\\.\\PhysicalDrive");
    push_decimal(&mut path, index as u64);
    path
}

/// Disks smaller than this (8 GiB) are not listed.
pub const MIN_DRIVE_BYTES: u64 = 8589934592;

/// A disk as the system inventory reports it.
pub struct DiskEntry {
    pub index: Option<u32>,
    pub model: Option<String>,
    pub size: Option<u64>,
}

/// A disk that is shown, with the drive index used to read its temperature.
pub struct DriveCandidate {
    pub index: u32,
    pub name: String,
    pub size_bytes: u64,
}

/// A shown disk as plain values: (drive index, name, size in bytes).
pub type DriveView = (u32, Seq<char>, u64);

pub open spec fn drive_view(d: DriveCandidate) -> DriveView {
    (d.index, d.name@, d.size_bytes)
}

pub open spec fn drive_views(ds: Seq<DriveCandidate>) -> Seq<DriveView> {
    ds.map_values(|d: DriveCandidate| drive_view(d))
}

/// The name shown for disk `index`: its model, or `Disk N` when it has none, trimmed.
pub open spec fn disk_name(index: u32, model: Option<String>) -> Seq<char> {
    trimmed(
        match model {
            Some(m) => m@,
            None => "Disk "@ + decimal(index as nat),
        },
    )
}

/// The disks that are shown, in inventory order: those with an index and at least
/// `MIN_DRIVE_BYTES` (a missing size counts as 0).
pub open spec fn shown_disks(disks: Seq<DiskEntry>) -> Seq<DriveView>
    decreases disks.len(),
{
    if disks.len() == 0 {
        Seq::empty()
    } else {
        let rest = shown_disks(disks.drop_last());
        let d = disks.last();
        match d.index {
            None => rest,
            Some(i) => {
                let size = match d.size {
                    Some(b) => b,
                    None => 0,
                };
                if size < MIN_DRIVE_BYTES {
                    rest
                } else {
                    rest.push((i, disk_name(i, d.model), size))
                }
            },
        }
    }
}

/// Inserts `x` after every entry of `s`, counted from the end, that sorts no later than it.
pub open spec fn insert_by_name(s: Seq<DriveView>, x: DriveView) -> Seq<DriveView>
    decreases s.len(),
{
    if s.len() == 0 {
        seq![x]
    } else if chars_le(s.last().1, x.1) {
        s.push(x)
    } else {
        insert_by_name(s.drop_last(), x).push(s.last())
    }
}

/// `s` stably sorted by name.
pub open spec fn sort_by_name(s: Seq<DriveView>) -> Seq<DriveView>
    decreases s.len(),
{
    if s.len() == 0 {
        s
    } else {
        insert_by_name(sort_by_name(s.drop_last()), s.last())
    }
}

proof fn lemma_insert_at(s: Seq<DriveView>, x: DriveView, j: int)
    requires
        0 <= j <= s.len(),
        forall|k: int| j <= k < s.len() ==> !chars_le(#[trigger] s[k].1, x.1),
        j == 0 || chars_le(s[j - 1].1, x.1),
    ensures
        insert_by_name(s, x) == s.insert(j, x),
    decreases s.len(),
{
    if s.len() == 0 {
        assert(s.insert(j, x) =~= seq![x]);
    } else if chars_le(s.last().1, x.1) {
        assert(j == s.len());
        assert(s.insert(j, x) =~= s.push(x));
    } else {
        let t = s.drop_last();
        assert forall|k: int| j <= k < t.len() implies !chars_le(#[trigger] t[k].1, x.1) by {
            assert(t[k] == s[k]);
        }
        lemma_insert_at(t, x, j);
        assert(s.insert(j, x) =~= t.insert(j, x).push(s.last()));
    }
}

fn name_chars(d: &DriveCandidate) -> (v: Vec<char>)
    ensures
        v@ == d.name@,
{
    chars_of(d.name.as_str())
}

/// Inserts `x` into `sorted` as `insert_by_name` does.
fn insert_drive(sorted: &mut Vec<DriveCandidate>, x: DriveCandidate)
    ensures
        drive_views(final(sorted)@) == insert_by_name(drive_views(old(sorted)@), drive_view(x)),
{
    let key = chars_of(x.name.as_str());
    let ghost views = drive_views(sorted@);
    let mut j = sorted.len();
    while j > 0 && !chars_le_exec(&name_chars(&sorted[j - 1]), &key)
        invariant
            j <= sorted@.len(),
            views == drive_views(sorted@),
            key@ == x.name@,
            forall|k: int| j <= k < views.len() ==> !chars_le(#[trigger] views[k].1, key@),
        decreases j,
    {
        j -= 1;
    }
    proof {
        lemma_insert_at(views, drive_view(x), j as int);
    }
    sorted.insert(j, x);
    assert(drive_views(sorted@) =~= views.insert(j as int, drive_view(x)));
}

/// The name of the disk in entry `d`, which has index `index`.
fn entry_name(d: &DiskEntry, index: u32) -> (name: String)
    requires
        d.index == Some(index),
    ensures
        name@ == disk_name(index, d.model),
{
    match &d.model {
        Some(m) => trim(m.as_str()),
        None => {
            let mut raw = String::new();
            push_str(&mut raw, "Disk ");
            push_decimal(&mut raw, index as u64);
            trim(raw.as_str())
        },
    }
}

/// The disks to show, stably sorted by name.
pub fn select_drives(disks: &Vec<DiskEntry>) -> (shown: Vec<DriveCandidate>)
    ensures
        drive_views(shown@) == sort_by_name(shown_disks(disks@)),
{
    let mut shown: Vec<DriveCandidate> = Vec::new();
    let mut i: usize = 0;
    while i < disks.len()
        invariant
            i <= disks@.len(),
            drive_views(shown@) == sort_by_name(shown_disks(disks@.take(i as int))),
        decreases disks.len() - i,
    {
        let d = &disks[i];
        assert(disks@.take(i + 1).drop_last() == disks@.take(i as int));
        assert(disks@.take(i + 1).last() == disks@[i as int]);
        if let Some(index) = d.index {
            let size = match d.size {
                Some(b) => b,
                None => 0,
            };
            if size >= MIN_DRIVE_BYTES {
                let name = entry_name(d, index);
                let c = DriveCandidate { index, name, size_bytes: size };
                let ghost prev = shown_disks(disks@.take(i as int));
                assert(shown_disks(disks@.take(i + 1)) == prev.push(drive_view(c)));
                assert(prev.push(drive_view(c)).drop_last() =~= prev);
                insert_drive(&mut shown, c);
            }
        }
        i += 1;
    }
    assert(disks@.take(disks@.len() as int) == disks@);
    shown
}

/// The first disk whose trimmed model is `name`.
pub open spec fn first_model_match(disks: Seq<DiskEntry>, name: Seq<char>) -> Option<DiskEntry>
    decreases disks.len(),
{
    if disks.len() == 0 {
        None
    } else if disks[0].model is Some && trimmed(disks[0].model->0@) == name {
        Some(disks[0])
    } else {
        first_model_match(disks.drop_first(), name)
    }
}

/// The drive index to re-read the temperature of the shown drive `name` from: that of the
/// first disk whose trimmed model is `name`, if that disk has one.
pub open spec fn temperature_source(disks: Seq<DiskEntry>, name: Seq<char>) -> Option<u32> {
    match first_model_match(disks, name) {
        Some(d) => d.index,
        None => None,
    }
}

fn source_for(disks: &Vec<DiskEntry>, name: &String) -> (r: Option<u32>)
    ensures
        r == temperature_source(disks@, name@),
{
    let mut j: usize = 0;
    assert(disks@.skip(0) == disks@);
    while j < disks.len()
        invariant
            j <= disks@.len(),
            first_model_match(disks@, name@) == first_model_match(disks@.skip(j as int), name@),
        decreases disks.len() - j,
    {
        assert(disks@.skip(j as int)[0] == disks@[j as int]);
        assert(disks@.skip(j as int).drop_first() == disks@.skip(j + 1));
        if let Some(m) = &disks[j].model {
            let t = trim(m.as_str());
            if t == *name {
                return disks[j].index;
            }
        }
        j += 1;
    }
    None
}

/// For each shown drive name, the drive index its temperature is refreshed from.
pub fn temperature_sources(names: &Vec<String>, disks: &Vec<DiskEntry>) -> (sources: Vec<
    Option<u32>,
>)
    ensures
        sources@.len() == names@.len(),
        forall|i: int|
            0 <= i < names@.len() ==> sources@[i] == temperature_source(disks@, #[trigger] names@[i]@),
{
    let mut sources: Vec<Option<u32>> = Vec::new();
    let mut i: usize = 0;
    while i < names.len()
        invariant
            i <= names@.len(),
            sources@.len() == i,
            forall|k: int| 0 <= k < i ==> sources@[k] == temperature_source(disks@, #[trigger] names@[k]@),
        decreases names.len() - i,
    {
        sources.push(source_for(disks, &names[i]));
        i += 1;
    }
    sources
}


/// Names never decrease along `s`.
pub open spec fn sorted_by_name(s: Seq<DriveView>) -> bool {
    forall|i: int, j: int| 0 <= i < j < s.len() ==> chars_le(#[trigger] s[i].1, #[trigger] s[j].1)
}

proof fn lemma_insert_multiset(s: Seq<DriveView>, x: DriveView)
    ensures
        insert_by_name(s, x).to_multiset() == s.to_multiset().insert(x),
    decreases s.len(),
{
    broadcast use vstd::seq_lib::group_to_multiset_ensures;

    if s.len() > 0 && !chars_le(s.last().1, x.1) {
        let t = s.drop_last();
        lemma_insert_multiset(t, x);
        assert(s == t.push(s.last()));
        assert(insert_by_name(s, x).to_multiset() =~= s.to_multiset().insert(x));
    } else if s.len() == 0 {
        assert(seq![x] == Seq::<DriveView>::empty().push(x));
        assert(s.to_multiset() =~= vstd::multiset::Multiset::empty());
    }
}

proof fn lemma_insert_bounded(s: Seq<DriveView>, x: DriveView, y: Seq<char>)
    requires
        forall|k: int| 0 <= k < s.len() ==> chars_le(#[trigger] s[k].1, y),
        chars_le(x.1, y),
    ensures
        forall|k: int|
            0 <= k < insert_by_name(s, x).len() ==> chars_le(#[trigger] insert_by_name(s, x)[k].1, y),
    decreases s.len(),
{
    let r = insert_by_name(s, x);
    if s.len() > 0 && !chars_le(s.last().1, x.1) {
        let t = s.drop_last();
        assert forall|k: int| 0 <= k < t.len() implies chars_le(#[trigger] t[k].1, y) by {
            assert(t[k] == s[k]);
        }
        lemma_insert_bounded(t, x, y);
        assert(chars_le(s[s.len() - 1].1, y));
        let u = insert_by_name(t, x);
        assert forall|k: int| 0 <= k < r.len() implies chars_le(#[trigger] r[k].1, y) by {
            if k < u.len() {
                assert(r[k] == u[k]);
            }
        }
    } else {
        assert forall|k: int| 0 <= k < r.len() implies chars_le(#[trigger] r[k].1, y) by {
            if k < s.len() {
                assert(r[k] == s[k]);
            }
        }
    }
}

proof fn lemma_insert_sorted(s: Seq<DriveView>, x: DriveView)
    requires
        sorted_by_name(s),
    ensures
        sorted_by_name(insert_by_name(s, x)),
        insert_by_name(s, x).len() == s.len() + 1,
    decreases s.len(),
{
    if s.len() == 0 {
    } else if chars_le(s.last().1, x.1) {
        let r = s.push(x);
        assert forall|i: int, j: int| 0 <= i < j < r.len() implies chars_le(
            #[trigger] r[i].1,
            #[trigger] r[j].1,
        ) by {
            if j == s.len() {
                if i < s.len() - 1 {
                    assert(chars_le(s[i].1, s[s.len() - 1].1));
                    crate::text::lemma_chars_le_transitive(s[i].1, s.last().1, x.1);
                }
            }
        }
    } else {
        let t = s.drop_last();
        let y = s.last();
        assert(sorted_by_name(t)) by {
            assert forall|i: int, j: int| 0 <= i < j < t.len() implies chars_le(
                #[trigger] t[i].1,
                #[trigger] t[j].1,
            ) by {
                assert(t[i] == s[i] && t[j] == s[j]);
            }
        }
        lemma_insert_sorted(t, x);
        crate::text::lemma_chars_le_total(y.1, x.1);
        assert forall|k: int| 0 <= k < t.len() implies chars_le(#[trigger] t[k].1, y.1) by {
            assert(t[k] == s[k]);
            assert(chars_le(s[k].1, s[s.len() - 1].1));
        }
        lemma_insert_bounded(t, x, y.1);
        let u = insert_by_name(t, x);
        let r = u.push(y);
        assert forall|i: int, j: int| 0 <= i < j < r.len() implies chars_le(
            #[trigger] r[i].1,
            #[trigger] r[j].1,
        ) by {
            if j < u.len() {
                assert(r[i] == u[i] && r[j] == u[j]);
            } else {
                assert(r[i] == u[i]);
            }
        }
    }
}

/// The drive listing is sorted by name and holds exactly the disks that qualify
/// (as a multiset: nothing lost, nothing added).
pub proof fn lemma_sort_by_name_sorts(s: Seq<DriveView>)
    ensures
        sorted_by_name(sort_by_name(s)),
        sort_by_name(s).to_multiset() == s.to_multiset(),
        sort_by_name(s).len() == s.len(),
    decreases s.len(),
{
    broadcast use vstd::seq_lib::group_to_multiset_ensures;

    if s.len() > 0 {
        let t = s.drop_last();
        lemma_sort_by_name_sorts(t);
        lemma_insert_sorted(sort_by_name(t), s.last());
        lemma_insert_multiset(sort_by_name(t), s.last());
        assert(s == t.push(s.last()));
    }
}

/// Every qualifying disk has an index and at least `MIN_DRIVE_BYTES`.
pub proof fn lemma_shown_disks_are_large(disks: Seq<DiskEntry>)
    ensures
        forall|k: int|
            0 <= k < shown_disks(disks).len() ==> #[trigger] shown_disks(disks)[k].2 >= MIN_DRIVE_BYTES,
    decreases disks.len(),
{
    if disks.len() > 0 {
        let rest = shown_disks(disks.drop_last());
        lemma_shown_disks_are_large(disks.drop_last());
        let r = shown_disks(disks);
        assert forall|k: int| 0 <= k < r.len() implies #[trigger] r[k].2 >= MIN_DRIVE_BYTES by {
            if k < rest.len() {
                assert(r[k] == rest[k]);
            }
        }
    }
}

/// Every drive listed has at least `MIN_DRIVE_BYTES`, and the listing is sorted by name.
pub proof fn lemma_listing_sorted_and_large(disks: Seq<DiskEntry>)
    ensures
        sorted_by_name(sort_by_name(shown_disks(disks))),
        forall|k: int|
            0 <= k < sort_by_name(shown_disks(disks)).len() ==> #[trigger] sort_by_name(
                shown_disks(disks),
            )[k].2 >= MIN_DRIVE_BYTES,
{
    broadcast use vstd::seq_lib::group_to_multiset_ensures;

    let s = shown_disks(disks);
    lemma_sort_by_name_sorts(s);
    lemma_shown_disks_are_large(disks);
    let r = sort_by_name(s);
    assert forall|k: int| 0 <= k < r.len() implies #[trigger] r[k].2 >= MIN_DRIVE_BYTES by {
        assert(r.contains(r[k]));
        assert(r.to_multiset().count(r[k]) > 0);
        assert(s.contains(r[k]));
    }
}


/// An ATA SMART reply never yields a temperature outside 1..110 °C.
pub proof fn lemma_ata_temperature_plausible(out: Seq<u8>, k: nat, best: Option<u8>)
    requires
        best matches Some(b) ==> plausible(b as int),
    ensures
        ata_scan(out, k, best) matches Some(t) ==> plausible(t as int),
    decreases 30 - k,
{
    if k < 30 {
        let raw = out[23 + 12 * k as int];
        if out[18 + 12 * k as int] != 194 {
            if out[18 + 12 * k as int] == 190 && plausible(raw as int) {
                lemma_ata_temperature_plausible(out, k + 1, Some(raw));
            } else {
                lemma_ata_temperature_plausible(out, k + 1, best);
            }
        }
    }
}

/// A storage temperature property reply never yields a temperature outside 1..110 °C.
pub proof fn lemma_storage_temperature_plausible(out: Seq<u8>, returned: u32, count: nat, k: nat)
    ensures
        storage_scan(out, returned, count, k) matches Some(t) ==> plausible(t as int),
    decreases count - k,
{
    if k < count {
        lemma_storage_temperature_plausible(out, returned, count, k + 1);
    }
}

/// An NVMe reply never yields a temperature above 127 °C.
pub proof fn lemma_nvme_temperature_bounded(out: Seq<u8>, returned: u32)
    ensures
        nvme_temperature_of(out, returned) matches Some(t) ==> t <= 127,
{
}


/// The attribute id of SMART entry `k` in an ATA reply.
pub open spec fn ata_id(out: Seq<u8>, k: int) -> u8 {
    out[18 + 12 * k]
}

/// The raw value of SMART entry `k` in an ATA reply.
pub open spec fn ata_raw(out: Seq<u8>, k: int) -> u8 {
    out[23 + 12 * k]
}

/// Entry `k` is an attribute 190 with a plausible raw value.
pub open spec fn ata_good_190(out: Seq<u8>, k: int) -> bool {
    ata_id(out, k) == 190 && plausible(ata_raw(out, k) as int)
}

proof fn lemma_ata_scan_first_194(out: Seq<u8>, k: nat, best: Option<u8>, k0: int)
    requires
        k <= k0 < 30,
        ata_id(out, k0) == 194,
        forall|m: int| k <= m < k0 ==> ata_id(out, m) != 194,
    ensures
        ata_scan(out, k, best) == if plausible(ata_raw(out, k0) as int) {
            Some(ata_raw(out, k0))
        } else {
            None
        },
    decreases k0 - k,
{
    if k < k0 {
        assert(ata_id(out, k as int) != 194);
        if ata_good_190(out, k as int) {
            lemma_ata_scan_first_194(out, k + 1, Some(ata_raw(out, k as int)), k0);
        } else {
            lemma_ata_scan_first_194(out, k + 1, best, k0);
        }
    }
}

proof fn lemma_ata_scan_last_190(out: Seq<u8>, k: nat, best: Option<u8>)
    requires
        k <= 30,
        forall|m: int| k <= m < 30 ==> ata_id(out, m) != 194,
    ensures
        forall|j: int|
            k <= j < 30 && ata_good_190(out, j) && (forall|m: int|
                j < m < 30 ==> !ata_good_190(out, m)) ==> ata_scan(out, k, best) == Some(
                ata_raw(out, j),
            ),
        (forall|m: int| k <= m < 30 ==> !ata_good_190(out, m)) ==> ata_scan(out, k, best) == best,
    decreases 30 - k,
{
    if k < 30 {
        assert(ata_id(out, k as int) != 194);
        let next = if ata_good_190(out, k as int) {
            Some(ata_raw(out, k as int))
        } else {
            best
        };
        lemma_ata_scan_last_190(out, k + 1, next);
    }
}

/// The temperature an ATA SMART reply gives, stated directly: the first attribute 194
/// decides (its raw value if plausible, else nothing); with no attribute 194, the last
/// plausible attribute 190, or nothing when there is none.
pub proof fn lemma_ata_temperature_rule(out: Seq<u8>)
    ensures
        forall|k0: int|
            0 <= k0 < 30 && ata_id(out, k0) == 194 && (forall|m: int|
                0 <= m < k0 ==> ata_id(out, m) != 194) ==> ata_scan(out, 0, None) == if plausible(
                ata_raw(out, k0) as int,
            ) {
                Some(ata_raw(out, k0))
            } else {
                None
            },
        (forall|m: int| 0 <= m < 30 ==> ata_id(out, m) != 194) ==> {
            &&& forall|j: int|
                0 <= j < 30 && ata_good_190(out, j) && (forall|m: int|
                    j < m < 30 ==> !ata_good_190(out, m)) ==> ata_scan(out, 0, None) == Some(
                    ata_raw(out, j),
                )
            &&& (forall|m: int| 0 <= m < 30 ==> !ata_good_190(out, m)) ==> ata_scan(out, 0, None)
                is None
        },
{
    assert forall|k0: int|
        0 <= k0 < 30 && ata_id(out, k0) == 194 && (forall|m: int|
            0 <= m < k0 ==> ata_id(out, m) != 194) implies ata_scan(out, 0, None) == if plausible(
        ata_raw(out, k0) as int) {
        Some(ata_raw(out, k0))
    } else {
        None
    } by {
        lemma_ata_scan_first_194(out, 0, None, k0);
    }
    if forall|m: int| 0 <= m < 30 ==> ata_id(out, m) != 194 {
        lemma_ata_scan_last_190(out, 0, None);
    }
}

/// The temperature of storage temperature entry `k`.
pub open spec fn storage_entry_temp(out: Seq<u8>, k: int) -> int {
    i16_at(out, 24 + 16 * k + 2)
}

/// Entry `k` lies within the `returned` bytes.
pub open spec fn storage_entry_fits(returned: u32, k: int) -> bool {
    24 + 16 * k + 4 <= returned
}

/// Entry `k` fits and holds a plausible temperature.
pub open spec fn storage_entry_good(out: Seq<u8>, returned: u32, k: int) -> bool {
    storage_entry_fits(returned, k) && plausible(storage_entry_temp(out, k))
}

proof fn lemma_storage_scan_first_good(out: Seq<u8>, returned: u32, count: nat, k: nat)
    ensures
        forall|k0: int|
            k <= k0 < count && storage_entry_good(out, returned, k0) && (forall|m: int|
                k <= m < k0 ==> !storage_entry_good(out, returned, m)) ==> storage_scan(
                out,
                returned,
                count,
                k,
            ) == Some(storage_entry_temp(out, k0) as i16),
        (forall|m: int| k <= m < count ==> !storage_entry_good(out, returned, m)) ==> storage_scan(
            out,
            returned,
            count,
            k,
        ) is None,
    decreases count - k,
{
    let r = storage_scan(out, returned, count, k);
    if k < count {
        lemma_storage_scan_first_good(out, returned, count, k + 1);
        assert forall|k0: int|
            k <= k0 < count && storage_entry_good(out, returned, k0) && (forall|m: int|
                k <= m < k0 ==> !storage_entry_good(out, returned, m)) implies r == Some(
            storage_entry_temp(out, k0) as i16,
        ) by {
            if k0 == k {
                assert(storage_entry_fits(returned, k as int));
            } else {
                assert(!storage_entry_good(out, returned, k as int));
                assert(storage_entry_fits(returned, k as int));
                assert(r == storage_scan(out, returned, count, k + 1));
                assert(forall|m: int| k + 1 <= m < k0 ==> !storage_entry_good(out, returned, m));
            }
        }
        if forall|m: int| k <= m < count ==> !storage_entry_good(out, returned, m) {
            assert(!storage_entry_good(out, returned, k as int));
            if storage_entry_fits(returned, k as int) {
                assert(r == storage_scan(out, returned, count, k + 1));
                assert(forall|m: int| k + 1 <= m < count ==> !storage_entry_good(out, returned, m));
            }
        }
    }
}

/// The temperature a storage temperature property reply gives, stated directly: among the
/// first `min(count, 8)` entries, the temperature of the first one that lies within the
/// returned bytes and is plausible; nothing when there is none or fewer than 24 bytes came
/// back.
pub proof fn lemma_storage_temperature_rule(out: Seq<u8>, returned: u32)
    ensures
        ({
            let count: nat = if u16_at(out, 12) < 8 {
                u16_at(out, 12) as nat
            } else {
                8
            };
            &&& returned < 24 ==> storage_temperature_of(out, returned) is None
            &&& returned >= 24 ==> forall|k0: int|
                0 <= k0 < count && storage_entry_good(out, returned, k0) && (forall|m: int|
                    0 <= m < k0 ==> !storage_entry_good(out, returned, m))
                    ==> storage_temperature_of(out, returned) == Some(
                    storage_entry_temp(out, k0) as i16,
                )
            &&& (forall|m: int| 0 <= m < count ==> !storage_entry_good(out, returned, m))
                ==> storage_temperature_of(out, returned) is None
        }),
{
    let count: nat = if u16_at(out, 12) < 8 {
        u16_at(out, 12) as nat
    } else {
        8
    };
    lemma_storage_scan_first_good(out, returned, count, 0);
}

// ---------------------------------------------------------------- choosing the source

/// One way of reading a drive's temperature.
pub enum TempProbe {
    /// The NVMe SMART/health log, through a storage property for a namespace.
    Nvme(u32, u32),
    /// ATA SMART READ DATA.
    Ata,
    /// The storage temperature property.
    StorageProperty,
}

/// The order in which the sources are tried: the NVMe log through the device property (50)
/// then the adapter property (49), each first for all namespaces and then for namespace 0;
/// then ATA SMART; then the storage temperature property.
pub open spec fn probe_order() -> Seq<TempProbe> {
    seq![
        TempProbe::Nvme(50, 0xFFFF_FFFF),
        TempProbe::Nvme(50, 0),
        TempProbe::Nvme(49, 0xFFFF_FFFF),
        TempProbe::Nvme(49, 0),
        TempProbe::Ata,
        TempProbe::StorageProperty,
    ]
}

/// What to do next while reading a drive's temperature.
pub enum ProbeStep {
    /// Query this source.
    Try(TempProbe),
    /// Stop; the temperature in °C, if one was read.
    Done(Option<i16>),
}

/// The step after `tried` sources were queried, the last of them giving `found`: stop at the
/// first reading, else try the next source, else give up.
pub open spec fn probe_step(tried: nat, found: Option<i16>) -> ProbeStep {
    match found {
        Some(t) => ProbeStep::Done(Some(t)),
        None => if tried < probe_order().len() {
            ProbeStep::Try(probe_order()[tried as int])
        } else {
            ProbeStep::Done(None)
        },
    }
}

fn probe_at(k: usize) -> (p: TempProbe)
    requires
        k < 6,
    ensures
        p == probe_order()[k as int],
{
    match k {
        0 => TempProbe::Nvme(50, 0xFFFF_FFFF),
        1 => TempProbe::Nvme(50, 0),
        2 => TempProbe::Nvme(49, 0xFFFF_FFFF),
        3 => TempProbe::Nvme(49, 0),
        4 => TempProbe::Ata,
        _ => TempProbe::StorageProperty,
    }
}

/// Decides the next step of reading a drive's temperature; `found` is what the last query
/// gave (`None` before the first).
pub fn next_probe(tried: usize, found: Option<i16>) -> (step: ProbeStep)
    ensures
        step == probe_step(tried as nat, found),
{
    match found {
        Some(t) => ProbeStep::Done(Some(t)),
        None => if tried < 6 {
            ProbeStep::Try(probe_at(tried))
        } else {
            ProbeStep::Done(None)
        },
    }
}

/// The outcome of following `probe_step` from `tried` sources on, when source `k` gives
/// `replies[k]`.
pub open spec fn probe_run(replies: Seq<Option<i16>>, tried: nat, found: Option<i16>) -> Option<i16>
    decreases probe_order().len() - tried,
{
    match probe_step(tried, found) {
        ProbeStep::Done(t) => t,
        ProbeStep::Try(_) => probe_run(replies, tried + 1, replies[tried as int]),
    }
}

/// Reading a drive's temperature gives the reply of the first source, in `probe_order`, that
/// gives one, and nothing when none does; later sources are not queried.
pub proof fn lemma_first_source_wins(replies: Seq<Option<i16>>)
    requires
        replies.len() == probe_order().len(),
    ensures
        forall|k0: int|
            0 <= k0 < replies.len() && replies[k0] is Some && (forall|k: int|
                0 <= k < k0 ==> #[trigger] replies[k] is None) ==> probe_run(replies, 0, None)
                == replies[k0],
        (forall|k: int| 0 <= k < replies.len() ==> #[trigger] replies[k] is None) ==> probe_run(
            replies,
            0,
            None,
        ) is None,
{
    lemma_probe_run_from(replies, 0);
}

proof fn lemma_probe_run_from(replies: Seq<Option<i16>>, tried: nat)
    requires
        replies.len() == probe_order().len(),
        tried <= replies.len(),
    ensures
        forall|k0: int|
            tried <= k0 < replies.len() && replies[k0] is Some && (forall|k: int|
                tried <= k < k0 ==> #[trigger] replies[k] is None) ==> probe_run(
                replies,
                tried,
                None,
            ) == replies[k0],
        (forall|k: int| tried <= k < replies.len() ==> #[trigger] replies[k] is None) ==> probe_run(
            replies,
            tried,
            None,
        ) is None,
    decreases replies.len() - tried,
{
    if tried < replies.len() {
        lemma_probe_run_from(replies, tried + 1);
        let r = replies[tried as int];
        assert(probe_run(replies, tried, None) == probe_run(replies, tried + 1, r));
        if r is Some {
            assert(probe_run(replies, tried + 1, r) == r);
        }
    }
}

// ---------------------------------------------------------------- the listing, exactly

/// A disk that is to be listed: it has an index and at least 8 GiB (a missing size is 0).
pub open spec fn disk_qualifies(d: DiskEntry) -> bool {
    d.index is Some && (match d.size {
        Some(b) => b,
        None => 0,
    }) >= 8589934592
}

/// How a qualifying disk is listed: its index, its trimmed model (or `Disk N`), its size.
pub open spec fn listed_as(d: DiskEntry) -> DriveView {
    let i = d.index->0;
    (
        i,
        trimmed(
            match d.model {
                Some(m) => m@,
                None => "Disk "@ + decimal(i as nat),
            },
        ),
        match d.size {
            Some(b) => b,
            None => 0,
        },
    )
}

/// The number of qualifying disks.
pub open spec fn qualifying_count(disks: Seq<DiskEntry>) -> nat
    decreases disks.len(),
{
    if disks.len() == 0 {
        0
    } else {
        qualifying_count(disks.drop_last()) + if disk_qualifies(disks.last()) {
            1nat
        } else {
            0nat
        }
    }
}

proof fn lemma_shown_disks_exact(disks: Seq<DiskEntry>)
    ensures
        forall|k: int|
            0 <= k < disks.len() && disk_qualifies(#[trigger] disks[k]) ==> shown_disks(
                disks,
            ).contains(listed_as(disks[k])),
        forall|j: int|
            0 <= j < shown_disks(disks).len() ==> exists|k: int|
                0 <= k < disks.len() && disk_qualifies(disks[k]) && #[trigger] shown_disks(
                    disks,
                )[j] == listed_as(disks[k]),
        shown_disks(disks).len() == qualifying_count(disks),
    decreases disks.len(),
{
    if disks.len() > 0 {
        let t = disks.drop_last();
        lemma_shown_disks_exact(t);
        let rest = shown_disks(t);
        let r = shown_disks(disks);
        let l = disks.len() - 1;
        let d = disks[l];
        if disk_qualifies(d) {
            assert(r == rest.push(listed_as(d)));
        } else {
            assert(r == rest);
        }
        assert forall|k: int|
            0 <= k < disks.len() && disk_qualifies(#[trigger] disks[k]) implies r.contains(
            listed_as(disks[k]),
        ) by {
            if k < l {
                assert(disks[k] == t[k]);
                let m = choose|m: int| 0 <= m < rest.len() && rest[m] == listed_as(t[k]);
                assert(r[m] == rest[m]);
            } else {
                assert(r[r.len() - 1] == listed_as(d));
            }
        }
        assert forall|j: int| 0 <= j < r.len() implies exists|k: int|
            0 <= k < disks.len() && disk_qualifies(disks[k]) && #[trigger] r[j] == listed_as(
                disks[k],
            ) by {
            if j < rest.len() {
                assert(r[j] == rest[j]);
                let k = choose|k: int|
                    0 <= k < t.len() && disk_qualifies(t[k]) && rest[j] == listed_as(t[k]);
                assert(disks[k] == t[k]);
            } else {
                assert(r[j] == listed_as(disks[l]));
            }
        }
    }
}

/// The drive listing holds exactly the qualifying disks: every disk with an index and at
/// least 8 GiB is listed (by index, trimmed model or `Disk N`, and size), everything listed is
/// such a disk, and there are as many entries as qualifying disks.
pub proof fn lemma_listing_is_complete(disks: Seq<DiskEntry>)
    ensures
        ({
            let r = sort_by_name(shown_disks(disks));
            &&& forall|k: int|
                0 <= k < disks.len() && disk_qualifies(#[trigger] disks[k]) ==> r.contains(
                    listed_as(disks[k]),
                )
            &&& forall|j: int|
                0 <= j < r.len() ==> exists|k: int|
                    0 <= k < disks.len() && disk_qualifies(disks[k]) && #[trigger] r[j]
                        == listed_as(disks[k])
            &&& r.len() == qualifying_count(disks)
        }),
{
    broadcast use vstd::seq_lib::group_to_multiset_ensures;

    let s = shown_disks(disks);
    let r = sort_by_name(s);
    lemma_shown_disks_exact(disks);
    lemma_sort_by_name_sorts(s);
    assert forall|k: int|
        0 <= k < disks.len() && disk_qualifies(#[trigger] disks[k]) implies r.contains(
        listed_as(disks[k]),
    ) by {
        assert(s.contains(listed_as(disks[k])));
        assert(s.to_multiset().count(listed_as(disks[k])) > 0);
    }
    assert forall|j: int| 0 <= j < r.len() implies exists|k: int|
        0 <= k < disks.len() && disk_qualifies(disks[k]) && #[trigger] r[j] == listed_as(
            disks[k],
        ) by {
        assert(r.contains(r[j]));
        assert(r.to_multiset().count(r[j]) > 0);
        assert(s.contains(r[j]));
        let m = choose|m: int| 0 <= m < s.len() && s[m] == r[j];
        assert(s[m] == r[j]);
    }
}

// ---------------------------------------------------------------- decoding, directly

/// The NVMe reply rule over the reply bytes: with `off` and `len` the little-endian words at
/// bytes 24 and 28 and `at = 8 + off`, a temperature is reported exactly when at least 48
/// bytes came back, `len >= 3`, bytes `at .. at + 3` lie in the buffer and the little-endian
/// kelvin value at `at + 1` is in 273..=400; it is that value minus 273.
pub proof fn lemma_nvme_temperature_rule(out: Seq<u8>, returned: u32)
    requires
        out.len() >= 32,
    ensures
        ({
            let off = out[24] + 256 * out[25] + 65536 * out[26] + 16777216 * out[27];
            let len = out[28] + 256 * out[29] + 65536 * out[30] + 16777216 * out[31];
            let at = 8 + off;
            let ok = returned >= 48 && len >= 3 && at + 3 <= out.len();
            &&& nvme_temperature_of(out, returned) is Some <==> ok && 273 <= out[at + 1] + 256
                * out[at + 2] <= 400
            &&& nvme_temperature_of(out, returned) matches Some(t) ==> t == out[at + 1] + 256 * out[at
                + 2] - 273
        }),
{
}

/// The first disk whose trimmed model is `name`, stated by index: the drive is refreshed from
/// that disk's index (nothing if it has none), and from nothing when no disk's trimmed model
/// is `name`.
pub proof fn lemma_temperature_source_rule(disks: Seq<DiskEntry>, name: Seq<char>)
    ensures
        forall|k0: int|
            0 <= k0 < disks.len() && (disks[k0].model matches Some(m) && trimmed(m@) == name)
                && (forall|k: int|
                0 <= k < k0 ==> !(#[trigger] disks[k].model matches Some(m) && trimmed(m@) == name))
                ==> temperature_source(disks, name) == disks[k0].index,
        (forall|k: int|
            0 <= k < disks.len() ==> !(#[trigger] disks[k].model matches Some(m) && trimmed(m@)
                == name)) ==> temperature_source(disks, name) is None,
    decreases disks.len(),
{
    if disks.len() > 0 {
        let t = disks.drop_first();
        lemma_temperature_source_rule(t, name);
        assert forall|k0: int|
            0 <= k0 < disks.len() && (disks[k0].model matches Some(m) && trimmed(m@) == name)
                && (forall|k: int|
                0 <= k < k0 ==> !(#[trigger] disks[k].model matches Some(m) && trimmed(m@) == name))
                implies temperature_source(disks, name) == disks[k0].index by {
            if k0 > 0 {
                assert(!(disks[0].model matches Some(m) && trimmed(m@) == name));
                assert(t[k0 - 1] == disks[k0]);
                assert forall|k: int| 0 <= k < k0 - 1 implies !(#[trigger] t[k].model matches Some(
                    m,
                ) && trimmed(m@) == name) by {
                    assert(t[k] == disks[k + 1]);
                }
            }
        }
        if forall|k: int|
            0 <= k < disks.len() ==> !(#[trigger] disks[k].model matches Some(m) && trimmed(m@)
                == name) {
            assert(!(disks[0].model matches Some(m) && trimmed(m@) == name));
            assert forall|k: int| 0 <= k < t.len() implies !(#[trigger] t[k].model matches Some(m)
                && trimmed(m@) == name) by {
                assert(t[k] == disks[k + 1]);
            }
        }
    }
}

} // verus!
