use pulse::storage::{
    ata_smart_command, ata_smart_temperature, next_probe, nvme_query_input, nvme_temperature,
    physical_drive_path, select_drives, storage_temperature, storage_temperature_query,
    temperature_sources, DiskEntry, ProbeStep, TempProbe, ATA_REPLY_LEN, NVME_QUERY_LEN,
    STORAGE_REPLY_LEN,
};

const GIB: u64 = 1024 * 1024 * 1024;

fn put_u32(buf: &mut [u8], at: usize, v: u32) {
    buf[at..at + 4].copy_from_slice(&v.to_le_bytes());
}

#[test]
fn nvme_query_layout() {
    let buf = nvme_query_input(50, 0xFFFF_FFFF);
    assert_eq!(buf.len(), NVME_QUERY_LEN);
    assert_eq!(&buf[0..4], &50u32.to_le_bytes());
    assert_eq!(&buf[4..8], &0u32.to_le_bytes());
    assert_eq!(&buf[8..12], &3u32.to_le_bytes());
    assert_eq!(&buf[12..16], &2u32.to_le_bytes());
    assert_eq!(&buf[16..20], &2u32.to_le_bytes());
    assert_eq!(&buf[20..24], &0xFFFF_FFFFu32.to_le_bytes());
    assert_eq!(&buf[24..28], &40u32.to_le_bytes());
    assert_eq!(&buf[28..32], &512u32.to_le_bytes());
    assert!(buf[32..].iter().all(|b| *b == 0));
    let other = nvme_query_input(49, 7);
    assert_eq!(&other[0..4], &49u32.to_le_bytes());
    assert_eq!(&other[20..24], &7u32.to_le_bytes());
}

fn probe_name(p: &TempProbe) -> String {
    match p {
        TempProbe::Nvme(property, nsid) => format!("nvme {property} {nsid:#x}"),
        TempProbe::Ata => "ata".to_string(),
        TempProbe::StorageProperty => "property".to_string(),
    }
}

/// Follows `next_probe`, the source tried `k`-th answering `replies[k]`.
fn run_probes(replies: &[Option<i16>]) -> (Vec<String>, Option<i16>) {
    let mut tried_names = Vec::new();
    let mut found = None;
    let mut tried = 0;
    loop {
        match next_probe(tried, found) {
            ProbeStep::Done(t) => return (tried_names, t),
            ProbeStep::Try(p) => {
                tried_names.push(probe_name(&p));
                found = replies[tried];
                tried += 1;
            }
        }
    }
}

#[test]
fn probe_order_and_first_reading_wins() {
    let (tried, t) = run_probes(&[None; 6]);
    assert_eq!(
        tried,
        vec!["nvme 50 0xffffffff", "nvme 50 0x0", "nvme 49 0xffffffff", "nvme 49 0x0", "ata", "property"]
    );
    assert_eq!(t, None);
    let (tried, t) = run_probes(&[None, Some(41), Some(50), None, Some(33), Some(30)]);
    assert_eq!(tried.len(), 2);
    assert_eq!(t, Some(41));
    let (tried, t) = run_probes(&[None, None, None, None, None, Some(30)]);
    assert_eq!(tried.len(), 6);
    assert_eq!(t, Some(30));
}

#[test]
fn probe_stops_when_found() {
    assert!(matches!(next_probe(0, Some(5)), ProbeStep::Done(Some(5))));
    assert!(matches!(next_probe(6, None), ProbeStep::Done(None)));
    assert!(matches!(next_probe(4, None), ProbeStep::Try(TempProbe::Ata)));
}

fn nvme_reply(kelvin: u16, data_offset: u32, data_len: u32) -> Vec<u8> {
    let mut out = vec![0u8; NVME_QUERY_LEN];
    put_u32(&mut out, 24, data_offset);
    put_u32(&mut out, 28, data_len);
    let abs = 8 + data_offset as usize;
    if abs + 3 <= out.len() {
        out[abs + 1..abs + 3].copy_from_slice(&kelvin.to_le_bytes());
    }
    out
}

#[test]
fn nvme_temperature_decodes_composite_temperature() {
    let out = nvme_reply(313, 40, 512);
    assert_eq!(nvme_temperature(&out, 560), Some(40));
    let out = nvme_reply(273, 40, 512);
    assert_eq!(nvme_temperature(&out, 560), Some(0));
    let out = nvme_reply(400, 40, 512);
    assert_eq!(nvme_temperature(&out, 560), Some(127));
}

#[test]
fn nvme_temperature_rejects_bad_replies() {
    let out = nvme_reply(313, 40, 512);
    assert_eq!(nvme_temperature(&out, 47), None);
    assert_eq!(nvme_temperature(&nvme_reply(272, 40, 512), 560), None);
    assert_eq!(nvme_temperature(&nvme_reply(401, 40, 512), 560), None);
    assert_eq!(nvme_temperature(&nvme_reply(313, 40, 2), 560), None);
    assert_eq!(nvme_temperature(&nvme_reply(313, 600, 512), 560), None);
    assert_eq!(nvme_temperature(&nvme_reply(313, 0xFFFF_FFFF, 512), 560), None);
}

#[test]
fn ata_command_layout() {
    let cmd = ata_smart_command();
    let mut expected = vec![0u8; 36];
    expected[0..4].copy_from_slice(&512u32.to_le_bytes());
    expected[4..12].copy_from_slice(&[0xD0, 1, 1, 0x4F, 0xC2, 0xA0, 0xB0, 0]);
    assert_eq!(cmd, expected);
}

fn ata_reply(entries: &[(u8, u8)]) -> Vec<u8> {
    let mut out = vec![0u8; ATA_REPLY_LEN];
    for (k, (id, raw)) in entries.iter().enumerate() {
        out[18 + 12 * k] = *id;
        out[23 + 12 * k] = *raw;
    }
    out
}

#[test]
fn ata_temperature_prefers_attribute_194() {
    assert_eq!(ata_smart_temperature(&ata_reply(&[(5, 0), (194, 35)])), Some(35));
    assert_eq!(ata_smart_temperature(&ata_reply(&[(190, 40), (194, 36)])), Some(36));
}

#[test]
fn ata_temperature_falls_back_to_attribute_190() {
    assert_eq!(ata_smart_temperature(&ata_reply(&[(190, 40), (9, 1)])), Some(40));
    assert_eq!(ata_smart_temperature(&ata_reply(&[(190, 40), (190, 41)])), Some(41));
    assert_eq!(ata_smart_temperature(&ata_reply(&[(190, 40), (190, 120)])), Some(40));
}

#[test]
fn ata_temperature_implausible_194_gives_nothing() {
    assert_eq!(ata_smart_temperature(&ata_reply(&[(190, 40), (194, 0)])), None);
    assert_eq!(ata_smart_temperature(&ata_reply(&[(194, 110)])), None);
    assert_eq!(ata_smart_temperature(&ata_reply(&[])), None);
}

#[test]
fn ata_temperature_last_entry_is_read() {
    let mut entries = vec![(1u8, 0u8); 29];
    entries.push((194, 50));
    assert_eq!(ata_smart_temperature(&ata_reply(&entries)), Some(50));
}

#[test]
fn storage_query_layout() {
    assert_eq!(storage_temperature_query(), vec![6, 0, 0, 0, 0, 0, 0, 0]);
}

fn storage_reply(temps: &[i16]) -> Vec<u8> {
    let mut out = vec![0u8; STORAGE_REPLY_LEN];
    out[12..14].copy_from_slice(&(temps.len() as u16).to_le_bytes());
    for (k, t) in temps.iter().enumerate() {
        let off = 24 + 16 * k;
        out[off + 2..off + 4].copy_from_slice(&t.to_le_bytes());
    }
    out
}

#[test]
fn storage_temperature_reads_first_plausible_entry() {
    assert_eq!(storage_temperature(&storage_reply(&[45]), 40), Some(45));
    assert_eq!(storage_temperature(&storage_reply(&[-5, 0, 51]), 72), Some(51));
}

#[test]
fn storage_temperature_respects_returned_length() {
    assert_eq!(storage_temperature(&storage_reply(&[45]), 20), None);
    assert_eq!(storage_temperature(&storage_reply(&[45]), 24), None);
    assert_eq!(storage_temperature(&storage_reply(&[-5, 51]), 40), None);
}

#[test]
fn storage_temperature_examines_at_most_eight_entries() {
    let mut temps = vec![0i16; 8];
    temps.push(40);
    assert_eq!(storage_temperature(&storage_reply(&temps), 512), None);
}

#[test]
fn drive_path_names_the_physical_drive() {
    assert_eq!(physical_drive_path(3), "\\\\.\\PhysicalDrive3");
    assert_eq!(physical_drive_path(0), "\\\\.\\PhysicalDrive0");
    assert_eq!(physical_drive_path(4294967295), "\\\\.\\PhysicalDrive4294967295");
}

fn disk(index: Option<u32>, model: Option<&str>, size: Option<u64>) -> DiskEntry {
    DiskEntry { index, model: model.map(|m| m.to_string()), size }
}

#[test]
fn select_drives_filters_and_sorts() {
    let disks = vec![
        disk(Some(1), Some("  Samsung SSD 980  "), Some(500 * GIB)),
        disk(None, Some("No index"), Some(500 * GIB)),
        disk(Some(0), None, Some(1000 * GIB)),
        disk(Some(2), Some("Tiny"), Some(4 * GIB)),
        disk(Some(3), Some("Crucial"), None),
        disk(Some(4), Some("Edge"), Some(8 * GIB)),
        disk(Some(5), Some("Below"), Some(8 * GIB - 1)),
    ];
    let shown = select_drives(&disks);
    let names: Vec<&str> = shown.iter().map(|d| d.name.as_str()).collect();
    assert_eq!(names, vec!["Disk 0", "Edge", "Samsung SSD 980"]);
    let indices: Vec<u32> = shown.iter().map(|d| d.index).collect();
    assert_eq!(indices, vec![0, 4, 1]);
    assert_eq!(shown[2].size_bytes, 500 * GIB);
}

#[test]
fn select_drives_is_stable_for_equal_names() {
    let disks = vec![
        disk(Some(7), Some("Same"), Some(100 * GIB)),
        disk(Some(2), Some("Alpha"), Some(100 * GIB)),
        disk(Some(5), Some(" Same"), Some(100 * GIB)),
    ];
    let shown = select_drives(&disks);
    let indices: Vec<u32> = shown.iter().map(|d| d.index).collect();
    assert_eq!(indices, vec![2, 7, 5]);
}

#[test]
fn select_drives_orders_by_code_point() {
    let disks = vec![
        disk(Some(1), Some("b"), Some(100 * GIB)),
        disk(Some(2), Some("B"), Some(100 * GIB)),
        disk(Some(3), Some("Ä"), Some(100 * GIB)),
        disk(Some(4), Some("Ba"), Some(100 * GIB)),
    ];
    let names: Vec<String> = select_drives(&disks).into_iter().map(|d| d.name).collect();
    let mut expected = names.clone();
    expected.sort();
    assert_eq!(names, expected);
    assert_eq!(names, vec!["B", "Ba", "b", "Ä"]);
}

#[test]
fn temperature_sources_match_trimmed_models() {
    let disks = vec![
        disk(Some(1), Some("  Samsung SSD  "), Some(500 * GIB)),
        disk(None, Some("Orphan"), Some(500 * GIB)),
        disk(Some(9), Some("Orphan"), Some(500 * GIB)),
    ];
    let names = vec!["Samsung SSD".to_string(), "Orphan".to_string(), "Gone".to_string()];
    assert_eq!(temperature_sources(&names, &disks), vec![Some(1), None, None]);
}
