use pulse::sensors::{
    cpu_display_name, mib_from_bytes, needs_acpi_temperature, native_note, ram_slot_label, ram_slot_labels, select_thermal_zone,
    total_frequency, MemoryModule, ThermalReading,
};

#[test]
fn cpu_name_is_trimmed_brand() {
    assert_eq!(cpu_display_name(Some("  AMD Ryzen 7 5800X  ")), "AMD Ryzen 7 5800X");
    assert_eq!(cpu_display_name(Some("   ")), "Unknown CPU");
    assert_eq!(cpu_display_name(None), "Unknown CPU");
}

#[test]
fn frequency_total_sums_cores() {
    assert_eq!(total_frequency(&vec![3600, 3700, 4000]), 11300);
    assert_eq!(total_frequency(&vec![]), 0);
}

#[test]
fn vram_in_mib() {
    assert_eq!(mib_from_bytes(8 * 1024 * 1024 * 1024), 8192);
    assert_eq!(mib_from_bytes(1024 * 1024 - 1), 0);
}

fn module(bank: Option<&str>, locator: Option<&str>, part: Option<&str>, speed: Option<u32>) -> MemoryModule {
    MemoryModule {
        bank_label: bank.map(String::from),
        device_locator: locator.map(String::from),
        part_number: part.map(String::from),
        configured_clock_speed: speed,
    }
}

#[test]
fn ram_label_prefers_locator() {
    let m = module(Some("BANK 0"), Some("DIMM_A1"), Some("F4"), Some(3200));
    assert_eq!(ram_slot_label(&m, "16"), "DIMM_A1 16GB 3200 MT/s");
}

#[test]
fn ram_label_falls_back_to_bank_part_and_dimm() {
    assert_eq!(ram_slot_label(&module(Some("BANK 0"), Some(""), None, None), "8"), "BANK 0 8GB ?");
    assert_eq!(
        ram_slot_label(&module(None, None, Some("  F4-3200C16  "), Some(3200)), "8"),
        "F4-3200C16 8GB"
    );
    assert_eq!(ram_slot_label(&module(None, None, Some("   "), None), "4"), "DIMM 4GB");
}

fn zone(name: Option<&str>, raw: Option<u32>) -> ThermalReading {
    ThermalReading { instance_name: name.map(String::from), current_temperature: raw }
}

#[test]
fn thermal_zone_prefers_cpu_zone() {
    let zones = vec![zone(Some("ACPI\\ThermalZone\\THRM_0"), Some(3000)), zone(Some("ACPI\\ThermalZone\\CPUZ_0"), Some(3200))];
    assert_eq!(select_thermal_zone(&zones), Some(3200));
    let zones = vec![zone(Some("tz.Processor"), Some(3100)), zone(Some("TZCPU"), Some(3200))];
    assert_eq!(select_thermal_zone(&zones), Some(3100));
}

#[test]
fn thermal_zone_falls_back_to_last_plausible() {
    let zones = vec![zone(Some("THRM"), Some(3000)), zone(None, Some(3100)), zone(Some("X"), None)];
    assert_eq!(select_thermal_zone(&zones), Some(3100));
}

#[test]
fn thermal_zone_rejects_implausible_readings() {
    let zones = vec![zone(Some("CPU"), Some(2831)), zone(Some("CPU"), Some(3832))];
    assert_eq!(select_thermal_zone(&zones), None);
    let zones = vec![zone(Some("CPU"), Some(2832))];
    assert_eq!(select_thermal_zone(&zones), Some(2832));
    let zones = vec![zone(Some("CPU"), Some(3831))];
    assert_eq!(select_thermal_zone(&zones), Some(3831));
    assert_eq!(select_thermal_zone(&vec![]), None);
}

#[test]
fn note_lists_missing_sensors() {
    assert_eq!(
        native_note(false, false, false, &vec![]),
        "CPU temp, CPU fan, CPU power, RAM temp unavailable via Windows APIs (needs chipset/EC access)."
    );
    assert_eq!(
        native_note(true, false, true, &vec![false, true]),
        "CPU fan unavailable via Windows APIs (needs chipset/EC access)."
    );
    assert_eq!(
        native_note(true, true, true, &vec![false, false]),
        "RAM temp unavailable via Windows APIs (needs chipset/EC access)."
    );
}

#[test]
fn note_all_sensors_ok() {
    assert_eq!(native_note(true, true, true, &vec![true]), "Native sensors OK.");
}

#[test]
fn ram_labels_for_every_module() {
    let rows = vec![
        (module(None, Some("DIMM_A1"), None, Some(3200)), "16".to_string()),
        (module(None, None, None, None), "8".to_string()),
    ];
    assert_eq!(ram_slot_labels(&rows), vec!["DIMM_A1 16GB 3200 MT/s", "DIMM 8GB"]);
    assert_eq!(ram_slot_labels(&vec![]), Vec::<String>::new());
}

#[test]
fn acpi_only_while_temperature_unknown() {
    assert!(needs_acpi_temperature(false));
    assert!(!needs_acpi_temperature(true));
}
