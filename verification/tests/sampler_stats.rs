use vitals_applet::sampler::{
    dedupe_disks, max_temp_of, min_temp_of, sort_disks, sort_temps, DiskInfo, MemoryStats,
    Snapshot, TempInfo,
};
use vitals_applet::stats::{
    format_stat, get_disks, get_ram_stats, get_ram_usage, get_storage_usage, get_temp_usage,
    get_temps, StatType,
};

fn disk(name: &str, free_bytes: u64) -> DiskInfo {
    DiskInfo { name: name.to_string(), free_bytes }
}

fn temp(label: &str, degrees: u32) -> TempInfo {
    TempInfo { label: label.to_string(), degrees }
}

fn memory(used: u64) -> MemoryStats {
    MemoryStats {
        total: 16_000_000_000,
        used,
        free: 2_000_000_000,
        available: 6_000_000_000,
        swap_total: 4_000_000_000,
        swap_used: 1_000_000_000,
        swap_free: 3_000_000_000,
    }
}

fn snapshot(used: u64, disks: Vec<DiskInfo>, temps: Vec<TempInfo>) -> Snapshot {
    Snapshot { memory: memory(used), disks, temps }
}

#[test]
fn dedupe_keeps_last_value() {
    let v = vec![disk("sda1", 10), disk("sdb1", 20), disk("sda1", 30)];
    let d = dedupe_disks(&v);
    assert_eq!(d.len(), 2);
    assert_eq!(d[0].name, "sda1");
    assert_eq!(d[0].free_bytes, 30);
    assert_eq!(d[1].name, "sdb1");
    assert_eq!(d[1].free_bytes, 20);
}

#[test]
fn sort_disks_orders_by_name() {
    let v = vec![disk("sdc", 3), disk("sda", 1), disk("sdb", 2)];
    let s = sort_disks(v);
    let names: Vec<&str> = s.iter().map(|d| d.name.as_str()).collect();
    assert_eq!(names, vec!["sda", "sdb", "sdc"]);
}

#[test]
fn sort_temps_orders_by_label_keeping_duplicates() {
    let v = vec![temp("gpu", 50), temp("cpu", 40), temp("cpu", 45)];
    let s = sort_temps(v);
    let labels: Vec<&str> = s.iter().map(|t| t.label.as_str()).collect();
    assert_eq!(labels, vec!["cpu", "cpu", "gpu"]);
}

#[test]
fn max_and_min_over_sensors() {
    let v = vec![temp("cpu", 40), temp("gpu", 55), temp("nvme", 31)];
    assert_eq!(max_temp_of(&v), 55);
    assert_eq!(min_temp_of(&v), 31);
}

#[test]
fn max_and_min_default_to_zero() {
    let v: Vec<TempInfo> = Vec::new();
    assert_eq!(max_temp_of(&v), 0);
    assert_eq!(min_temp_of(&v), 0);
}

#[test]
fn ram_usage_renders_used_bytes() {
    assert_eq!(get_ram_usage(&memory(8_000_000_000)), "RAM 8.00 GB");
}

#[test]
fn storage_usage_finds_volume() {
    let disks = vec![disk("sda1", 123_450_000_000), disk("sdb1", 7)];
    assert_eq!(get_storage_usage("sda1", &disks), "Disk 123.45 GB");
}

#[test]
fn storage_usage_missing_volume_is_empty() {
    let disks = vec![disk("sda1", 123_450_000_000)];
    assert_eq!(get_storage_usage("sdz9", &disks), "");
}

#[test]
fn storage_usage_first_match_wins() {
    let disks = vec![disk("sda1", 1_000_000_000), disk("sda1", 2_000_000_000)];
    assert_eq!(get_storage_usage("sda1", &disks), "Disk 1.00 GB");
}

#[test]
fn temp_usage_finds_sensor() {
    let temps = vec![temp("cpu", 40), temp("gpu", 55)];
    assert_eq!(get_temp_usage("gpu", &temps), "Temp 55 °C");
}

#[test]
fn temp_usage_missing_sensor_is_empty() {
    let temps = vec![temp("cpu", 40)];
    assert_eq!(get_temp_usage("fan", &temps), "");
}

#[test]
fn format_stat_covers_every_tag() {
    let snap = snapshot(
        8_000_000_000,
        vec![disk("sda1", 500_000_000_000)],
        vec![temp("cpu", 40), temp("gpu", 55)],
    );
    assert_eq!(format_stat(&StatType::Ram, &snap), "RAM 8.00 GB");
    assert_eq!(format_stat(&StatType::Disk("sda1".to_string()), &snap), "Disk 500.00 GB");
    assert_eq!(format_stat(&StatType::Temperature("cpu".to_string()), &snap), "Temp 40 °C");
    assert_eq!(format_stat(&StatType::MaxTemperature, &snap), "Temp 55 °C");
    assert_eq!(format_stat(&StatType::MinTemperature, &snap), "Temp 40 °C");
}

#[test]
fn format_stat_no_sensors_extremes_read_zero() {
    let snap = snapshot(0, Vec::new(), Vec::new());
    assert_eq!(format_stat(&StatType::MaxTemperature, &snap), "Temp 0 °C");
    assert_eq!(format_stat(&StatType::MinTemperature, &snap), "Temp 0 °C");
}

#[test]
fn ram_stats_lists_seven_rows() {
    let rows = get_ram_stats(&memory(8_000_000_000));
    let pairs: Vec<(&str, &str)> =
        rows.iter().map(|r| (r.name.as_str(), r.value.as_str())).collect();
    assert_eq!(
        pairs,
        vec![
            ("Total RAM", "16.00"),
            ("Used RAM", "8.00"),
            ("Free RAM", "2.00"),
            ("Available RAM", "6.00"),
            ("Free Swap", "3.00"),
            ("Total Swap", "4.00"),
            ("Used Swap", "1.00"),
        ]
    );
}

#[test]
fn disks_rows_sorted_unique_latest_value() {
    let v = vec![disk("sdb", 2_000_000_000), disk("sda", 1_000_000_000), disk("sdb", 2_500_000_000)];
    let rows = get_disks(&v);
    let pairs: Vec<(&str, &str)> =
        rows.iter().map(|r| (r.name.as_str(), r.value.as_str())).collect();
    assert_eq!(pairs, vec![("sda", "1.00"), ("sdb", "2.50")]);
}

#[test]
fn temps_rows_sorted_with_extremes_appended() {
    let v = vec![temp("gpu", 55), temp("cpu", 40)];
    let rows = get_temps(&v);
    let pairs: Vec<(&str, &str)> =
        rows.iter().map(|r| (r.name.as_str(), r.value.as_str())).collect();
    assert_eq!(
        pairs,
        vec![("cpu", "40"), ("gpu", "55"), ("Max Temp", "55"), ("Min Temp", "40")]
    );
}

#[test]
fn temps_rows_empty_sensor_list() {
    let rows = get_temps(&Vec::new());
    let pairs: Vec<(&str, &str)> =
        rows.iter().map(|r| (r.name.as_str(), r.value.as_str())).collect();
    assert_eq!(pairs, vec![("Max Temp", "0"), ("Min Temp", "0")]);
}

#[test]
fn snapshot_now_is_deterministically_ordered() {
    let snap = Snapshot::now();
    for w in snap.disks.windows(2) {
        assert!(w[0].name < w[1].name, "disks must be strictly sorted by name");
    }
    for w in snap.temps.windows(2) {
        assert!(w[0].label <= w[1].label, "temps must be sorted by label");
    }
}
