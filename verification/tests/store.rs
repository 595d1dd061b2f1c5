use vitals_applet::config::{BrowseEntry, VitalsAppletConfig};
use vitals_applet::sampler::{DiskInfo, MemoryStats, Snapshot, TempInfo};
use vitals_applet::stats::{Stat, StatType};

fn memory(used: u64) -> MemoryStats {
    MemoryStats {
        total: 16_000_000_000,
        used,
        free: 2_000_000_000,
        available: 6_000_000_000,
        swap_total: 4_000_000_000,
        swap_used: 1_000_000_000,
        swap_free: 3_000_000_000,
    }
}

fn disk(name: &str, free_bytes: u64) -> DiskInfo {
    DiskInfo { name: name.to_string(), free_bytes }
}

fn temp(label: &str, degrees: u32) -> TempInfo {
    TempInfo { label: label.to_string(), degrees }
}

fn snapshot(used: u64, disks: Vec<DiskInfo>, temps: Vec<TempInfo>) -> Snapshot {
    Snapshot { memory: memory(used), disks, temps }
}

#[test]
fn toggle_on_twice_keeps_one_entry() {
    let snap = snapshot(8_000_000_000, Vec::new(), Vec::new());
    let mut store = VitalsAppletConfig::default();
    store.toggle(StatType::Ram, true, &snap);
    store.toggle(StatType::Ram, true, &snap);
    let ram_entries = store
        .stats
        .iter()
        .filter(|s| s.stat_type == StatType::Ram)
        .count();
    assert_eq!(ram_entries, 1);
    assert_eq!(store.stats.len(), 1);
}

#[test]
fn toggle_off_removes_and_unchecks() {
    let snap = snapshot(8_000_000_000, vec![disk("sda1", 1_000_000_000)], Vec::new());
    let mut store = VitalsAppletConfig::default();
    let key = StatType::Disk("sda1".to_string());
    store.toggle(key.clone(), true, &snap);
    assert!(store.is_checked(&key));
    store.toggle(key.clone(), false, &snap);
    assert!(!store.is_checked(&key));
    assert_eq!(store.stats.len(), 0);
}

#[test]
fn toggle_off_absent_key_is_a_no_op() {
    let snap = snapshot(0, Vec::new(), Vec::new());
    let mut store = VitalsAppletConfig::default();
    store.toggle(StatType::Ram, true, &snap);
    store.toggle(StatType::MaxTemperature, false, &snap);
    assert_eq!(store.stats.len(), 1);
    assert!(store.is_checked(&StatType::Ram));
}

#[test]
fn refresh_changes_only_labels() {
    let snap1 = snapshot(8_000_000_000, vec![disk("sda1", 1_000_000_000)], vec![temp("cpu", 40)]);
    let mut store = VitalsAppletConfig::default();
    store.toggle(StatType::Ram, true, &snap1);
    store.toggle(StatType::Disk("sda1".to_string()), true, &snap1);
    store.toggle(StatType::Temperature("cpu".to_string()), true, &snap1);
    let keys_before: Vec<StatType> = store.stats.iter().map(|s| s.stat_type.clone()).collect();
    let shows_before: Vec<bool> = store.stats.iter().map(|s| s.show).collect();

    let snap2 = snapshot(9_500_000_000, vec![disk("sda1", 2_000_000_000)], vec![temp("cpu", 65)]);
    store.refresh(&snap2);

    assert_eq!(store.stats.len(), 3);
    let keys_after: Vec<StatType> = store.stats.iter().map(|s| s.stat_type.clone()).collect();
    let shows_after: Vec<bool> = store.stats.iter().map(|s| s.show).collect();
    assert_eq!(keys_before, keys_after);
    assert_eq!(shows_before, shows_after);
    let labels: Vec<&str> = store.stats.iter().map(|s| s.label.as_str()).collect();
    assert_eq!(labels, vec!["RAM 9.50 GB", "Disk 2.00 GB", "Temp 65 °C"]);
}

#[test]
fn visible_labels_follow_store_order_and_visibility() {
    let store = VitalsAppletConfig {
        stats: vec![
            Stat { stat_type: StatType::Ram, show: true, label: "RAM 8.00 GB".to_string() },
            Stat {
                stat_type: StatType::Disk("sda1".to_string()),
                show: false,
                label: "Disk 1.00 GB".to_string(),
            },
            Stat { stat_type: StatType::MaxTemperature, show: true, label: "Temp 55 °C".to_string() },
        ],
    };
    let labels = store.visible_labels();
    assert_eq!(labels, vec!["RAM 8.00 GB".to_string(), "Temp 55 °C".to_string()]);
    let visible_count = store.stats.iter().filter(|s| s.show).count();
    assert_eq!(labels.len(), visible_count);
}

#[test]
fn ram_toggle_scenario() {
    // A memory sampler reporting 8,000,000,000 used bytes.
    let snap = snapshot(8_000_000_000, Vec::new(), Vec::new());
    let mut store = VitalsAppletConfig::default();
    assert_eq!(store.stats.len(), 0);
    store.toggle(StatType::Ram, true, &snap);
    assert_eq!(store.stats.len(), 1);
    assert!(store.stats[0].stat_type == StatType::Ram);
    assert!(store.stats[0].show);
    assert_eq!(store.stats[0].label, "RAM 8.00 GB");
    assert_eq!(store.visible_labels(), vec!["RAM 8.00 GB".to_string()]);
}

#[test]
fn vanished_volume_scenario() {
    // A watched volume that the sampler no longer reports keeps its entry
    // and degrades to an empty label.
    let mut store = VitalsAppletConfig {
        stats: vec![Stat {
            stat_type: StatType::Disk("sda1".to_string()),
            show: true,
            label: "Disk 1.00 GB".to_string(),
        }],
    };
    let snap = snapshot(0, Vec::new(), Vec::new());
    store.refresh(&snap);
    assert_eq!(store.stats.len(), 1);
    assert!(store.stats[0].stat_type == StatType::Disk("sda1".to_string()));
    assert_eq!(store.stats[0].label, "");
}

#[test]
fn max_temperature_scenario() {
    let snap1 = snapshot(0, Vec::new(), vec![temp("cpu", 40), temp("gpu", 55)]);
    let mut store = VitalsAppletConfig::default();
    store.toggle(StatType::MaxTemperature, true, &snap1);
    assert_eq!(store.stats[0].label, "Temp 55 °C");

    let snap2 = snapshot(0, Vec::new(), vec![temp("cpu", 70), temp("gpu", 50)]);
    store.refresh(&snap2);
    assert_eq!(store.stats[0].label, "Temp 70 °C");
}

#[test]
fn default_store_is_empty() {
    let store = VitalsAppletConfig::default();
    assert_eq!(store.stats.len(), 0);
    assert_eq!(store.visible_labels().len(), 0);
}

#[test]
fn is_wf_accepts_unique_keys() {
    let store = VitalsAppletConfig {
        stats: vec![
            Stat { stat_type: StatType::Ram, show: true, label: String::new() },
            Stat { stat_type: StatType::Disk("sda1".to_string()), show: true, label: String::new() },
            Stat { stat_type: StatType::Disk("sdb1".to_string()), show: true, label: String::new() },
        ],
    };
    assert!(store.is_wf());
}

#[test]
fn is_wf_rejects_duplicate_keys() {
    let store = VitalsAppletConfig {
        stats: vec![
            Stat { stat_type: StatType::Disk("sda1".to_string()), show: true, label: String::new() },
            Stat { stat_type: StatType::Disk("sda1".to_string()), show: false, label: String::new() },
        ],
    };
    assert!(!store.is_wf());
}

#[test]
fn stat_list_reports_checked_state_and_units() {
    let snap = snapshot(8_000_000_000, vec![disk("sda1", 1_000_000_000)], vec![temp("cpu", 40)]);
    let mut store = VitalsAppletConfig::default();
    store.toggle(StatType::Disk("sda1".to_string()), true, &snap);
    let entries = vec![
        BrowseEntry {
            stat_type: StatType::Ram,
            name: "Used RAM".to_string(),
            value: "8.00".to_string(),
        },
        BrowseEntry {
            stat_type: StatType::Disk("sda1".to_string()),
            name: "sda1".to_string(),
            value: "1.00".to_string(),
        },
        BrowseEntry {
            stat_type: StatType::Temperature("cpu".to_string()),
            name: "cpu".to_string(),
            value: "40".to_string(),
        },
    ];
    let rows = store.stat_list(&entries);
    assert_eq!(rows.len(), 3);
    assert_eq!(rows[0].name, "Used RAM");
    assert_eq!(rows[0].value, "(8.00 GB)");
    assert!(!rows[0].checked);
    assert_eq!(rows[1].name, "sda1");
    assert_eq!(rows[1].value, "(1.00 GB)");
    assert!(rows[1].checked);
    assert_eq!(rows[2].name, "cpu");
    assert_eq!(rows[2].value, "(40 °C)");
    assert!(!rows[2].checked);
}

#[test]
fn hidden_entry_is_checked_but_not_shown() {
    let store = VitalsAppletConfig {
        stats: vec![Stat { stat_type: StatType::Ram, show: false, label: String::new() }],
    };
    assert!(store.is_checked(&StatType::Ram));
    assert!(!store.is_shown(&StatType::Ram));
}

#[test]
fn keys_compare_by_tag_and_payload() {
    assert!(StatType::Disk("a".to_string()) == StatType::Disk("a".to_string()));
    assert!(StatType::Disk("a".to_string()) != StatType::Disk("b".to_string()));
    assert!(StatType::Disk("a".to_string()) != StatType::Temperature("a".to_string()));
    assert!(StatType::MaxTemperature != StatType::MinTemperature);
    assert!(StatType::Ram == StatType::Ram);
}
