use hw_monitor::health::{ram_level, Health};
use hw_monitor::insights::{alerts, AlertInputs, FsUsage, Reading, SensorReading};

fn percent_reading(used: f64, total: f64) -> Option<Reading> {
    if total > 0.0 {
        let value = 100.0 * used / total;
        Some(Reading { floor: value.floor() as i64, text: format!("{:.0}", value) })
    } else {
        None
    }
}

fn temp_reading(value: f64) -> Option<Reading> {
    Some(Reading { floor: value.floor() as i64, text: format!("{:.1}", value) })
}

#[test]
fn unavailable_is_not_healthy_or_alert() {
    let m = AlertInputs { memory_percent: None, filesystems: vec![], sensors: vec![] };
    assert!(alerts(&m).is_empty());
}

#[test]
fn shows_reason_and_threshold() {
    let m = AlertInputs { memory_percent: percent_reading(96.0, 100.0), filesystems: vec![], sensors: vec![] };
    assert!(alerts(&m)[0].critical);
    assert!(alerts(&m)[0].detail.contains("≥95%"));
}

fn fs(mount: Option<&str>, used: f64, total: f64) -> FsUsage {
    FsUsage { mount: mount.map(|m| m.to_string()), used_percent: percent_reading(used, total) }
}

fn sensor(chip: &str, label: Option<&str>, kind: &str, value: f64) -> SensorReading {
    SensorReading {
        chip: Some(chip.to_string()),
        label: label.map(|l| l.to_string()),
        kind: Some(kind.to_string()),
        value: temp_reading(value),
    }
}

#[test]
fn memory_alert_text_and_levels() {
    let watch = AlertInputs { memory_percent: percent_reading(86.0, 100.0), filesystems: vec![], sensors: vec![] };
    let a = alerts(&watch);
    assert_eq!(a.len(), 1);
    assert_eq!(a[0].component, "Memória");
    assert_eq!(a[0].detail, "RAM 86% usada; atenção ≥85%, crítico ≥95% (limites genéricos)");
    assert!(!a[0].critical);
    let calm = AlertInputs { memory_percent: percent_reading(84.9, 100.0), filesystems: vec![], sensors: vec![] };
    assert!(alerts(&calm).is_empty());
}

#[test]
fn storage_alerts_name_the_mount() {
    let m = AlertInputs {
        memory_percent: None,
        filesystems: vec![fs(Some("/"), 85.0, 100.0), fs(None, 95.0, 100.0), fs(Some("/home"), 10.0, 100.0)],
        sensors: vec![],
    };
    let a = alerts(&m);
    assert_eq!(a.len(), 2);
    assert_eq!(a[0].detail, "Disco: 95% usado; atenção ≥80%, crítico ≥90% (limites genéricos)");
    assert!(a[0].critical);
    assert_eq!(a[1].detail, "/: 85% usado; atenção ≥80%, crítico ≥90% (limites genéricos)");
    assert!(!a[1].critical);
}

#[test]
fn temperature_alerts_use_the_sensor_limits() {
    let m = AlertInputs {
        memory_percent: None,
        filesystems: vec![],
        sensors: vec![
            sensor("nvme", Some("Composite"), "temp", 66.0),
            sensor("k10temp", Some("Tctl"), "temp", 70.0),
            sensor("acpitz", None, "temp", 99.0),
            sensor("coretemp", None, "temp", 91.5),
            sensor("nct6775", Some("CPU fan"), "fan", 2000.0),
        ],
    };
    let a = alerts(&m);
    assert_eq!(a.len(), 2);
    assert_eq!(a[0].component, "Sensores");
    assert_eq!(a[0].detail, "coretemp · Temperatura: 91.5 °C; atenção ≥80 °C, crítico ≥90 °C (limites genéricos)");
    assert!(a[0].critical);
    assert_eq!(a[1].detail, "nvme · Composite: 66.0 °C; atenção ≥65 °C, crítico ≥75 °C (limites genéricos)");
    assert!(!a[1].critical);
}

#[test]
fn critical_alerts_come_first_in_stable_order() {
    let m = AlertInputs {
        memory_percent: percent_reading(90.0, 100.0),
        filesystems: vec![fs(Some("/a"), 91.0, 100.0), fs(Some("/b"), 81.0, 100.0), fs(Some("/c"), 99.0, 100.0)],
        sensors: vec![],
    };
    let a = alerts(&m);
    let details: Vec<&str> = a.iter().map(|x| &x.detail[..3]).collect();
    assert_eq!(details, vec!["/a:", "/c:", "RAM", "/b:"]);
    assert_eq!(a.iter().map(|x| x.critical).collect::<Vec<_>>(), vec![true, true, false, false]);
}

#[test]
fn memory_alert_agrees_with_the_ram_gauge() {
    for used in [10.0, 84.0, 85.0, 90.0, 95.0, 99.0] {
        let m = AlertInputs { memory_percent: percent_reading(used, 100.0), filesystems: vec![], sensors: vec![] };
        let a = alerts(&m);
        let level = ram_level(Some(used as i64));
        assert_eq!(a.len() == 1, level == Health::Watch || level == Health::Critical);
        if let Some(x) = a.first() {
            assert_eq!(x.critical, level == Health::Critical);
        }
    }
}
