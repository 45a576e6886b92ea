use hw_monitor::health::{battery_health, high, is_gpu_sensor, low, pressure_level, ram_level, sensor_health, storage_level, swap_level, usage_level, Health, Rgb};

#[test]
fn palette_colours() {
    assert_eq!(Health::Normal.color(), Rgb { r: 235, g: 246, b: 255 });
    assert_eq!(Health::Good.color(), Rgb { r: 99, g: 221, b: 161 });
    assert_eq!(Health::Watch.color(), Rgb { r: 255, g: 208, b: 116 });
    assert_eq!(Health::Critical.color(), Rgb { r: 255, g: 104, b: 124 });
    assert_eq!(Health::Unknown.color(), Rgb { r: 165, g: 190, b: 214 });
}

#[test]
fn high_levels() {
    assert_eq!(high(None, 60, 85, 95), Health::Unknown);
    assert_eq!(high(Some(95), 60, 85, 95), Health::Critical);
    assert_eq!(high(Some(94), 60, 85, 95), Health::Watch);
    assert_eq!(high(Some(85), 60, 85, 95), Health::Watch);
    assert_eq!(high(Some(59), 60, 85, 95), Health::Good);
    assert_eq!(high(Some(60), 60, 85, 95), Health::Normal);
    // a reading of 59.9 enters as its floor and is below 60
    assert_eq!(high(Some(59.9f64.floor() as i64), 60, 85, 95), Health::Good);
}

#[test]
fn high_never_improves_as_readings_grow() {
    let mut last = -1;
    for x in 0..120 {
        let s = match high(Some(x), 60, 85, 95) {
            Health::Good => 0,
            Health::Normal => 1,
            Health::Watch => 2,
            Health::Critical => 3,
            Health::Unknown => panic!("known reading"),
        };
        assert!(s >= last);
        last = s;
    }
}

#[test]
fn low_levels() {
    assert_eq!(low(None, 20), Health::Unknown);
    assert_eq!(low(Some(19), 20), Health::Good);
    assert_eq!(low(Some(20), 20), Health::Normal);
}

#[test]
fn battery_levels() {
    assert_eq!(battery_health(Some(false), None), Health::Unknown);
    assert_eq!(battery_health(Some(false), Some(10)), Health::Critical);
    assert_eq!(battery_health(Some(false), Some(20)), Health::Watch);
    assert_eq!(battery_health(Some(true), Some(10)), Health::Normal);
    assert_eq!(battery_health(None, Some(15)), Health::Normal);
    assert_eq!(battery_health(Some(true), Some(60)), Health::Good);
    assert_eq!(battery_health(Some(false), Some(60)), Health::Good);
}

#[test]
fn sensor_levels() {
    assert_eq!(sensor_health(None, "temp", "coretemp"), Health::Unknown);
    assert_eq!(sensor_health(Some(3000), "fan", "coretemp"), Health::Normal);
    assert_eq!(sensor_health(Some(85), "temp", "CoreTemp"), Health::Watch);
    assert_eq!(sensor_health(Some(90), "temp", "amdgpu"), Health::Critical);
    assert_eq!(sensor_health(Some(40), "temp", "k10temp"), Health::Good);
    assert_eq!(sensor_health(Some(60), "temp", "nvidia"), Health::Normal);
    // only processor and graphics temperatures are coloured
    assert_eq!(sensor_health(Some(80), "temp", "nvme"), Health::Normal);
    assert_eq!(sensor_health(Some(99), "temp", "acpitz"), Health::Normal);
}

#[test]
fn graphics_sensors() {
    assert!(is_gpu_sensor("amdgpu"));
    assert!(is_gpu_sensor("NVIDIA"));
    assert!(is_gpu_sensor("card0-i915"));
    assert!(is_gpu_sensor("xe"));
    assert!(is_gpu_sensor("XE"));
    assert!(!is_gpu_sensor("xen"));
    assert!(!is_gpu_sensor("coretemp"));
}

#[test]
fn mains_power_never_alarms() {
    for charge in [0, 5, 10, 15, 20, 21] {
        let h = battery_health(Some(true), Some(charge));
        assert_ne!(h, Health::Watch);
        assert_ne!(h, Health::Critical);
    }
}

#[test]
fn card_levels() {
    assert_eq!(ram_level(Some(59)), Health::Good);
    assert_eq!(ram_level(Some(60)), Health::Normal);
    assert_eq!(ram_level(Some(85)), Health::Watch);
    assert_eq!(ram_level(Some(95)), Health::Critical);
    assert_eq!(swap_level(Some(9)), Health::Good);
    assert_eq!(swap_level(Some(50)), Health::Watch);
    assert_eq!(swap_level(Some(80)), Health::Critical);
    assert_eq!(storage_level(Some(79)), Health::Normal);
    assert_eq!(storage_level(Some(80)), Health::Watch);
    assert_eq!(storage_level(Some(90)), Health::Critical);
    assert_eq!(pressure_level(Some(0)), Health::Good);
    assert_eq!(pressure_level(Some(10)), Health::Watch);
    assert_eq!(pressure_level(Some(25)), Health::Critical);
    assert_eq!(usage_level(Some(19)), Health::Good);
    assert_eq!(usage_level(Some(20)), Health::Normal);
    assert_eq!(usage_level(None), Health::Unknown);
}

#[test]
fn chip_names_in_any_case() {
    assert!(is_gpu_sensor("AMDGPU"));
    assert_eq!(sensor_health(Some(91), "temp", "K10TEMP"), Health::Critical);
}
