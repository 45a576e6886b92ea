//! Health levels of readings: the colour of each level and the threshold rules.
//!
//! Readings enter as whole numbers: the floor of a measured value. Every threshold of these
//! rules is a whole number, and a finite value `x` meets `x >= t` or `x < t` for a whole `t`
//! exactly when its floor does.
use vstd::prelude::*;
use crate::text::{ascii_lower, ascii_text, chars_of, contains, contains_chars, lowercase, to_lower};

verus! {

/// The health level of a reading.
#[derive(Clone, Copy, PartialEq, Eq, Structural, Debug)]
pub enum Health {
    Normal,
    Good,
    Watch,
    Critical,
    Unknown,
}

/// A colour as red, green and blue intensities.
#[derive(Clone, Copy, PartialEq, Eq, Structural, Debug)]
pub struct Rgb {
    pub r: u8,
    pub g: u8,
    pub b: u8,
}

impl Health {
    /// The palette colour of a level: white, green, amber, red, or muted blue-grey.
    pub fn color(self) -> (c: Rgb)
        ensures
            c == (match self {
                Health::Normal => Rgb { r: 235, g: 246, b: 255 },
                Health::Good => Rgb { r: 99, g: 221, b: 161 },
                Health::Watch => Rgb { r: 255, g: 208, b: 116 },
                Health::Critical => Rgb { r: 255, g: 104, b: 124 },
                Health::Unknown => Rgb { r: 165, g: 190, b: 214 },
            }),
    {
        match self {
            Health::Normal => Rgb { r: 235, g: 246, b: 255 },
            Health::Good => Rgb { r: 99, g: 221, b: 161 },
            Health::Watch => Rgb { r: 255, g: 208, b: 116 },
            Health::Critical => Rgb { r: 255, g: 104, b: 124 },
            Health::Unknown => Rgb { r: 165, g: 190, b: 214 },
        }
    }
}

/// The level of a reading where high is bad.
pub open spec fn high_level(v: Option<i64>, good: i64, watch: i64, critical: i64) -> Health {
    match v {
        None => Health::Unknown,
        Some(x) => if x >= critical {
            Health::Critical
        } else if x >= watch {
            Health::Watch
        } else if x < good {
            Health::Good
        } else {
            Health::Normal
        },
    }
}

/// `high`: classifies a reading where high is bad (temperature, load).
pub fn high(v: Option<i64>, good: i64, watch: i64, critical: i64) -> (h: Health)
    ensures
        h == high_level(v, good, watch, critical),
{
    match v {
        None => Health::Unknown,
        Some(x) => if x >= critical {
            Health::Critical
        } else if x >= watch {
            Health::Watch
        } else if x < good {
            Health::Good
        } else {
            Health::Normal
        },
    }
}

/// The level of a reading where low is favourable.
pub open spec fn low_level(v: Option<i64>, below: i64) -> Health {
    match v {
        None => Health::Unknown,
        Some(x) => if x < below { Health::Good } else { Health::Normal },
    }
}

/// `low`: classifies a reading where low is favourable (idle use).
pub fn low(v: Option<i64>, below: i64) -> (h: Health)
    ensures
        h == low_level(v, below),
{
    match v {
        None => Health::Unknown,
        Some(x) => if x < below { Health::Good } else { Health::Normal },
    }
}

/// The level of a battery's charge: unknown without a reading; on battery power critical at
/// 10 % or less and watched at 20 % or less; good from 60 %.
pub open spec fn battery_level(ac_online: Option<bool>, capacity: Option<u64>) -> Health {
    match capacity {
        None => Health::Unknown,
        Some(v) => if ac_online == Some(false) && v <= 10 {
            Health::Critical
        } else if ac_online == Some(false) && v <= 20 {
            Health::Watch
        } else if v >= 60 {
            Health::Good
        } else {
            Health::Normal
        },
    }
}

/// The charge level of the battery card.
pub fn battery_health(ac_online: Option<bool>, capacity: Option<u64>) -> (h: Health)
    ensures
        h == battery_level(ac_online, capacity),
{
    match capacity {
        None => Health::Unknown,
        Some(v) => {
            let on_battery = match ac_online {
                Some(b) => !b,
                None => false,
            };
            if on_battery && v <= 10 {
                Health::Critical
            } else if on_battery && v <= 20 {
                Health::Watch
            } else if v >= 60 {
                Health::Good
            } else {
                Health::Normal
            }
        },
    }
}

/// Chips whose sensors are graphics sensors.
pub open spec fn is_gpu_chip(lower: Seq<char>) -> bool {
    ||| contains(lower, "amdgpu"@)
    ||| contains(lower, "nvidia"@)
    ||| contains(lower, "nouveau"@)
    ||| contains(lower, "i915"@)
}

/// `is_gpu_sensor`: the sensor belongs to a graphics chip.
pub fn is_gpu_sensor(chip: &str) -> (r: bool)
    ensures
        r == (is_gpu_chip(lowercase(chip@)) || lowercase(chip@) == "xe"@),
        ascii_text(chip@) ==> lowercase(chip@) == chip@.map_values(|c: char| ascii_lower(c)),
{
    let lower = to_lower(chip);
    let c = chars_of(lower.as_str());
    contains_chars(c.as_slice(), chars_of("amdgpu").as_slice())
        || contains_chars(c.as_slice(), chars_of("nvidia").as_slice())
        || contains_chars(c.as_slice(), chars_of("nouveau").as_slice())
        || contains_chars(c.as_slice(), chars_of("i915").as_slice())
        || crate::text::chars_eq(c.as_slice(), chars_of("xe").as_slice())
}

/// The level of a sensor reading: unknown without a value; only temperatures of sensors
/// recognised as processor or graphics sensors are judged (good below 55, watched from 80,
/// critical from 90).
pub open spec fn sensor_level(value: Option<i64>, kind: Seq<char>, chip: Seq<char>) -> Health {
    if value is None {
        Health::Unknown
    } else if kind != "temp"@ {
        Health::Normal
    } else if is_gpu_chip(lowercase(chip)) || contains(lowercase(chip), "k10temp"@) || contains(
        lowercase(chip),
        "coretemp"@,
    ) {
        high_level(value, 55, 80, 90)
    } else {
        Health::Normal
    }
}

/// `sensor_health`: the level of a sensor reading.
pub fn sensor_health(value: Option<i64>, kind: &str, chip: &str) -> (h: Health)
    ensures
        h == sensor_level(value, kind@, chip@),
        ascii_text(chip@) ==> lowercase(chip@) == chip@.map_values(|c: char| ascii_lower(c)),
{
    let lower = to_lower(chip);
    if value.is_none() {
        return Health::Unknown;
    }
    let k = chars_of(kind);
    if !crate::text::chars_eq(k.as_slice(), chars_of("temp").as_slice()) {
        return Health::Normal;
    }
    let c = chars_of(lower.as_str());
    if contains_chars(c.as_slice(), chars_of("amdgpu").as_slice())
        || contains_chars(c.as_slice(), chars_of("nvidia").as_slice())
        || contains_chars(c.as_slice(), chars_of("nouveau").as_slice())
        || contains_chars(c.as_slice(), chars_of("i915").as_slice())
        || contains_chars(c.as_slice(), chars_of("k10temp").as_slice())
        || contains_chars(c.as_slice(), chars_of("coretemp").as_slice()) {
        high(value, 55, 80, 90)
    } else {
        Health::Normal
    }
}


/// How bad a level is: good, normal, watch, critical (unknown aside).
pub open spec fn severity(h: Health) -> int {
    match h {
        Health::Good => 0,
        Health::Normal => 1,
        Health::Watch => 2,
        Health::Critical => 3,
        Health::Unknown => -1,
    }
}

/// Where high is bad, a higher reading never has a better level than a lower one.
pub proof fn law_high_monotone(x: i64, y: i64, good: i64, watch: i64, critical: i64)
    requires
        good <= watch <= critical,
        x <= y,
    ensures
        severity(high_level(Some(x), good, watch, critical)) <= severity(high_level(Some(y), good, watch, critical)),
{
}

/// Where low is favourable, a lower reading never has a worse level than a higher one.
pub proof fn law_low_monotone(x: i64, y: i64, below: i64)
    requires
        x <= y,
    ensures
        severity(low_level(Some(x), below)) <= severity(low_level(Some(y), below)),
{
}

/// Only temperatures of processor and graphics sensors are judged: any other reading is
/// normal, or unknown when it is missing.
pub proof fn law_only_known_temperatures_judged(value: Option<i64>, kind: Seq<char>, chip: Seq<char>)
    requires
        kind != "temp"@ || !(is_gpu_chip(lowercase(chip)) || contains(lowercase(chip), "k10temp"@)
            || contains(lowercase(chip), "coretemp"@)),
    ensures
        sensor_level(value, kind, chip) == (if value is None { Health::Unknown } else { Health::Normal }),
{
}

/// On mains power a battery's charge is never watched or critical.
pub proof fn law_mains_never_alarming(capacity: Option<u64>)
    ensures
        battery_level(Some(true), capacity) != Health::Watch,
        battery_level(Some(true), capacity) != Health::Critical,
{
}

/// The level of the share of RAM in use: good below 60 %, watched from 85 %, critical from 95 %.
pub fn ram_level(v: Option<i64>) -> (h: Health)
    ensures
        h == high_level(v, 60, 85, 95),
{
    high(v, 60, 85, 95)
}

/// The level of the share of swap in use: good below 10 %, watched from 50 %, critical from
/// 80 %.
pub fn swap_level(v: Option<i64>) -> (h: Health)
    ensures
        h == high_level(v, 10, 50, 80),
{
    high(v, 10, 50, 80)
}

/// The level of the share of a file system in use: good below 60 %, watched from 80 %,
/// critical from 90 %.
pub fn storage_level(v: Option<i64>) -> (h: Health)
    ensures
        h == high_level(v, 60, 80, 90),
{
    high(v, 60, 80, 90)
}

/// The level of a pressure reading (PSI `avg10`, in %): good below 1, watched from 10,
/// critical from 25.
pub fn pressure_level(v: Option<i64>) -> (h: Health)
    ensures
        h == high_level(v, 1, 10, 25),
{
    high(v, 1, 10, 25)
}

/// The level of a processor's or a graphics card's use: good below 20 %.
pub fn usage_level(v: Option<i64>) -> (h: Health)
    ensures
        h == low_level(v, 20),
{
    low(v, 20)
}

} // verus!
