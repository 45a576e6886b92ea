//! Descriptive alerts from one snapshot: which readings cross their limits, and how each is
//! described.
use vstd::prelude::*;
use crate::health::{high_level, Health};
use crate::text::{append_str, chars_of, contains, contains_chars, lowercase, occurs_at, to_lower};

verus! {

/// A reading as an alert sees it: the floor of its value, and the value as it is shown.
pub struct Reading {
    pub floor: i64,
    pub text: String,
}

/// A file system's use.
pub struct FsUsage {
    pub mount: Option<String>,
    pub used_percent: Option<Reading>,
}

/// A sensor reading with its descriptive fields.
pub struct SensorReading {
    pub chip: Option<String>,
    pub label: Option<String>,
    pub kind: Option<String>,
    pub value: Option<Reading>,
}

/// The readings of a snapshot that alerts look at.
pub struct AlertInputs {
    pub memory_percent: Option<Reading>,
    pub filesystems: Vec<FsUsage>,
    pub sensors: Vec<SensorReading>,
}

/// An alert: the component concerned, a text that shows the value that caused it and its
/// limits, and whether it is critical.
#[derive(Clone, Debug)]
pub struct Alert {
    pub component: &'static str,
    pub detail: String,
    pub critical: bool,
}

/// An alert as a value: component, detail, critical.
pub open spec fn alert_view(a: Alert) -> (Seq<char>, Seq<char>, bool) {
    (a.component@, a.detail@, a.critical)
}

/// A text, or `d` when there is none.
pub open spec fn text_or(t: Option<String>, d: Seq<char>) -> Seq<char> {
    match t {
        Some(s) => s@,
        None => d,
    }
}

/// The memory alert: from 85 % of RAM in use, critical from 95 %.
pub open spec fn memory_alert(r: Option<Reading>) -> Option<(Seq<char>, Seq<char>, bool)> {
    match r {
        Some(v) => if v.floor >= 85 {
            Some(("Memória"@, "RAM "@ + v.text@ + "% usada; atenção ≥85%, crítico ≥95% (limites genéricos)"@, v.floor >= 95))
        } else {
            None
        },
        None => None,
    }
}

/// A storage alert: from 80 % of a file system in use, critical from 90 %.
pub open spec fn storage_alert(f: FsUsage) -> Option<(Seq<char>, Seq<char>, bool)> {
    match f.used_percent {
        Some(v) => if v.floor >= 80 {
            Some(("Armazenamento"@, text_or(f.mount, "Disco"@) + ": "@ + v.text@ + "% usado; atenção ≥80%, crítico ≥90% (limites genéricos)"@, v.floor >= 90))
        } else {
            None
        },
        None => None,
    }
}

/// The temperature limits (watch, critical) of a sensor whose lower-cased `chip label` is
/// `name`: NVMe drives 65 and 75; processor and graphics sensors 80 and 90; none otherwise.
pub open spec fn temperature_limits(name: Seq<char>) -> Option<(i64, i64)> {
    if contains(name, "nvme"@) {
        Some((65, 75))
    } else if contains(name, "k10temp"@) || contains(name, "coretemp"@) || contains(name, "amdgpu"@)
        || contains(name, "nvidia"@) || contains(name, "nouveau"@) || contains(name, "i915"@)
        || contains(name, "xe"@) || contains(name, "cpu"@) || contains(name, "package"@)
        || contains(name, "tctl"@) || contains(name, "tdie"@) {
        Some((80, 90))
    } else {
        None
    }
}

/// The lower-cased `chip label` name of a sensor.
pub open spec fn sensor_name(s: SensorReading) -> Seq<char> {
    lowercase(text_or(s.chip, Seq::empty()) + " "@ + text_or(s.label, Seq::empty()))
}

/// The text of the limits of a temperature alert.
pub open spec fn limits_text(watch: i64) -> Seq<char> {
    if watch == 65 {
        " °C; atenção ≥65 °C, crítico ≥75 °C (limites genéricos)"@
    } else {
        " °C; atenção ≥80 °C, crítico ≥90 °C (limites genéricos)"@
    }
}

/// A temperature alert: a temperature sensor with limits whose value reaches its watch limit.
pub open spec fn sensor_alert(s: SensorReading) -> Option<(Seq<char>, Seq<char>, bool)> {
    if s.kind.is_none() || s.kind.unwrap()@ != "temp"@ {
        None
    } else {
        match (temperature_limits(sensor_name(s)), s.value) {
            (Some((watch, critical)), Some(v)) => if v.floor >= watch {
                Some(("Sensores"@, text_or(s.chip, Seq::empty()) + " · "@ + text_or(s.label, "Temperatura"@) + ": "@ + v.text@ + limits_text(watch), v.floor >= critical))
            } else {
                None
            },
            _ => None,
        }
    }
}

/// The alerts of a snapshot before ordering: memory, then file systems, then sensors.
pub open spec fn candidates(m: AlertInputs) -> Seq<(Seq<char>, Seq<char>, bool)> {
    some_of(seq![memory_alert(m.memory_percent)])
        + some_of(m.filesystems@.map_values(|f: FsUsage| storage_alert(f)))
        + some_of(m.sensors@.map_values(|s: SensorReading| sensor_alert(s)))
}

/// The present values of `o`, in order.
pub open spec fn some_of<T>(o: Seq<Option<T>>) -> Seq<T>
    decreases o.len(),
{
    if o.len() == 0 {
        seq![]
    } else {
        match o.last() {
            Some(v) => some_of(o.drop_last()).push(v),
            None => some_of(o.drop_last()),
        }
    }
}

/// The alerts of `c` whose critical flag is `critical`, in order.
pub open spec fn with_level(c: Seq<(Seq<char>, Seq<char>, bool)>, critical: bool) -> Seq<(Seq<char>, Seq<char>, bool)>
    decreases c.len(),
{
    if c.len() == 0 {
        seq![]
    } else if c.last().2 == critical {
        with_level(c.drop_last(), critical).push(c.last())
    } else {
        with_level(c.drop_last(), critical)
    }
}

/// Critical alerts first, each group in the order it has in `c`.
pub open spec fn critical_first(c: Seq<(Seq<char>, Seq<char>, bool)>) -> Seq<(Seq<char>, Seq<char>, bool)> {
    with_level(c, true) + with_level(c, false)
}

fn memory_candidate(r: &Option<Reading>) -> (a: Option<Alert>)
    ensures
        opt_view(a) == memory_alert(*r),
{
    match r {
        Some(v) => if v.floor >= 85 {
            let mut d = String::new();
            append_str(&mut d, "RAM ");
            append_str(&mut d, v.text.as_str());
            append_str(&mut d, "% usada; atenção ≥85%, crítico ≥95% (limites genéricos)");
            assert(d@ =~= "RAM "@ + v.text@ + "% usada; atenção ≥85%, crítico ≥95% (limites genéricos)"@);
            Some(Alert { component: "Memória", detail: d, critical: v.floor >= 95 })
        } else {
            None
        },
        None => None,
    }
}

fn storage_candidate(f: &FsUsage) -> (a: Option<Alert>)
    ensures
        opt_view(a) == storage_alert(*f),
{
    match &f.used_percent {
        Some(v) => if v.floor >= 80 {
            let mut d = String::new();
            match &f.mount {
                Some(m) => append_str(&mut d, m.as_str()),
                None => append_str(&mut d, "Disco"),
            }
            let ghost head = d@;
            append_str(&mut d, ": ");
            append_str(&mut d, v.text.as_str());
            append_str(&mut d, "% usado; atenção ≥80%, crítico ≥90% (limites genéricos)");
            assert(head =~= text_or(f.mount, "Disco"@));
            assert(d@ =~= text_or(f.mount, "Disco"@) + ": "@ + v.text@ + "% usado; atenção ≥80%, crítico ≥90% (limites genéricos)"@);
            Some(Alert { component: "Armazenamento", detail: d, critical: v.floor >= 90 })
        } else {
            None
        },
        None => None,
    }
}

fn limits_of(name: &str) -> (r: Option<(i64, i64)>)
    ensures
        r == temperature_limits(name@),
{
    let c = chars_of(name);
    let s = c.as_slice();
    if contains_chars(s, chars_of("nvme").as_slice()) {
        Some((65, 75))
    } else if contains_chars(s, chars_of("k10temp").as_slice()) || contains_chars(s, chars_of("coretemp").as_slice())
        || contains_chars(s, chars_of("amdgpu").as_slice()) || contains_chars(s, chars_of("nvidia").as_slice())
        || contains_chars(s, chars_of("nouveau").as_slice()) || contains_chars(s, chars_of("i915").as_slice())
        || contains_chars(s, chars_of("xe").as_slice()) || contains_chars(s, chars_of("cpu").as_slice())
        || contains_chars(s, chars_of("package").as_slice()) || contains_chars(s, chars_of("tctl").as_slice())
        || contains_chars(s, chars_of("tdie").as_slice()) {
        Some((80, 90))
    } else {
        None
    }
}

fn sensor_candidate(s: &SensorReading) -> (a: Option<Alert>)
    ensures
        opt_view(a) == sensor_alert(*s),
{
    let is_temp = match &s.kind {
        Some(k) => crate::text::chars_eq(chars_of(k.as_str()).as_slice(), chars_of("temp").as_slice()),
        None => false,
    };
    if !is_temp {
        return None;
    }
    let mut joined = String::new();
    match &s.chip {
        Some(c) => append_str(&mut joined, c.as_str()),
        None => {},
    }
    append_str(&mut joined, " ");
    match &s.label {
        Some(l) => append_str(&mut joined, l.as_str()),
        None => {},
    }
    assert(joined@ =~= text_or(s.chip, Seq::empty()) + " "@ + text_or(s.label, Seq::empty()));
    let lower = to_lower(joined.as_str());
    let (watch, critical) = match limits_of(lower.as_str()) {
        Some(l) => l,
        None => {
            return None;
        },
    };
    match &s.value {
        Some(v) => if v.floor >= watch {
            let mut d = String::new();
            match &s.chip {
                Some(c) => append_str(&mut d, c.as_str()),
                None => {},
            }
            let ghost a = d@;
            append_str(&mut d, " · ");
            let ghost b = d@;
            match &s.label {
                Some(l) => append_str(&mut d, l.as_str()),
                None => append_str(&mut d, "Temperatura"),
            }
            let ghost c = d@;
            append_str(&mut d, ": ");
            append_str(&mut d, v.text.as_str());
            if watch == 65 {
                append_str(&mut d, " °C; atenção ≥65 °C, crítico ≥75 °C (limites genéricos)");
            } else {
                append_str(&mut d, " °C; atenção ≥80 °C, crítico ≥90 °C (limites genéricos)");
            }
            assert(a =~= text_or(s.chip, Seq::empty()));
            assert(c =~= a + " · "@ + text_or(s.label, "Temperatura"@));
            assert(d@ =~= text_or(s.chip, Seq::empty()) + " · "@ + text_or(s.label, "Temperatura"@) + ": "@ + v.text@ + limits_text(watch));
            Some(Alert { component: "Sensores", detail: d, critical: v.floor >= critical })
        } else {
            None
        },
        None => None,
    }
}

/// The view of an optional alert.
pub open spec fn opt_view(a: Option<Alert>) -> Option<(Seq<char>, Seq<char>, bool)> {
    match a {
        Some(a) => Some(alert_view(a)),
        None => None,
    }
}

/// The views of a list of alerts.
pub open spec fn alerts_view(v: Seq<Alert>) -> Seq<(Seq<char>, Seq<char>, bool)> {
    v.map_values(|a: Alert| alert_view(a))
}

fn file_alert(
    crit: &mut Vec<Alert>,
    rest: &mut Vec<Alert>,
    a: Option<Alert>,
    Ghost(seen): Ghost<Seq<Option<(Seq<char>, Seq<char>, bool)>>>,
)
    requires
        alerts_view(old(crit)@) == with_level(some_of(seen), true),
        alerts_view(old(rest)@) == with_level(some_of(seen), false),
    ensures
        alerts_view(final(crit)@) == with_level(some_of(seen.push(opt_view(a))), true),
        alerts_view(final(rest)@) == with_level(some_of(seen.push(opt_view(a))), false),
{
    let ghost o = opt_view(a);
    assert(seen.push(o).drop_last() =~= seen);
    match a {
        Some(a) => {
            let ghost av = alert_view(a);
            assert(some_of(seen.push(o)).drop_last() =~= some_of(seen));
            if a.critical {
                let ghost old_c = crit@;
                crit.push(a);
                assert(alerts_view(crit@) =~= alerts_view(old_c).push(av));
            } else {
                let ghost old_r = rest@;
                rest.push(a);
                assert(alerts_view(rest@) =~= alerts_view(old_r).push(av));
            }
        },
        None => {},
    }
}

/// `alerts`: the alerts of a snapshot, critical ones first.
pub fn alerts(m: &AlertInputs) -> (r: Vec<Alert>)
    ensures
        alerts_view(r@) == critical_first(candidates(*m)),
{
    let mut crit: Vec<Alert> = Vec::new();
    let mut rest: Vec<Alert> = Vec::new();
    let ghost mut seen: Seq<Option<(Seq<char>, Seq<char>, bool)>> = Seq::empty();
    assert(alerts_view(crit@) =~= Seq::<(Seq<char>, Seq<char>, bool)>::empty());
    assert(alerts_view(rest@) =~= Seq::<(Seq<char>, Seq<char>, bool)>::empty());
    let a = memory_candidate(&m.memory_percent);
    file_alert(&mut crit, &mut rest, a, Ghost(seen));
    proof { seen = seq![memory_alert(m.memory_percent)]; }
    let ghost fs = m.filesystems@.map_values(|f: FsUsage| storage_alert(f));
    let mut i: usize = 0;
    assert(seen + fs.take(0) =~= seen);
    while i < m.filesystems.len()
        invariant
            i <= m.filesystems@.len(),
            fs == m.filesystems@.map_values(|f: FsUsage| storage_alert(f)),
            alerts_view(crit@) == with_level(some_of(seq![memory_alert(m.memory_percent)] + fs.take(i as int)), true),
            alerts_view(rest@) == with_level(some_of(seq![memory_alert(m.memory_percent)] + fs.take(i as int)), false),
        decreases m.filesystems@.len() - i,
    {
        let ghost before = seq![memory_alert(m.memory_percent)] + fs.take(i as int);
        let a = storage_candidate(&m.filesystems[i]);
        file_alert(&mut crit, &mut rest, a, Ghost(before));
        assert(before.push(fs[i as int]) =~= seq![memory_alert(m.memory_percent)] + fs.take(i + 1));
        i = i + 1;
    }
    assert(fs.take(m.filesystems@.len() as int) =~= fs);
    let ghost head = seq![memory_alert(m.memory_percent)] + fs;
    let ghost ss = m.sensors@.map_values(|s: SensorReading| sensor_alert(s));
    let mut j: usize = 0;
    assert(head + ss.take(0) =~= head);
    while j < m.sensors.len()
        invariant
            j <= m.sensors@.len(),
            ss == m.sensors@.map_values(|s: SensorReading| sensor_alert(s)),
            alerts_view(crit@) == with_level(some_of(head + ss.take(j as int)), true),
            alerts_view(rest@) == with_level(some_of(head + ss.take(j as int)), false),
        decreases m.sensors@.len() - j,
    {
        let a = sensor_candidate(&m.sensors[j]);
        file_alert(&mut crit, &mut rest, a, Ghost(head + ss.take(j as int)));
        assert((head + ss.take(j as int)).push(ss[j as int]) =~= head + ss.take(j + 1));
        j = j + 1;
    }
    assert(ss.take(m.sensors@.len() as int) =~= ss);
    proof { lemma_some_of_concat(head, ss); lemma_some_of_concat(seq![memory_alert(m.memory_percent)], fs); }
    assert(some_of(head + ss) =~= candidates(*m));
    let ghost c1 = crit@;
    let ghost r1 = rest@;
    crit.append(&mut rest);
    assert(alerts_view(crit@) =~= alerts_view(c1) + alerts_view(r1));
    crit
}

proof fn lemma_some_of_concat<T>(a: Seq<Option<T>>, b: Seq<Option<T>>)
    ensures
        some_of(a + b) == some_of(a) + some_of(b),
    decreases b.len(),
{
    if b.len() == 0 {
        assert(a + b =~= a);
        assert(some_of(a) + some_of(b) =~= some_of(a));
    } else {
        assert((a + b).drop_last() =~= a + b.drop_last());
        lemma_some_of_concat(a, b.drop_last());
        match b.last() {
            Some(v) => {
                assert(some_of(a) + some_of(b.drop_last()).push(v) =~= (some_of(a) + some_of(b.drop_last())).push(v));
            },
            None => {},
        }
    }
}


/// Each alert's text shows the value that caused it.
pub proof fn law_alert_shows_value(m: AlertInputs)
    ensures
        memory_alert(m.memory_percent) matches Some(a) ==> contains(a.1, m.memory_percent.unwrap().text@),
        forall|i: int| 0 <= i < m.filesystems@.len() ==> (#[trigger] storage_alert(m.filesystems@[i]) matches Some(a)
            ==> contains(a.1, m.filesystems@[i].used_percent.unwrap().text@)),
        forall|i: int| 0 <= i < m.sensors@.len() ==> (#[trigger] sensor_alert(m.sensors@[i]) matches Some(a)
            ==> contains(a.1, m.sensors@[i].value.unwrap().text@)),
{
    if let Some(v) = m.memory_percent {
        if v.floor >= 85 {
            let d = "RAM "@ + v.text@ + "% usada; atenção ≥85%, crítico ≥95% (limites genéricos)"@;
            let at = "RAM "@.len() as int;
            assert(d.subrange(at, at + v.text@.len()) =~= v.text@);
            assert(occurs_at(d, v.text@, at));
        }
    }
    assert forall|i: int| 0 <= i < m.filesystems@.len() implies (#[trigger] storage_alert(m.filesystems@[i]) matches Some(a)
        ==> contains(a.1, m.filesystems@[i].used_percent.unwrap().text@)) by {
        let f = m.filesystems@[i];
        if let Some(v) = f.used_percent {
            if v.floor >= 80 {
                let head = text_or(f.mount, "Disco"@) + ": "@;
                let d = head + v.text@ + "% usado; atenção ≥80%, crítico ≥90% (limites genéricos)"@;
                let at = head.len() as int;
                assert(d.subrange(at, at + v.text@.len()) =~= v.text@);
                assert(occurs_at(d, v.text@, at));
            }
        }
    }
    assert forall|i: int| 0 <= i < m.sensors@.len() implies (#[trigger] sensor_alert(m.sensors@[i]) matches Some(a)
        ==> contains(a.1, m.sensors@[i].value.unwrap().text@)) by {
        let s = m.sensors@[i];
        if let Some(a) = sensor_alert(s) {
            let v = s.value.unwrap();
            let (watch, critical) = temperature_limits(sensor_name(s)).unwrap();
            let head = text_or(s.chip, Seq::empty()) + " · "@ + text_or(s.label, "Temperatura"@) + ": "@;
            let d = head + v.text@ + limits_text(watch);
            let at = head.len() as int;
            assert(a.1 == d);
            assert(d.subrange(at, at + v.text@.len()) =~= v.text@);
            assert(occurs_at(d, v.text@, at));
        }
    }
}

proof fn lemma_with_level_flags(c: Seq<(Seq<char>, Seq<char>, bool)>, b: bool)
    ensures
        forall|i: int| 0 <= i < with_level(c, b).len() ==> (#[trigger] with_level(c, b)[i]).2 == b,
    decreases c.len(),
{
    if c.len() > 0 {
        lemma_with_level_flags(c.drop_last(), b);
        let w = with_level(c.drop_last(), b);
        if c.last().2 == b {
            assert forall|i: int| 0 <= i < with_level(c, b).len() implies (#[trigger] with_level(c, b)[i]).2 == b by {
                if i < w.len() {
                    assert(with_level(c, b)[i] == w[i]);
                }
            }
        }
    }
}

/// Critical alerts come before all others.
pub proof fn law_critical_first(c: Seq<(Seq<char>, Seq<char>, bool)>)
    ensures
        forall|i: int, j: int| 0 <= i < j < critical_first(c).len() && (#[trigger] critical_first(c)[j]).2
            ==> (#[trigger] critical_first(c)[i]).2,
{
    lemma_with_level_flags(c, true);
    lemma_with_level_flags(c, false);
    let a = with_level(c, true);
    assert forall|i: int, j: int| 0 <= i < j < critical_first(c).len() && (#[trigger] critical_first(c)[j]).2
        implies (#[trigger] critical_first(c)[i]).2 by {
        if j >= a.len() {
            assert(critical_first(c)[j] == with_level(c, false)[j - a.len()]);
        } else {
            assert(critical_first(c)[i] == a[i]);
        }
    }
}

proof fn lemma_some_of_none<T>(o: Seq<Option<T>>)
    requires
        forall|i: int| 0 <= i < o.len() ==> #[trigger] o[i] is None,
    ensures
        some_of(o) == Seq::<T>::empty(),
    decreases o.len(),
{
    if o.len() > 0 {
        lemma_some_of_none(o.drop_last());
    }
}

/// A snapshot whose readings are all unavailable raises no alert.
pub proof fn law_no_reading_no_alert(m: AlertInputs)
    requires
        m.memory_percent is None,
        forall|i: int| 0 <= i < m.filesystems@.len() ==> (#[trigger] m.filesystems@[i]).used_percent is None,
        forall|i: int| 0 <= i < m.sensors@.len() ==> (#[trigger] m.sensors@[i]).value is None,
    ensures
        critical_first(candidates(m)) == Seq::<(Seq<char>, Seq<char>, bool)>::empty(),
{
    let fs = m.filesystems@.map_values(|f: FsUsage| storage_alert(f));
    let ss = m.sensors@.map_values(|s: SensorReading| sensor_alert(s));
    assert(forall|i: int| 0 <= i < fs.len() ==> #[trigger] fs[i] == storage_alert(m.filesystems@[i]));
    assert(forall|i: int| 0 <= i < ss.len() ==> #[trigger] ss[i] == sensor_alert(m.sensors@[i]));
    lemma_some_of_none(fs);
    lemma_some_of_none(ss);
    let one = seq![memory_alert(m.memory_percent)];
    lemma_some_of_none(one);
    let c = candidates(m);
    assert(c =~= Seq::<(Seq<char>, Seq<char>, bool)>::empty());
    assert(with_level(c, true) =~= Seq::<(Seq<char>, Seq<char>, bool)>::empty());
    assert(with_level(c, false) =~= Seq::<(Seq<char>, Seq<char>, bool)>::empty());
}

proof fn lemma_with_level_concat(
    a: Seq<(Seq<char>, Seq<char>, bool)>,
    b: Seq<(Seq<char>, Seq<char>, bool)>,
    x: bool,
)
    ensures
        with_level(a + b, x) == with_level(a, x) + with_level(b, x),
    decreases b.len(),
{
    if b.len() == 0 {
        assert(a + b =~= a);
        assert(with_level(a, x) + with_level(b, x) =~= with_level(a, x));
    } else {
        lemma_with_level_concat(a, b.drop_last(), x);
        assert((a + b).drop_last() =~= a + b.drop_last());
        assert((a + b).last() == b.last());
        if b.last().2 == x {
            assert(with_level(a, x) + with_level(b.drop_last(), x).push(b.last()) =~= (with_level(a, x)
                + with_level(b.drop_last(), x)).push(b.last()));
        }
    }
}

proof fn lemma_with_level_twice(c: Seq<(Seq<char>, Seq<char>, bool)>, x: bool)
    ensures
        with_level(with_level(c, x), x) == with_level(c, x),
        with_level(with_level(c, !x), x) == Seq::<(Seq<char>, Seq<char>, bool)>::empty(),
    decreases c.len(),
{
    if c.len() > 0 {
        lemma_with_level_twice(c.drop_last(), x);
        let w = with_level(c.drop_last(), x);
        let n = with_level(c.drop_last(), !x);
        if c.last().2 == x {
            assert(w.push(c.last()).drop_last() =~= w);
        } else {
            assert(n.push(c.last()).drop_last() =~= n);
        }
    }
}

proof fn lemma_with_level_multiset(c: Seq<(Seq<char>, Seq<char>, bool)>)
    ensures
        with_level(c, true).to_multiset().add(with_level(c, false).to_multiset()) == c.to_multiset(),
    decreases c.len(),
{
    broadcast use vstd::seq_lib::group_to_multiset_ensures;
    broadcast use vstd::multiset::group_multiset_axioms;

    if c.len() == 0 {
        assert(with_level(c, true).to_multiset().add(with_level(c, false).to_multiset()) =~= c.to_multiset());
    } else {
        let d = c.drop_last();
        lemma_with_level_multiset(d);
        assert(d.push(c.last()) =~= c);
        assert(with_level(c, true).to_multiset().add(with_level(c, false).to_multiset()) =~= c.to_multiset());
    }
}

/// The alerts are the generated ones, reordered: the same multiset, and the same order within
/// each level.
pub proof fn law_alerts_keep_order_within_level(c: Seq<(Seq<char>, Seq<char>, bool)>)
    ensures
        critical_first(c).to_multiset() == c.to_multiset(),
        with_level(critical_first(c), true) == with_level(c, true),
        with_level(critical_first(c), false) == with_level(c, false),
{
    broadcast use vstd::seq_lib::lemma_multiset_commutative;

    lemma_with_level_concat(with_level(c, true), with_level(c, false), true);
    lemma_with_level_concat(with_level(c, true), with_level(c, false), false);
    lemma_with_level_twice(c, true);
    lemma_with_level_twice(c, false);
    assert(!true == false);
    assert(with_level(c, true) + Seq::<(Seq<char>, Seq<char>, bool)>::empty() =~= with_level(c, true));
    assert(Seq::<(Seq<char>, Seq<char>, bool)>::empty() + with_level(c, false) =~= with_level(c, false));
    lemma_with_level_multiset(c);
}

/// The memory alert agrees with the RAM gauge: there is one exactly when the gauge is watched
/// or critical, and it is critical exactly when the gauge is.
pub proof fn law_memory_alert_matches_gauge(r: Reading)
    ensures
        memory_alert(Some(r)) is Some <==> (high_level(Some(r.floor), 60, 85, 95) == Health::Watch
            || high_level(Some(r.floor), 60, 85, 95) == Health::Critical),
        memory_alert(Some(r)) matches Some(a) ==> (a.2 <==> high_level(Some(r.floor), 60, 85, 95)
            == Health::Critical),
{
}

/// A storage alert agrees with the file system's gauge: there is one exactly when the gauge
/// is watched or critical, and it is critical exactly when the gauge is.
pub proof fn law_storage_alert_matches_gauge(f: FsUsage)
    requires
        f.used_percent is Some,
    ensures
        storage_alert(f) is Some <==> (high_level(Some(f.used_percent.unwrap().floor), 60, 80, 90)
            == Health::Watch || high_level(Some(f.used_percent.unwrap().floor), 60, 80, 90)
            == Health::Critical),
        storage_alert(f) matches Some(a) ==> (a.2 <==> high_level(
            Some(f.used_percent.unwrap().floor),
            60,
            80,
            90,
        ) == Health::Critical),
{
}


/// Temperature limits by sensor name: NVMe drives are watched from 65 and critical from 75;
/// otherwise a name that mentions a processor or graphics sensor (k10temp, coretemp, amdgpu,
/// nvidia, nouveau, i915, xe, cpu, package, tctl, tdie) is watched from 80 and critical from
/// 90; any other name has no limits.
pub proof fn law_temperature_limits(name: Seq<char>)
    ensures
        contains(name, "nvme"@) ==> temperature_limits(name) == Some((65i64, 75i64)),
        !contains(name, "nvme"@) && (contains(name, "k10temp"@) || contains(name, "coretemp"@)
            || contains(name, "amdgpu"@) || contains(name, "nvidia"@) || contains(name, "nouveau"@)
            || contains(name, "i915"@) || contains(name, "xe"@) || contains(name, "cpu"@)
            || contains(name, "package"@) || contains(name, "tctl"@) || contains(name, "tdie"@))
            ==> temperature_limits(name) == Some((80i64, 90i64)),
        !contains(name, "nvme"@) && !contains(name, "k10temp"@) && !contains(name, "coretemp"@)
            && !contains(name, "amdgpu"@) && !contains(name, "nvidia"@) && !contains(name, "nouveau"@)
            && !contains(name, "i915"@) && !contains(name, "xe"@) && !contains(name, "cpu"@)
            && !contains(name, "package"@) && !contains(name, "tctl"@) && !contains(name, "tdie"@)
            ==> temperature_limits(name) is None,
{
}

/// A temperature of a processor or graphics sensor (not an NVMe drive) raises a sensor alert
/// exactly from 80 degrees, critical exactly from 90.
pub proof fn law_processor_temperature_alert(s: SensorReading, v: Reading)
    requires
        s.kind matches Some(k) && k@ == "temp"@,
        s.value == Some(v),
        !contains(sensor_name(s), "nvme"@),
        contains(sensor_name(s), "k10temp"@) || contains(sensor_name(s), "coretemp"@)
            || contains(sensor_name(s), "amdgpu"@) || contains(sensor_name(s), "nvidia"@)
            || contains(sensor_name(s), "nouveau"@) || contains(sensor_name(s), "i915"@)
            || contains(sensor_name(s), "xe"@) || contains(sensor_name(s), "cpu"@)
            || contains(sensor_name(s), "package"@) || contains(sensor_name(s), "tctl"@)
            || contains(sensor_name(s), "tdie"@),
    ensures
        sensor_alert(s) is Some <==> v.floor >= 80,
        sensor_alert(s) matches Some(a) ==> a.0 == "Sensores"@ && (a.2 <==> v.floor >= 90),
{
    law_temperature_limits(sensor_name(s));
}

/// A temperature of an NVMe drive raises a sensor alert exactly from 65 degrees, critical
/// exactly from 75.
pub proof fn law_nvme_temperature_alert(s: SensorReading, v: Reading)
    requires
        s.kind matches Some(k) && k@ == "temp"@,
        s.value == Some(v),
        contains(sensor_name(s), "nvme"@),
    ensures
        sensor_alert(s) is Some <==> v.floor >= 65,
        sensor_alert(s) matches Some(a) ==> a.0 == "Sensores"@ && (a.2 <==> v.floor >= 75),
{
    law_temperature_limits(sensor_name(s));
}

} // verus!
