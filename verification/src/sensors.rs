//! Discovery of hardware sensors: which files of a sensor chip are inputs, what each is called,
//! and the order in which they are listed.
use vstd::prelude::*;
use crate::text::{
    all_ascii_digits, all_digits, chars_of, string_of, strip_prefix, strip_suffix, trim, trim_ws,
    without_prefix, without_suffix, append_str,
};
use crate::collector::{name_key, key_of_name};
use crate::order::{is_sorted_order, key_lt, key_view, keys_distinct, keys_view, lists, sorted_order};

verus! {

/// The kinds of sensor inputs.
#[derive(Clone, Copy, PartialEq, Eq, Structural, Debug)]
pub enum SensorKind {
    Temp,
    Fan,
    In,
    Power,
    Curr,
}

/// The file-name prefix of a kind of input.
pub open spec fn kind_prefix(k: SensorKind) -> Seq<char> {
    match k {
        SensorKind::Temp => "temp"@,
        SensorKind::Fan => "fan"@,
        SensorKind::In => "in"@,
        SensorKind::Power => "power"@,
        SensorKind::Curr => "curr"@,
    }
}

/// The kinds, in the order in which a file name is tried against them.
pub open spec fn kind_order() -> Seq<SensorKind> {
    seq![SensorKind::Temp, SensorKind::Fan, SensorKind::In, SensorKind::Power, SensorKind::Curr]
}

impl SensorKind {
    /// The file-name prefix of the kind.
    pub fn prefix(self) -> (p: &'static str)
        ensures
            p@ == kind_prefix(self),
    {
        match self {
            SensorKind::Temp => "temp",
            SensorKind::Fan => "fan",
            SensorKind::In => "in",
            SensorKind::Power => "power",
            SensorKind::Curr => "curr",
        }
    }

    /// The unit of the kind's readings.
    pub fn unit(self) -> (u: &'static str)
        ensures
            u@ == (match self {
                SensorKind::Temp => "\u{b0}C"@,
                SensorKind::Fan => "RPM"@,
                SensorKind::In => "V"@,
                SensorKind::Power => "W"@,
                SensorKind::Curr => "A"@,
            }),
    {
        match self {
            SensorKind::Temp => "\u{b0}C",
            SensorKind::Fan => "RPM",
            SensorKind::In => "V",
            SensorKind::Power => "W",
            SensorKind::Curr => "A",
        }
    }
}

/// The index of an input file `name` of kind `k`: the part between the prefix and `_input`,
/// when it is all ASCII digits (possibly none).
pub open spec fn input_index(name: Seq<char>, k: SensorKind) -> Option<Seq<char>> {
    match strip_prefix(name, kind_prefix(k)) {
        Some(r) => match strip_suffix(r, "_input"@) {
            Some(idx) => if all_digits(idx) { Some(idx) } else { None },
            None => None,
        },
        None => None,
    }
}

/// The inputs that a file name stands for: each kind, in order, with its index.
pub open spec fn inputs_of(name: Seq<char>, ks: Seq<SensorKind>) -> Seq<(SensorKind, Seq<char>)>
    decreases ks.len(),
{
    if ks.len() == 0 {
        seq![]
    } else {
        let r = inputs_of(name, ks.drop_last());
        match input_index(name, ks.last()) {
            Some(idx) => r.push((ks.last(), idx)),
            None => r,
        }
    }
}

fn index_of_input(name: &[char], k: SensorKind) -> (r: Option<Vec<char>>)
    ensures
        match r {
            Some(v) => input_index(name@, k) == Some(v@),
            None => input_index(name@, k) is None,
        },
{
    let p = chars_of(k.prefix());
    match without_prefix(name, p.as_slice()) {
        Some(rest) => match without_suffix(rest.as_slice(), chars_of("_input").as_slice()) {
            Some(idx) => if all_ascii_digits(idx.as_slice()) { Some(idx) } else { None },
            None => None,
        },
        None => None,
    }
}

/// `discover_sensors`, matching part: the inputs that the file `name` of a sensor chip
/// stands for.
pub fn sensor_inputs(name: &str) -> (r: Vec<(SensorKind, String)>)
    ensures
        r@.map_values(|e: (SensorKind, String)| (e.0, e.1@)) == inputs_of(name@, kind_order()),
{
    let c = chars_of(name);
    let kinds = vec![SensorKind::Temp, SensorKind::Fan, SensorKind::In, SensorKind::Power, SensorKind::Curr];
    assert(kinds@ =~= kind_order());
    let mut r: Vec<(SensorKind, String)> = Vec::new();
    let mut i: usize = 0;
    assert(kind_order().take(0) =~= Seq::<SensorKind>::empty());
    assert(r@.map_values(|e: (SensorKind, String)| (e.0, e.1@)) =~= Seq::<(SensorKind, Seq<char>)>::empty());
    while i < kinds.len()
        invariant
            c@ == name@,
            kinds@ == kind_order(),
            i <= kinds@.len(),
            r@.map_values(|e: (SensorKind, String)| (e.0, e.1@)) == inputs_of(name@, kind_order().take(i as int)),
        decreases kinds@.len() - i,
    {
        assert(kind_order().take(i + 1).drop_last() =~= kind_order().take(i as int));
        match index_of_input(c.as_slice(), kinds[i]) {
            Some(idx) => {
                let ghost old_r = r@;
                let e = (kinds[i], string_of(idx.as_slice()));
                r.push(e);
                assert(r@.map_values(|e: (SensorKind, String)| (e.0, e.1@)) =~= old_r.map_values(
                    |e: (SensorKind, String)| (e.0, e.1@),
                ).push((e.0, e.1@)));
            },
            None => {},
        }
        i = i + 1;
    }
    assert(kind_order().take(5) =~= kind_order());
    r
}

/// The label of an input: its label file's trimmed text, or prefix and index when there is no
/// readable label file.
pub open spec fn label_of(raw: Option<Seq<char>>, k: SensorKind, idx: Seq<char>) -> Seq<char> {
    match raw {
        Some(t) => trim(t),
        None => kind_prefix(k) + idx,
    }
}

/// `discover_sensors`, labelling part.
pub fn sensor_label(raw: Option<&str>, k: SensorKind, idx: &str) -> (r: String)
    ensures
        r@ == label_of(
            match raw {
                Some(t) => Some(t@),
                None => None::<Seq<char>>,
            },
            k,
            idx@,
        ),
{
    match raw {
        Some(t) => {
            let c = chars_of(t);
            let tr = trim_ws(c.as_slice());
            string_of(tr.as_slice())
        },
        None => {
            let mut s = String::new();
            append_str(&mut s, k.prefix());
            append_str(&mut s, idx);
            assert(s@ =~= kind_prefix(k) + idx@);
            s
        },
    }
}

/// Sensor `(c1, l1)` found `i1`-th comes before sensor `(c2, l2)` found `i2`-th: by chip, then
/// by label, then in the order found.
pub open spec fn sensor_before(c1: Seq<char>, l1: Seq<char>, i1: int, c2: Seq<char>, l2: Seq<char>, i2: int) -> bool {
    ||| key_lt(name_key(c1), name_key(c2))
    ||| (c1 == c2 && key_lt(name_key(l1), name_key(l2)))
    ||| (c1 == c2 && l1 == l2 && i1 < i2)
}

/// The sort key of a sensor: chip, separator, label, separator, position.
pub open spec fn sensor_key(c: Seq<char>, l: Seq<char>, i: int) -> Seq<int> {
    name_key(c) + seq![-1int] + (name_key(l) + seq![-1int, i])
}

proof fn lemma_char_nonneg(c: char)
    ensures
        c as int >= 0,
{
}

proof fn lemma_name_key_nonneg(s: Seq<char>)
    ensures
        forall|i: int| 0 <= i < name_key(s).len() ==> #[trigger] name_key(s)[i] >= 0,
{
    assert forall|i: int| 0 <= i < name_key(s).len() implies #[trigger] name_key(s)[i] >= 0 by {
        lemma_char_nonneg(s[i]);
    }
}

proof fn lemma_separated(a: Seq<int>, x: Seq<int>, c: Seq<int>, y: Seq<int>)
    requires
        forall|i: int| 0 <= i < a.len() ==> #[trigger] a[i] >= 0,
        forall|i: int| 0 <= i < c.len() ==> #[trigger] c[i] >= 0,
        key_lt(a + seq![-1int] + x, c + seq![-1int] + y),
    ensures
        key_lt(a, c) || (a == c && key_lt(x, y)),
    decreases a.len(),
{
    let l = a + seq![-1int] + x;
    let r = c + seq![-1int] + y;
    if a.len() == 0 {
        if c.len() == 0 {
            assert(l.drop_first() =~= x);
            assert(r.drop_first() =~= y);
            assert(a =~= c);
        }
    } else if c.len() == 0 {
        assert(l[0] == a[0]);
        assert(r[0] == -1);
    } else {
        assert(l[0] == a[0]);
        assert(r[0] == c[0]);
        if a[0] == c[0] {
            assert(l.drop_first() =~= a.drop_first() + seq![-1int] + x);
            assert(r.drop_first() =~= c.drop_first() + seq![-1int] + y);
            lemma_separated(a.drop_first(), x, c.drop_first(), y);
            if a.drop_first() == c.drop_first() {
                assert(a =~= seq![a[0]] + a.drop_first());
                assert(c =~= seq![c[0]] + c.drop_first());
            }
        }
    }
}

proof fn lemma_sensor_key_order(c1: Seq<char>, l1: Seq<char>, i1: int, c2: Seq<char>, l2: Seq<char>, i2: int)
    requires
        key_lt(sensor_key(c1, l1, i1), sensor_key(c2, l2, i2)),
    ensures
        sensor_before(c1, l1, i1, c2, l2, i2),
{
    lemma_name_key_nonneg(c1);
    lemma_name_key_nonneg(c2);
    lemma_name_key_nonneg(l1);
    lemma_name_key_nonneg(l2);
    let x = name_key(l1) + seq![-1int, i1];
    let y = name_key(l2) + seq![-1int, i2];
    assert(sensor_key(c1, l1, i1) =~= name_key(c1) + seq![-1int] + x);
    assert(sensor_key(c2, l2, i2) =~= name_key(c2) + seq![-1int] + y);
    lemma_separated(name_key(c1), x, name_key(c2), y);
    if name_key(c1) == name_key(c2) {
        crate::order::lemma_key_lt_irreflexive(name_key(c1));
        crate::collector::lemma_name_key_injective(c1, c2);
        assert(x =~= name_key(l1) + seq![-1int] + seq![i1]);
        assert(y =~= name_key(l2) + seq![-1int] + seq![i2]);
        lemma_separated(name_key(l1), seq![i1], name_key(l2), seq![i2]);
        if name_key(l1) == name_key(l2) {
            crate::order::lemma_key_lt_irreflexive(name_key(l1));
            crate::collector::lemma_name_key_injective(l1, l2);
            assert(seq![i1].drop_first() =~= Seq::<int>::empty());
            assert(seq![i2].drop_first() =~= Seq::<int>::empty());
            assert(key_lt(seq![i1], seq![i2]));
            if i1 == i2 {
                assert(!key_lt(Seq::<int>::empty(), Seq::<int>::empty()));
            }
            assert(i1 < i2);
        }
    }
}

/// `discover_sensors`, ordering part: the positions of the sensors `(chip, label)` (in the order
/// found) by chip, then label; equal ones stay in the order found.
pub fn sensor_order(sensors: &Vec<(String, String)>) -> (r: Vec<usize>)
    ensures
        r@.len() == sensors@.len(),
        forall|k: int| 0 <= k < r@.len() ==> #[trigger] r@[k] < sensors@.len(),
        forall|j: int| 0 <= j < sensors@.len() ==> #[trigger] lists(r@, j),
        forall|k1: int, k2: int| 0 <= k1 < k2 < r@.len() ==> sensor_before(
            sensors@[r@[k1] as int].0@,
            sensors@[r@[k1] as int].1@,
            r@[k1] as int,
            sensors@[r@[k2] as int].0@,
            sensors@[r@[k2] as int].1@,
            r@[k2] as int,
        ),
{
    let mut keys: Vec<Vec<i128>> = Vec::new();
    let mut i: usize = 0;
    while i < sensors.len()
        invariant
            i <= sensors@.len(),
            keys@.len() == i,
            forall|q: int| 0 <= q < i ==> #[trigger] keys_view(keys@)[q] == sensor_key(
                sensors@[q].0@,
                sensors@[q].1@,
                q,
            ),
        decreases sensors@.len() - i,
    {
        let mut k = key_of_name(&sensors[i].0);
        let ghost kc = key_view(k@);
        k.push(-1);
        assert(key_view(k@) =~= kc.push(-1int));
        let l = key_of_name(&sensors[i].1);
        let mut j: usize = 0;
        let ghost k0 = key_view(k@);
        assert(key_view(l@).take(0) =~= Seq::<int>::empty());
        assert(k0 + key_view(l@).take(0) =~= k0);
        while j < l.len()
            invariant
                j <= l@.len(),
                key_view(k@) == k0 + key_view(l@).take(j as int),
            decreases l@.len() - j,
        {
            let ghost old_k = k@;
            k.push(l[j]);
            assert(key_view(k@) =~= key_view(old_k).push(l@[j as int] as int));
            assert(key_view(l@).take(j + 1) =~= key_view(l@).take(j as int).push(l@[j as int] as int));
            assert(key_view(k@) =~= k0 + key_view(l@).take(j + 1));
            j = j + 1;
        }
        let ghost k1 = k@;
        k.push(-1);
        k.push(i as i128);
        assert(key_view(k@) =~= key_view(k1).push(-1int).push(i as int));
        assert(key_view(l@).take(l@.len() as int) =~= key_view(l@));
        assert(key_view(k@) =~= sensor_key(sensors@[i as int].0@, sensors@[i as int].1@, i as int));
        let ghost old_keys = keys@;
        keys.push(k);
        assert(keys_view(keys@) =~= keys_view(old_keys).push(key_view(k@)));
        i = i + 1;
    }
    proof {
        assert forall|a: int, b: int| 0 <= a < b < keys@.len() implies keys_view(keys@)[a] != keys_view(keys@)[b] by {
            let ka = keys_view(keys@)[a];
            let kb = keys_view(keys@)[b];
            assert(ka[ka.len() - 1] == a);
            assert(kb[kb.len() - 1] == b);
        }
    }
    let order = sorted_order(&keys);
    proof {
        assert forall|k1: int, k2: int| 0 <= k1 < k2 < order@.len() implies sensor_before(
            sensors@[order@[k1] as int].0@,
            sensors@[order@[k1] as int].1@,
            order@[k1] as int,
            sensors@[order@[k2] as int].0@,
            sensors@[order@[k2] as int].1@,
            order@[k2] as int,
        ) by {
            let a = order@[k1] as int;
            let b = order@[k2] as int;
            assert(key_lt(keys_view(keys@)[a], keys_view(keys@)[b]));
            lemma_sensor_key_order(sensors@[a].0@, sensors@[a].1@, a, sensors@[b].0@, sensors@[b].1@, b);
        }
    }
    order
}


proof fn lemma_input_index(k: SensorKind, d: Seq<char>)
    requires
        all_digits(d),
    ensures
        input_index(kind_prefix(k) + d + "_input"@, k) == Some(d),
{
    let p = kind_prefix(k);
    let suf = "_input"@;
    let name = p + d + suf;
    assert(name.take(p.len() as int) =~= p);
    let r = name.skip(p.len() as int);
    assert(r =~= d + suf);
    assert(r.skip(r.len() - suf.len()) =~= suf);
    assert(r.take(r.len() - suf.len()) =~= d);
}

proof fn lemma_inputs_of_has(name: Seq<char>, ks: Seq<SensorKind>, j: int, d: Seq<char>)
    requires
        0 <= j < ks.len(),
        input_index(name, ks[j]) == Some(d),
    ensures
        inputs_of(name, ks).contains((ks[j], d)),
    decreases ks.len(),
{
    if j == ks.len() - 1 {
        let r = inputs_of(name, ks.drop_last());
        assert(inputs_of(name, ks) == r.push((ks.last(), d)));
        assert(inputs_of(name, ks)[r.len() as int] == (ks[j], d));
    } else {
        let t = ks.drop_last();
        assert(t[j] == ks[j]);
        lemma_inputs_of_has(name, t, j, d);
        let r = inputs_of(name, t);
        let w = choose|i: int| 0 <= i < r.len() && r[i] == (ks[j], d);
        match input_index(name, ks.last()) {
            Some(x) => {
                assert(inputs_of(name, ks)[w] == r[w]);
            },
            None => {},
        }
    }
}

proof fn lemma_inputs_of_sound(name: Seq<char>, ks: Seq<SensorKind>, i: int)
    requires
        0 <= i < inputs_of(name, ks).len(),
    ensures
        input_index(name, inputs_of(name, ks)[i].0) == Some(inputs_of(name, ks)[i].1),
    decreases ks.len(),
{
    if ks.len() > 0 {
        let r = inputs_of(name, ks.drop_last());
        if i < r.len() {
            lemma_inputs_of_sound(name, ks.drop_last(), i);
            match input_index(name, ks.last()) {
                Some(x) => {
                    assert(inputs_of(name, ks)[i] == r[i]);
                },
                None => {},
            }
        }
    }
}

/// Every kind of input is discovered: for each kind and each index of ASCII digits, the file
/// named by the kind's prefix, the index and `_input` stands for that input; and each input
/// that a file name stands for is of that form.
pub proof fn law_every_kind_discovered(k: SensorKind, d: Seq<char>, name: Seq<char>)
    ensures
        all_digits(d) ==> inputs_of(kind_prefix(k) + d + "_input"@, kind_order()).contains((k, d)),
        forall|i: int| 0 <= i < inputs_of(name, kind_order()).len() ==> {
            let e = #[trigger] inputs_of(name, kind_order())[i];
            &&& all_digits(e.1)
            &&& name == kind_prefix(e.0) + e.1 + "_input"@
        },
{
    if all_digits(d) {
        lemma_input_index(k, d);
        let j: int = match k {
            SensorKind::Temp => 0,
            SensorKind::Fan => 1,
            SensorKind::In => 2,
            SensorKind::Power => 3,
            SensorKind::Curr => 4,
        };
        assert(kind_order()[j] == k);
        lemma_inputs_of_has(kind_prefix(k) + d + "_input"@, kind_order(), j, d);
    }
    assert forall|i: int| 0 <= i < inputs_of(name, kind_order()).len() implies {
        let e = #[trigger] inputs_of(name, kind_order())[i];
        &&& all_digits(e.1)
        &&& name == kind_prefix(e.0) + e.1 + "_input"@
    } by {
        lemma_inputs_of_sound(name, kind_order(), i);
        let e = inputs_of(name, kind_order())[i];
        let p = kind_prefix(e.0);
        let r = name.skip(p.len() as int);
        assert(name =~= p + r);
        assert(r =~= e.1 + "_input"@);
    }
}


/// The input files of the kinds are named `temp<N>_input` (°C), `fan<N>_input` (RPM),
/// `in<N>_input` (V), `power<N>_input` (W) and `curr<N>_input` (A).
pub proof fn law_input_file_prefixes()
    ensures
        kind_prefix(SensorKind::Temp) == "temp"@,
        kind_prefix(SensorKind::Fan) == "fan"@,
        kind_prefix(SensorKind::In) == "in"@,
        kind_prefix(SensorKind::Power) == "power"@,
        kind_prefix(SensorKind::Curr) == "curr"@,
{
}

} // verus!
