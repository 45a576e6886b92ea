//! Parsing of the kernel's counter files and the figures derived from two snapshots.
use vstd::prelude::*;
use crate::text::{
    all_ascii_digits, all_digits, chars_eq, chars_of, file_lines, has_prefix, lines_of_file,
    parse_u64, parse_u64_chars, slice_chars, split_once, split_once_char, split_words,
    starts_with, string_of, trim, trim_ws, views, words, replace_all, replace_chars, trim_char,
    trim_matching, without_prefix, strip_prefix, split_on, split_char, lines,
};
use crate::table::{distinct_names, lemma_table_entries, table_find, table_insert, table_view};
use crate::order::{key_lt, key_view, keys_distinct, keys_view, lists, sorted_order};

verus! {

/// The numbers among `ws`, in order: each word that parses as a `u64`.
pub open spec fn numbers(ws: Seq<Seq<char>>) -> Seq<u64>
    decreases ws.len(),
{
    if ws.len() == 0 {
        seq![]
    } else {
        let r = numbers(ws.drop_last());
        match parse_u64(ws.last()) {
            Some(v) => r.push(v),
            None => r,
        }
    }
}

/// The numbers among the whitespace-separated words of `s`.
pub open spec fn fields_of(s: Seq<char>) -> Seq<u64> {
    numbers(words(s))
}

/// The numbers among `ws[from..]`.
pub fn numbers_from(ws: &Vec<Vec<char>>, from: usize) -> (r: Vec<u64>)
    requires
        from <= ws@.len(),
    ensures
        r@ == numbers(views(ws@).skip(from as int)),
{
    let ghost w = views(ws@).skip(from as int);
    let mut r: Vec<u64> = Vec::new();
    let mut i = from;
    assert(w.take(0) =~= Seq::<Seq<char>>::empty());
    while i < ws.len()
        invariant
            from <= i <= ws@.len(),
            w == views(ws@).skip(from as int),
            r@ == numbers(w.take(i - from)),
        decreases ws@.len() - i,
    {
        assert(w.take(i - from + 1).drop_last() =~= w.take(i - from));
        assert(w[i - from] == ws@[i as int]@);
        match parse_u64_chars(ws[i].as_slice()) {
            Some(v) => {
                r.push(v);
            },
            None => {},
        }
        i = i + 1;
    }
    assert(w.take(ws@.len() - from) =~= w);
    r
}

/// `fields`: the numbers among the whitespace-separated words of `s`.
pub fn fields(s: &str) -> (r: Vec<u64>)
    ensures
        r@ == fields_of(s@),
{
    let c = chars_of(s);
    let ws = split_words(c.as_slice());
    assert(views(ws@).skip(0) =~= views(ws@));
    numbers_from(&ws, 0)
}

/// `num`: the number that a file holds, read as trimmed text.
pub fn num(raw: &str) -> (r: Option<u64>)
    ensures
        r == parse_u64(trim(raw@)),
{
    let c = chars_of(raw);
    let t = trim_ws(c.as_slice());
    parse_u64_chars(t.as_slice())
}

/// `at`: the element at `i`, if any.
pub fn at(v: &[u64], i: usize) -> (r: Option<u64>)
    ensures
        r == (if i < v@.len() { Some(v@[i as int]) } else { None::<u64> }),
{
    if i < v.len() { Some(v[i]) } else { None }
}

pub open spec fn cpu_word() -> Seq<char> {
    seq!['c', 'p', 'u']
}

/// A first word of `/proc/stat` that opens a processor line: `cpu` or `cpu` and digits.
pub open spec fn is_cpu_key(k: Seq<char>) -> bool {
    k == cpu_word() || (starts_with(k, cpu_word()) && k.len() > 3 && all_digits(k.skip(3)))
}

/// The tick counters of the processor lines among `ls`, in order.
pub open spec fn cpu_rows(ls: Seq<Seq<char>>) -> Seq<Seq<u64>>
    decreases ls.len(),
{
    if ls.len() == 0 {
        seq![]
    } else {
        let r = cpu_rows(ls.drop_last());
        let w = words(ls.last());
        if w.len() > 0 && is_cpu_key(w[0]) {
            r.push(numbers(w.skip(1)))
        } else {
            r
        }
    }
}

/// The counter that the last line of `ls` whose first word is `key` gives in its second
/// word; 0 where that word is missing or no number, or where no line has that key.
pub open spec fn stat_value(ls: Seq<Seq<char>>, key: Seq<char>) -> u64
    decreases ls.len(),
{
    if ls.len() == 0 {
        0
    } else {
        let w = words(ls.last());
        if w.len() > 0 && w[0] == key {
            if w.len() > 1 {
                match parse_u64(w[1]) {
                    Some(v) => v,
                    None => 0,
                }
            } else {
                0
            }
        } else {
            stat_value(ls.drop_last(), key)
        }
    }
}

pub open spec fn ctxt_word() -> Seq<char> {
    seq!['c', 't', 'x', 't']
}

pub open spec fn intr_word() -> Seq<char> {
    seq!['i', 'n', 't', 'r']
}

pub open spec fn processes_word() -> Seq<char> {
    seq!['p', 'r', 'o', 'c', 'e', 's', 's', 'e', 's']
}

pub open spec fn blocked_word() -> Seq<char> {
    seq!['p', 'r', 'o', 'c', 's', '_', 'b', 'l', 'o', 'c', 'k', 'e', 'd']
}

/// The views of a list of counter rows.
pub open spec fn rows_view(v: Seq<Vec<u64>>) -> Seq<Seq<u64>> {
    v.map_values(|r: Vec<u64>| r@)
}

/// What `/proc/stat` holds: processor rows, context switches, interrupts, forks, blocked.
pub struct StatCounters {
    pub cpu: Vec<Vec<u64>>,
    pub ctxt: u64,
    pub intr: u64,
    pub forks: u64,
    pub blocked: u64,
}

fn word_is(ws: &Vec<Vec<char>>, i: usize, lit: &[char]) -> (r: bool)
    ensures
        r == (i < ws@.len() && ws@[i as int]@ == lit@),
{
    i < ws.len() && chars_eq(ws[i].as_slice(), lit)
}

fn second_number(ws: &Vec<Vec<char>>) -> (r: u64)
    ensures
        r == (if ws@.len() > 1 {
            match parse_u64(ws@[1]@) {
                Some(v) => v,
                None => 0,
            }
        } else {
            0
        }),
{
    if ws.len() > 1 {
        match parse_u64_chars(ws[1].as_slice()) {
            Some(v) => v,
            None => 0,
        }
    } else {
        0
    }
}

fn is_cpu_line_key(k: &[char]) -> (r: bool)
    ensures
        r == is_cpu_key(k@),
{
    let cpu = vec!['c', 'p', 'u'];
    assert(cpu@ == cpu_word());
    if chars_eq(k, cpu.as_slice()) {
        return true;
    }
    if has_prefix(k, cpu.as_slice()) && k.len() > 3 {
        let rest = slice_chars(k, 3, k.len());
        assert(rest@ =~= k@.skip(3));
        return all_ascii_digits(rest.as_slice());
    }
    false
}

/// Parses `/proc/stat`.
pub fn parse_stat(raw: &str) -> (r: StatCounters)
    ensures
        rows_view(r.cpu@) == cpu_rows(file_lines(raw@)),
        r.ctxt == stat_value(file_lines(raw@), ctxt_word()),
        r.intr == stat_value(file_lines(raw@), intr_word()),
        r.forks == stat_value(file_lines(raw@), processes_word()),
        r.blocked == stat_value(file_lines(raw@), blocked_word()),
{
    let ls = lines_of_file(raw);
    let ghost lv = file_lines(raw@);
    let ctxt_k = vec!['c', 't', 'x', 't'];
    let intr_k = vec!['i', 'n', 't', 'r'];
    let proc_k = vec!['p', 'r', 'o', 'c', 'e', 's', 's', 'e', 's'];
    let blk_k = vec!['p', 'r', 'o', 'c', 's', '_', 'b', 'l', 'o', 'c', 'k', 'e', 'd'];
    assert(ctxt_k@ == ctxt_word());
    assert(intr_k@ == intr_word());
    assert(proc_k@ == processes_word());
    assert(blk_k@ == blocked_word());
    let mut cpu: Vec<Vec<u64>> = Vec::new();
    let mut ctxt: u64 = 0;
    let mut intr: u64 = 0;
    let mut forks: u64 = 0;
    let mut blocked: u64 = 0;
    let mut i: usize = 0;
    assert(lv.take(0) =~= Seq::<Seq<char>>::empty());
    while i < ls.len()
        invariant
            views(ls@) == lv,
            i <= ls@.len(),
            ctxt_k@ == ctxt_word(),
            intr_k@ == intr_word(),
            proc_k@ == processes_word(),
            blk_k@ == blocked_word(),
            rows_view(cpu@) == cpu_rows(lv.take(i as int)),
            ctxt == stat_value(lv.take(i as int), ctxt_word()),
            intr == stat_value(lv.take(i as int), intr_word()),
            forks == stat_value(lv.take(i as int), processes_word()),
            blocked == stat_value(lv.take(i as int), blocked_word()),
        decreases ls@.len() - i,
    {
        let ghost pre = lv.take(i + 1);
        assert(pre.drop_last() =~= lv.take(i as int));
        assert(pre.last() == ls@[i as int]@);
        let ws = split_words(ls[i].as_slice());
        let ghost w = views(ws@);
        if ws.len() > 0 && is_cpu_line_key(ws[0].as_slice()) {
            let row = numbers_from(&ws, 1);
            let ghost old_cpu = cpu@;
            cpu.push(row);
            assert(rows_view(cpu@) =~= rows_view(old_cpu).push(row@));
            proof {
                assert(w[0] == ws@[0]@);
                assert(!(w[0] == ctxt_word()));
                assert(!(w[0] == intr_word()));
                assert(!(w[0] == processes_word()));
                assert(!(w[0] == blocked_word()));
            }
        } else if word_is(&ws, 0, ctxt_k.as_slice()) {
            ctxt = second_number(&ws);
        } else if word_is(&ws, 0, intr_k.as_slice()) {
            intr = second_number(&ws);
        } else if word_is(&ws, 0, proc_k.as_slice()) {
            forks = second_number(&ws);
        } else if word_is(&ws, 0, blk_k.as_slice()) {
            blocked = second_number(&ws);
        }
        i = i + 1;
    }
    assert(lv.take(ls@.len() as int) =~= lv);
    StatCounters { cpu, ctxt, intr, forks, blocked }
}


/// The map that the entries `f` finds in the lines `ls` make, a later line replacing an
/// earlier one with the same name (as collecting into a hash map does).
pub open spec fn fold_table<V>(
    ls: Seq<Seq<char>>,
    f: spec_fn(Seq<char>) -> Option<(Seq<char>, V)>,
) -> Map<Seq<char>, V>
    decreases ls.len(),
{
    if ls.len() == 0 {
        Map::empty()
    } else {
        let m = fold_table(ls.drop_last(), f);
        match f(ls.last()) {
            Some((k, v)) => m.insert(k, v),
            None => m,
        }
    }
}

/// The map of counter rows that a table of vectors stands for.
pub open spec fn rows_table(e: Seq<(String, Vec<u64>)>) -> Map<Seq<char>, Seq<u64>> {
    table_view(e).map_values(|v: Vec<u64>| v@)
}

/// A line of `/proc/net/dev`: the trimmed interface name before `:`, and the numbers after it.
pub open spec fn net_entry(l: Seq<char>) -> Option<(Seq<char>, Seq<u64>)> {
    match split_once(l, ':') {
        Some((n, v)) => Some((trim(n), fields_of(v))),
        None => None,
    }
}

/// A line of `/proc/diskstats`: the third word names the device; the numbers after it are its
/// counters, of which there must be at least eleven.
pub open spec fn disk_entry(l: Seq<char>) -> Option<(Seq<char>, Seq<u64>)> {
    let w = words(l);
    if w.len() < 3 {
        None
    } else if numbers(w.skip(3)).len() < 11 {
        None
    } else {
        Some((w[2], numbers(w.skip(3))))
    }
}

/// A line of `/proc/vmstat`: a name and a number.
pub open spec fn vm_entry(l: Seq<char>) -> Option<(Seq<char>, u64)> {
    let w = words(l);
    if w.len() < 2 {
        None
    } else {
        match parse_u64(w[1]) {
            Some(v) => Some((w[0], v)),
            None => None,
        }
    }
}

fn net_line(l: &Vec<char>) -> (r: Option<(String, Vec<u64>)>)
    ensures
        match r {
            Some((k, v)) => net_entry(l@) == Some((k@, v@)),
            None => net_entry(l@) is None,
        },
{
    match split_once_char(l.as_slice(), ':') {
        Some((n, v)) => {
            let name = trim_ws(n.as_slice());
            let ws = split_words(v.as_slice());
            assert(views(ws@).skip(0) =~= views(ws@));
            let nums = numbers_from(&ws, 0);
            Some((string_of(name.as_slice()), nums))
        },
        None => None,
    }
}

fn disk_line(l: &Vec<char>) -> (r: Option<(String, Vec<u64>)>)
    ensures
        match r {
            Some((k, v)) => disk_entry(l@) == Some((k@, v@)),
            None => disk_entry(l@) is None,
        },
{
    let ws = split_words(l.as_slice());
    if ws.len() < 3 {
        return None;
    }
    let nums = numbers_from(&ws, 3);
    if nums.len() < 11 {
        return None;
    }
    Some((string_of(ws[2].as_slice()), nums))
}

fn vm_line(l: &Vec<char>) -> (r: Option<(String, u64)>)
    ensures
        match r {
            Some((k, v)) => vm_entry(l@) == Some((k@, v)),
            None => vm_entry(l@) is None,
        },
{
    let ws = split_words(l.as_slice());
    if ws.len() < 2 {
        return None;
    }
    match parse_u64_chars(ws[1].as_slice()) {
        Some(v) => Some((string_of(ws[0].as_slice()), v)),
        None => None,
    }
}

/// The lines after the first two (none when there are fewer).
pub open spec fn after_header(ls: Seq<Seq<char>>) -> Seq<Seq<char>> {
    if ls.len() < 2 { seq![] } else { ls.skip(2) }
}

/// Parses `/proc/net/dev`: the lines after the two header lines.
pub fn parse_net_dev(raw: &str) -> (r: Vec<(String, Vec<u64>)>)
    ensures
        distinct_names(r@),
        rows_table(r@) == fold_table(after_header(file_lines(raw@)), |l: Seq<char>| net_entry(l)),
{
    let ls = lines_of_file(raw);
    let ghost lv = after_header(file_lines(raw@));
    let ghost f = |l: Seq<char>| net_entry(l);
    let mut r: Vec<(String, Vec<u64>)> = Vec::new();
    assert(rows_table(r@) =~= Map::<Seq<char>, Seq<u64>>::empty());
    if ls.len() < 2 {
        return r;
    }
    let mut i: usize = 2;
    assert(lv.take(0) =~= Seq::<Seq<char>>::empty());
    while i < ls.len()
        invariant
            views(ls@).skip(2) == lv,
            2 <= i <= ls@.len(),
            f == (|l: Seq<char>| net_entry(l)),
            distinct_names(r@),
            rows_table(r@) == fold_table(lv.take(i - 2), f),
        decreases ls@.len() - i,
    {
        let ghost pre = lv.take(i - 2 + 1);
        assert(pre.drop_last() =~= lv.take(i - 2));
        assert(pre.last() == ls@[i as int]@);
        match net_line(&ls[i]) {
            Some((k, v)) => {
                let ghost old_r = r@;
                table_insert(&mut r, k, v);
                assert(rows_table(r@) =~= rows_table(old_r).insert(k@, v@));
            },
            None => {},
        }
        i = i + 1;
    }
    assert(lv.take(ls@.len() - 2) =~= lv);
    r
}

/// Parses `/proc/diskstats`.
pub fn parse_diskstats(raw: &str) -> (r: Vec<(String, Vec<u64>)>)
    ensures
        distinct_names(r@),
        rows_table(r@) == fold_table(file_lines(raw@), |l: Seq<char>| disk_entry(l)),
{
    let ls = lines_of_file(raw);
    let ghost lv = file_lines(raw@);
    let ghost f = |l: Seq<char>| disk_entry(l);
    let mut r: Vec<(String, Vec<u64>)> = Vec::new();
    let mut i: usize = 0;
    assert(lv.take(0) =~= Seq::<Seq<char>>::empty());
    assert(rows_table(r@) =~= Map::<Seq<char>, Seq<u64>>::empty());
    while i < ls.len()
        invariant
            views(ls@) == lv,
            i <= ls@.len(),
            f == (|l: Seq<char>| disk_entry(l)),
            distinct_names(r@),
            rows_table(r@) == fold_table(lv.take(i as int), f),
        decreases ls@.len() - i,
    {
        let ghost pre = lv.take(i + 1);
        assert(pre.drop_last() =~= lv.take(i as int));
        assert(pre.last() == ls@[i as int]@);
        match disk_line(&ls[i]) {
            Some((k, v)) => {
                let ghost old_r = r@;
                table_insert(&mut r, k, v);
                assert(rows_table(r@) =~= rows_table(old_r).insert(k@, v@));
            },
            None => {},
        }
        i = i + 1;
    }
    assert(lv.take(ls@.len() as int) =~= lv);
    r
}

/// Parses `/proc/vmstat`.
pub fn parse_vmstat(raw: &str) -> (r: Vec<(String, u64)>)
    ensures
        distinct_names(r@),
        table_view(r@) == fold_table(file_lines(raw@), |l: Seq<char>| vm_entry(l)),
{
    let ls = lines_of_file(raw);
    let ghost lv = file_lines(raw@);
    let ghost f = |l: Seq<char>| vm_entry(l);
    let mut r: Vec<(String, u64)> = Vec::new();
    let mut i: usize = 0;
    assert(lv.take(0) =~= Seq::<Seq<char>>::empty());
    assert(table_view(r@) =~= Map::<Seq<char>, u64>::empty());
    while i < ls.len()
        invariant
            views(ls@) == lv,
            i <= ls@.len(),
            f == (|l: Seq<char>| vm_entry(l)),
            distinct_names(r@),
            table_view(r@) == fold_table(lv.take(i as int), f),
        decreases ls@.len() - i,
    {
        let ghost pre = lv.take(i + 1);
        assert(pre.drop_last() =~= lv.take(i as int));
        assert(pre.last() == ls@[i as int]@);
        match vm_line(&ls[i]) {
            Some((k, v)) => {
                table_insert(&mut r, k, v);
            },
            None => {},
        }
        i = i + 1;
    }
    assert(lv.take(ls@.len() as int) =~= lv);
    r
}


pub open spec fn tcp_word() -> Seq<char> {
    seq!['T', 'c', 'p', ':']
}

pub open spec fn retrans_word() -> Seq<char> {
    seq!['R', 'e', 't', 'r', 'a', 'n', 's', 'S', 'e', 'g', 's']
}

/// The lines of `ls` that start with `Tcp:`, in order.
pub open spec fn tcp_lines(ls: Seq<Seq<char>>) -> Seq<Seq<char>>
    decreases ls.len(),
{
    if ls.len() == 0 {
        seq![]
    } else {
        let r = tcp_lines(ls.drop_last());
        if starts_with(ls.last(), tcp_word()) { r.push(ls.last()) } else { r }
    }
}

/// Index of the first word of `ws` equal to `k`.
pub open spec fn position_of(ws: Seq<Seq<char>>, k: Seq<char>) -> Option<int>
    decreases ws.len(),
{
    if ws.len() == 0 {
        None
    } else if ws[0] == k {
        Some(0)
    } else {
        match position_of(ws.drop_first(), k) {
            Some(p) => Some(p + 1),
            None => None,
        }
    }
}

/// Retransmitted TCP segments in `/proc/net/snmp`: in the second `Tcp:` line, the number under
/// the heading `RetransSegs` of the first `Tcp:` line.
pub open spec fn retrans_of(ls: Seq<Seq<char>>) -> Option<u64> {
    let t = tcp_lines(ls);
    if t.len() < 2 {
        None
    } else {
        match position_of(words(t[0]), retrans_word()) {
            Some(p) => if p < words(t[1]).len() { parse_u64(words(t[1])[p]) } else { None },
            None => None,
        }
    }
}

/// Established TCP connections in `/proc/net/snmp`: the tenth word of the second `Tcp:` line.
pub open spec fn established_of(ls: Seq<Seq<char>>) -> Option<u64> {
    let t = tcp_lines(ls);
    if t.len() < 2 {
        None
    } else if words(t[1]).len() > 9 {
        parse_u64(words(t[1])[9])
    } else {
        None
    }
}

/// The lines of a file that start with `Tcp:`.
fn tcp_lines_of(raw: &str) -> (r: Vec<Vec<char>>)
    ensures
        views(r@) == tcp_lines(file_lines(raw@)),
{
    let ls = lines_of_file(raw);
    let ghost lv = file_lines(raw@);
    let tcp = vec!['T', 'c', 'p', ':'];
    assert(tcp@ == tcp_word());
    let mut r: Vec<Vec<char>> = Vec::new();
    let mut i: usize = 0;
    assert(lv.take(0) =~= Seq::<Seq<char>>::empty());
    assert(views(r@) =~= Seq::<Seq<char>>::empty());
    while i < ls.len()
        invariant
            views(ls@) == lv,
            tcp@ == tcp_word(),
            i <= ls@.len(),
            views(r@) == tcp_lines(lv.take(i as int)),
        decreases ls@.len() - i,
    {
        let ghost pre = lv.take(i + 1);
        assert(pre.drop_last() =~= lv.take(i as int));
        assert(pre.last() == ls@[i as int]@);
        if has_prefix(ls[i].as_slice(), tcp.as_slice()) {
            let ghost old_r = r@;
            r.push(ls[i].clone());
            assert(views(r@) =~= views(old_r).push(ls@[i as int]@));
        }
        i = i + 1;
    }
    assert(lv.take(ls@.len() as int) =~= lv);
    r
}

fn find_word(ws: &Vec<Vec<char>>, k: &[char]) -> (r: Option<usize>)
    ensures
        match r {
            Some(p) => position_of(views(ws@), k@) == Some(p as int) && p < ws@.len(),
            None => position_of(views(ws@), k@) is None,
        },
{
    let ghost w = views(ws@);
    let mut i: usize = 0;
    assert(w.skip(0) =~= w);
    while i < ws.len()
        invariant
            w == views(ws@),
            i <= ws@.len(),
            position_of(w, k@) == (match position_of(w.skip(i as int), k@) {
                Some(p) => Some(p + i),
                None => None::<int>,
            }),
        decreases ws@.len() - i,
    {
        let ghost rest = w.skip(i as int);
        assert(rest[0] == ws@[i as int]@);
        if chars_eq(ws[i].as_slice(), k) {
            return Some(i);
        }
        assert(rest.drop_first() =~= w.skip(i + 1));
        i = i + 1;
    }
    assert(w.skip(ws@.len() as int) =~= Seq::<Seq<char>>::empty());
    None
}

/// Parses the retransmitted-segment counter of `/proc/net/snmp`.
pub fn parse_retrans(raw: &str) -> (r: Option<u64>)
    ensures
        r == retrans_of(file_lines(raw@)),
{
    let t = tcp_lines_of(raw);
    if t.len() < 2 {
        return None;
    }
    let keys = split_words(t[0].as_slice());
    let vals = split_words(t[1].as_slice());
    let rs = vec!['R', 'e', 't', 'r', 'a', 'n', 's', 'S', 'e', 'g', 's'];
    assert(rs@ == retrans_word());
    match find_word(&keys, rs.as_slice()) {
        Some(p) => {
            if p < vals.len() {
                parse_u64_chars(vals[p].as_slice())
            } else {
                None
            }
        },
        None => None,
    }
}

/// Parses the established-connection count of `/proc/net/snmp`.
pub fn parse_established(raw: &str) -> (r: Option<u64>)
    ensures
        r == established_of(file_lines(raw@)),
{
    let t = tcp_lines_of(raw);
    if t.len() < 2 {
        return None;
    }
    let vals = split_words(t[1].as_slice());
    if vals.len() > 9 {
        parse_u64_chars(vals[9].as_slice())
    } else {
        None
    }
}

/// One reading of the kernel's cumulative counters.
pub struct Counters {
    pub cpu: Vec<Vec<u64>>,
    pub ctxt: u64,
    pub intr: u64,
    pub forks: u64,
    pub blocked: u64,
    pub net: Vec<(String, Vec<u64>)>,
    pub disk: Vec<(String, Vec<u64>)>,
    pub vm: Vec<(String, u64)>,
    pub retrans: Option<u64>,
}

impl Counters {
    /// The tables hold each name once.
    pub open spec fn wf(&self) -> bool {
        &&& distinct_names(self.net@)
        &&& distinct_names(self.disk@)
        &&& distinct_names(self.vm@)
    }
}

/// `counter_snapshot`: the counters that the texts of `/proc/stat`, `/proc/net/dev`,
/// `/proc/diskstats`, `/proc/vmstat` and `/proc/net/snmp` hold (an unreadable file reads as
/// empty text).
pub fn counter_snapshot(stat: &str, net_dev: &str, diskstats: &str, vmstat: &str, snmp: &str) -> (c:
    Counters)
    ensures
        c.wf(),
        rows_view(c.cpu@) == cpu_rows(file_lines(stat@)),
        c.ctxt == stat_value(file_lines(stat@), ctxt_word()),
        c.intr == stat_value(file_lines(stat@), intr_word()),
        c.forks == stat_value(file_lines(stat@), processes_word()),
        c.blocked == stat_value(file_lines(stat@), blocked_word()),
        rows_table(c.net@) == fold_table(after_header(file_lines(net_dev@)), |l: Seq<char>| net_entry(l)),
        rows_table(c.disk@) == fold_table(file_lines(diskstats@), |l: Seq<char>| disk_entry(l)),
        table_view(c.vm@) == fold_table(file_lines(vmstat@), |l: Seq<char>| vm_entry(l)),
        c.retrans == retrans_of(file_lines(snmp@)),
{
    let s = parse_stat(stat);
    Counters {
        cpu: s.cpu,
        ctxt: s.ctxt,
        intr: s.intr,
        forks: s.forks,
        blocked: s.blocked,
        net: parse_net_dev(net_dev),
        disk: parse_diskstats(diskstats),
        vm: parse_vmstat(vmstat),
        retrans: parse_retrans(snmp),
    }
}


/// A `Name: value` line: the trimmed name and the first word after the colon as a number.
pub open spec fn colon_entry(l: Seq<char>) -> Option<(Seq<char>, u64)> {
    match split_once(l, ':') {
        Some((k, v)) => if words(v).len() > 0 {
            match parse_u64(words(v)[0]) {
                Some(x) => Some((trim(k), x)),
                None => None,
            }
        } else {
            None
        },
        None => None,
    }
}

fn colon_line(l: &Vec<char>) -> (r: Option<(String, u64)>)
    ensures
        match r {
            Some((k, v)) => colon_entry(l@) == Some((k@, v)),
            None => colon_entry(l@) is None,
        },
{
    match split_once_char(l.as_slice(), ':') {
        Some((k, v)) => {
            let ws = split_words(v.as_slice());
            if ws.len() == 0 {
                return None;
            }
            match parse_u64_chars(ws[0].as_slice()) {
                Some(x) => {
                    let name = trim_ws(k.as_slice());
                    Some((string_of(name.as_slice()), x))
                },
                None => None,
            }
        },
        None => None,
    }
}

/// `map_colon`: the `Name: value` lines of a file such as `/proc/meminfo`.
pub fn map_colon(raw: &str) -> (r: Vec<(String, u64)>)
    ensures
        distinct_names(r@),
        table_view(r@) == fold_table(file_lines(raw@), |l: Seq<char>| colon_entry(l)),
{
    let ls = lines_of_file(raw);
    let ghost lv = file_lines(raw@);
    let ghost f = |l: Seq<char>| colon_entry(l);
    let mut r: Vec<(String, u64)> = Vec::new();
    let mut i: usize = 0;
    assert(lv.take(0) =~= Seq::<Seq<char>>::empty());
    assert(table_view(r@) =~= Map::<Seq<char>, u64>::empty());
    while i < ls.len()
        invariant
            views(ls@) == lv,
            i <= ls@.len(),
            f == (|l: Seq<char>| colon_entry(l)),
            distinct_names(r@),
            table_view(r@) == fold_table(lv.take(i as int), f),
        decreases ls@.len() - i,
    {
        let ghost pre = lv.take(i + 1);
        assert(pre.drop_last() =~= lv.take(i as int));
        assert(pre.last() == ls@[i as int]@);
        match colon_line(&ls[i]) {
            Some((k, v)) => {
                table_insert(&mut r, k, v);
            },
            None => {},
        }
        i = i + 1;
    }
    assert(lv.take(ls@.len() as int) =~= lv);
    r
}

/// The number stored under `k`, if any.
pub fn lookup(m: &Vec<(String, u64)>, k: &str) -> (r: Option<u64>)
    ensures
        r == table_view(m@).get(k@),
{
    let key = k.to_owned();
    match table_find(m, &key) {
        Some(i) => Some(m[i].1),
        None => None,
    }
}

/// A value in kibibytes, in bytes when that fits a `u64`.
pub open spec fn kib_bytes(v: Option<u64>) -> Option<u64> {
    match v {
        Some(x) => if x * 1024 <= u64::MAX { Some((x * 1024) as u64) } else { None },
        None => None,
    }
}

/// `kb`: the entry `k` of a `Name: value` table, taken as kibibytes, in bytes.
pub fn kb(m: &Vec<(String, u64)>, k: &str) -> (r: Option<u64>)
    ensures
        r == kib_bytes(table_view(m@).get(k@)),
{
    match lookup(m, k) {
        Some(x) => x.checked_mul(1024),
        None => None,
    }
}

/// How much a counter grew from `a` to `b`; none when a reading is missing or the counter
/// went back.
pub open spec fn growth(a: Option<u64>, b: Option<u64>) -> Option<u64> {
    match (a, b) {
        (Some(x), Some(y)) => if x <= y { Some((y - x) as u64) } else { None },
        _ => None,
    }
}

/// The counting part of `delta`: the growth of a counter between two readings.
pub fn delta_count(a: Option<u64>, b: Option<u64>) -> (r: Option<u64>)
    ensures
        r == growth(a, b),
{
    match (a, b) {
        (Some(x), Some(y)) => y.checked_sub(x),
        _ => None,
    }
}

/// `total - free`, floored at zero, when both are known.
pub open spec fn used_of(total: Option<u64>, free: Option<u64>) -> Option<u64> {
    match (total, free) {
        (Some(t), Some(f)) => Some(if t >= f { (t - f) as u64 } else { 0 }),
        _ => None,
    }
}

fn used(total: Option<u64>, free: Option<u64>) -> (r: Option<u64>)
    ensures
        r == used_of(total, free),
{
    match (total, free) {
        (Some(t), Some(f)) => Some(t.saturating_sub(f)),
        _ => None,
    }
}

/// The figures of the memory card that are counts: sizes in bytes from `/proc/meminfo`, and
/// the growth of paging counters of `/proc/vmstat` between two snapshots.
pub struct MemoryCounts {
    pub total_bytes: Option<u64>,
    pub available_bytes: Option<u64>,
    pub used_bytes: Option<u64>,
    pub cached_bytes: Option<u64>,
    pub buffers_bytes: Option<u64>,
    pub active_bytes: Option<u64>,
    pub inactive_bytes: Option<u64>,
    pub slab_bytes: Option<u64>,
    pub dirty_bytes: Option<u64>,
    pub swap_total_bytes: Option<u64>,
    pub swap_used_bytes: Option<u64>,
    pub swap_in_pages: Option<u64>,
    pub swap_out_pages: Option<u64>,
    pub page_faults: Option<u64>,
    pub major_faults: Option<u64>,
    pub pgscan: Option<u64>,
    pub pgsteal: Option<u64>,
    pub compact_stall: Option<u64>,
}

/// The growth of the `/proc/vmstat` counter `k` from `prev` to `now`.
pub open spec fn vm_growth(prev: &Counters, now: &Counters, k: Seq<char>) -> Option<u64> {
    growth(table_view(prev.vm@).get(k), table_view(now.vm@).get(k))
}

fn vm_delta(prev: &Counters, now: &Counters, k: &str) -> (r: Option<u64>)
    ensures
        r == vm_growth(prev, now, k@),
{
    delta_count(lookup(&prev.vm, k), lookup(&now.vm, k))
}

/// The counting part of `memory`, from the text of `/proc/meminfo` and two snapshots.
pub fn memory(meminfo: &str, now: &Counters, prev: &Counters) -> (r: MemoryCounts)
    ensures
        ({
            let m = fold_table(file_lines(meminfo@), |l: Seq<char>| colon_entry(l));
            &&& r.total_bytes == kib_bytes(m.get("MemTotal"@))
            &&& r.available_bytes == kib_bytes(m.get("MemAvailable"@))
            &&& r.used_bytes == used_of(r.total_bytes, r.available_bytes)
            &&& r.cached_bytes == kib_bytes(m.get("Cached"@))
            &&& r.buffers_bytes == kib_bytes(m.get("Buffers"@))
            &&& r.active_bytes == kib_bytes(m.get("Active"@))
            &&& r.inactive_bytes == kib_bytes(m.get("Inactive"@))
            &&& r.slab_bytes == kib_bytes(m.get("Slab"@))
            &&& r.dirty_bytes == kib_bytes(m.get("Dirty"@))
            &&& r.swap_total_bytes == kib_bytes(m.get("SwapTotal"@))
            &&& r.swap_used_bytes == used_of(r.swap_total_bytes, kib_bytes(m.get("SwapFree"@)))
        }),
        r.swap_in_pages == vm_growth(prev, now, "pswpin"@),
        r.swap_out_pages == vm_growth(prev, now, "pswpout"@),
        r.page_faults == vm_growth(prev, now, "pgfault"@),
        r.major_faults == vm_growth(prev, now, "pgmajfault"@),
        r.pgscan == vm_growth(prev, now, "pgscan_direct"@),
        r.pgsteal == vm_growth(prev, now, "pgsteal_direct"@),
        r.compact_stall == vm_growth(prev, now, "compact_stall"@),
{
    let m = map_colon(meminfo);
    let t = kb(&m, "MemTotal");
    let avail = kb(&m, "MemAvailable");
    let st = kb(&m, "SwapTotal");
    let sf = kb(&m, "SwapFree");
    MemoryCounts {
        total_bytes: t,
        available_bytes: avail,
        used_bytes: used(t, avail),
        cached_bytes: kb(&m, "Cached"),
        buffers_bytes: kb(&m, "Buffers"),
        active_bytes: kb(&m, "Active"),
        inactive_bytes: kb(&m, "Inactive"),
        slab_bytes: kb(&m, "Slab"),
        dirty_bytes: kb(&m, "Dirty"),
        swap_total_bytes: st,
        swap_used_bytes: used(st, sf),
        swap_in_pages: vm_delta(prev, now, "pswpin"),
        swap_out_pages: vm_delta(prev, now, "pswpout"),
        page_faults: vm_delta(prev, now, "pgfault"),
        major_faults: vm_delta(prev, now, "pgmajfault"),
        pgscan: vm_delta(prev, now, "pgscan_direct"),
        pgsteal: vm_delta(prev, now, "pgsteal_direct"),
        compact_stall: vm_delta(prev, now, "compact_stall"),
    }
}


/// The sort key of a name: its characters' code points (the order of `String`'s `Ord`).
pub open spec fn name_key(s: Seq<char>) -> Seq<int> {
    s.map_values(|c: char| c as int)
}

pub proof fn lemma_name_key_injective(a: Seq<char>, b: Seq<char>)
    requires
        name_key(a) == name_key(b),
    ensures
        a == b,
{
    assert(a.len() == name_key(a).len());
    assert(b.len() == name_key(b).len());
    assert forall|i: int| 0 <= i < a.len() implies a[i] == b[i] by {
        assert(name_key(a)[i] == name_key(b)[i]);
        assert(name_key(a)[i] == a[i] as int);
        assert(name_key(b)[i] == b[i] as int);
    }
    assert(a =~= b);
}

fn char_code(c: char) -> (r: i128)
    ensures
        r as int == c as int,
{
    c as u32 as i128
}

/// The sort key of a name.
pub fn key_of_name(s: &String) -> (k: Vec<i128>)
    ensures
        key_view(k@) == name_key(s@),
{
    let c = chars_of(s.as_str());
    let mut k: Vec<i128> = Vec::new();
    let mut i: usize = 0;
    while i < c.len()
        invariant
            c@ == s@,
            i <= c@.len(),
            key_view(k@) == name_key(c@.take(i as int)),
        decreases c@.len() - i,
    {
        let ghost old_k = k@;
        let x = char_code(c[i]);
        k.push(x);
        assert(key_view(k@) =~= key_view(old_k).push(x as int));
        assert(name_key(c@.take(i + 1)) =~= name_key(c@.take(i as int)).push(c@[i as int] as int));
        i = i + 1;
    }
    assert(c@.take(c@.len() as int) =~= c@);
    k
}

/// The entries `pick` of `e`, by increasing name.
fn order_names<V>(e: &Vec<(String, V)>, pick: &Vec<usize>) -> (r: Vec<usize>)
    requires
        distinct_names(e@),
        forall|j: int| 0 <= j < pick@.len() ==> #[trigger] pick@[j] < e@.len(),
        forall|a: int, b: int| 0 <= a < b < pick@.len() ==> pick@[a] != pick@[b],
    ensures
        r@.len() == pick@.len(),
        forall|k: int| 0 <= k < r@.len() ==> #[trigger] lists(pick@, r@[k] as int),
        forall|j: int| 0 <= j < pick@.len() ==> #[trigger] lists(r@, pick@[j] as int),
        forall|k1: int, k2: int| 0 <= k1 < k2 < r@.len() ==> key_lt(
            name_key(e@[r@[k1] as int].0@),
            name_key(e@[r@[k2] as int].0@),
        ),
{
    let mut keys: Vec<Vec<i128>> = Vec::new();
    let mut j: usize = 0;
    while j < pick.len()
        invariant
            j <= pick@.len(),
            forall|q: int| 0 <= q < pick@.len() ==> #[trigger] pick@[q] < e@.len(),
            keys@.len() == j,
            forall|q: int| 0 <= q < j ==> #[trigger] keys_view(keys@)[q] == name_key(e@[pick@[q] as int].0@),
        decreases pick@.len() - j,
    {
        let k = key_of_name(&e[pick[j]].0);
        let ghost old_keys = keys@;
        keys.push(k);
        assert(keys_view(keys@) =~= keys_view(old_keys).push(key_view(k@)));
        j = j + 1;
    }
    proof {
        assert forall|a: int, b: int| 0 <= a < b < keys@.len() implies keys_view(keys@)[a] != keys_view(keys@)[b] by {
            if keys_view(keys@)[a] == keys_view(keys@)[b] {
                lemma_name_key_injective(e@[pick@[a] as int].0@, e@[pick@[b] as int].0@);
                if pick@[a] < pick@[b] {
                    assert(e@[pick@[a] as int].0@ != e@[pick@[b] as int].0@);
                } else {
                    assert(e@[pick@[b] as int].0@ != e@[pick@[a] as int].0@);
                }
            }
        }
        assert(keys_distinct(keys_view(keys@)));
    }
    let order = sorted_order(&keys);
    let mut r: Vec<usize> = Vec::new();
    let mut k: usize = 0;
    while k < order.len()
        invariant
            order@.len() == pick@.len(),
            forall|q: int| 0 <= q < order@.len() ==> #[trigger] order@[q] < pick@.len(),
            k <= order@.len(),
            r@.len() == k,
            forall|q: int| 0 <= q < k ==> #[trigger] r@[q] == pick@[order@[q] as int],
        decreases order@.len() - k,
    {
        r.push(pick[order[k]]);
        k = k + 1;
    }
    proof {
        assert forall|q: int| 0 <= q < r@.len() implies #[trigger] lists(pick@, r@[q] as int) by {
            assert(pick@[order@[q] as int] == r@[q]);
        }
        assert forall|q: int| 0 <= q < pick@.len() implies #[trigger] lists(r@, pick@[q] as int) by {
            assert(lists(order@, q));
            let m = choose|m: int| 0 <= m < order@.len() && order@[m] == q;
            assert(r@[m] == pick@[q]);
        }
        assert forall|k1: int, k2: int| 0 <= k1 < k2 < r@.len() implies key_lt(
            name_key(e@[r@[k1] as int].0@),
            name_key(e@[r@[k2] as int].0@),
        ) by {
            assert(key_lt(keys_view(keys@)[order@[k1] as int], keys_view(keys@)[order@[k2] as int]));
        }
    }
    r
}

/// The element `i` of `v`, if any.
pub open spec fn seq_at(v: Seq<u64>, i: int) -> Option<u64> {
    if 0 <= i < v.len() { Some(v[i]) } else { None }
}

/// The element `i` of an optional row.
pub open spec fn row_at(p: Option<Seq<u64>>, i: int) -> Option<u64> {
    match p {
        Some(p) => seq_at(p, i),
        None => None,
    }
}

/// `o`, or zero.
pub open spec fn or_zero(o: Option<u64>) -> u64 {
    match o {
        Some(x) => x,
        None => 0,
    }
}

/// The counting part of a network interface's figures.
pub struct NetCounts {
    pub name: String,
    pub rx_bytes: Option<u64>,
    pub tx_bytes: Option<u64>,
    pub rx_packets: Option<u64>,
    pub tx_packets: Option<u64>,
    pub rx_errors: u64,
    pub tx_errors: u64,
    pub rx_drops: u64,
    pub tx_drops: u64,
}

/// `r` holds the figures of the interface whose counters are `v` now and `p` before.
pub open spec fn net_counts_of(r: NetCounts, v: Seq<u64>, p: Option<Seq<u64>>) -> bool {
    &&& r.rx_bytes == growth(row_at(p, 0), seq_at(v, 0))
    &&& r.tx_bytes == growth(row_at(p, 8), seq_at(v, 8))
    &&& r.rx_packets == growth(row_at(p, 1), seq_at(v, 1))
    &&& r.tx_packets == growth(row_at(p, 9), seq_at(v, 9))
    &&& r.rx_errors == or_zero(seq_at(v, 2))
    &&& r.tx_errors == or_zero(seq_at(v, 10))
    &&& r.rx_drops == or_zero(seq_at(v, 3))
    &&& r.tx_drops == or_zero(seq_at(v, 11))
}

fn optional_row<'a>(e: &'a Vec<(String, Vec<u64>)>, name: &String) -> (r: Option<&'a Vec<u64>>)
    ensures
        match r {
            Some(row) => rows_table(e@).get(name@) == Some(row@),
            None => rows_table(e@).get(name@) is None,
        },
{
    match table_find(e, name) {
        Some(i) => Some(&e[i].1),
        None => None,
    }
}

fn growth_at(p: Option<&Vec<u64>>, v: &Vec<u64>, i: usize) -> (r: Option<u64>)
    ensures
        r == growth(
            row_at(
                match p {
                    Some(p) => Some(p@),
                    None => None::<Seq<u64>>,
                },
                i as int,
            ),
            seq_at(v@, i as int),
        ),
{
    let a = match p {
        Some(p) => at(p.as_slice(), i),
        None => None,
    };
    delta_count(a, at(v.as_slice(), i))
}

fn or_zero_at(v: &Vec<u64>, i: usize) -> (r: u64)
    ensures
        r == or_zero(seq_at(v@, i as int)),
{
    match at(v.as_slice(), i) {
        Some(x) => x,
        None => 0,
    }
}

/// `networks`, counting part: one record per interface of `now` but the loopback `lo`, by name.
pub fn networks(now: &Counters, prev: &Counters) -> (r: Vec<NetCounts>)
    requires
        now.wf(),
        prev.wf(),
    ensures
        forall|k1: int, k2: int| 0 <= k1 < k2 < r@.len() ==> key_lt(
            name_key(r@[k1].name@),
            name_key(r@[k2].name@),
        ),
        forall|k: int| 0 <= k < r@.len() ==> {
            &&& #[trigger] rows_table(now.net@).contains_key(r@[k].name@)
            &&& r@[k].name@ != seq!['l', 'o']
            &&& net_counts_of(r@[k], rows_table(now.net@)[r@[k].name@], rows_table(prev.net@).get(r@[k].name@))
        },
        forall|n: Seq<char>| #[trigger] rows_table(now.net@).contains_key(n) && n != seq!['l', 'o']
            ==> exists|k: int| 0 <= k < r@.len() && r@[k].name@ == n,
{
    let lo = vec!['l', 'o'];
    let mut pick: Vec<usize> = Vec::new();
    let mut j: usize = 0;
    while j < now.net.len()
        invariant
            j <= now.net@.len(),
            lo@ == seq!['l', 'o'],
            forall|q: int| 0 <= q < pick@.len() ==> #[trigger] pick@[q] < j,
            forall|a: int, b: int| 0 <= a < b < pick@.len() ==> pick@[a] < pick@[b],
            forall|q: int| 0 <= q < pick@.len() ==> now.net@[#[trigger] pick@[q] as int].0@ != seq!['l', 'o'],
            forall|i: int| 0 <= i < j && now.net@[i].0@ != seq!['l', 'o'] ==> #[trigger] lists(pick@, i),
        decreases now.net@.len() - j,
    {
        let c = chars_of(now.net[j].0.as_str());
        if !chars_eq(c.as_slice(), lo.as_slice()) {
            let ghost old_pick = pick@;
            pick.push(j);
            proof {
                assert forall|i: int| 0 <= i < j + 1 && now.net@[i].0@ != seq!['l', 'o'] implies #[trigger] lists(pick@, i) by {
                    if i == j {
                        assert(pick@[old_pick.len() as int] == i);
                    } else {
                        assert(lists(old_pick, i));
                        let m = choose|m: int| 0 <= m < old_pick.len() && old_pick[m] == i;
                        assert(pick@[m] == i);
                    }
                }
            }
        }
        j = j + 1;
    }
    let order = order_names(&now.net, &pick);
    let mut r: Vec<NetCounts> = Vec::new();
    let mut k: usize = 0;
    proof { lemma_table_entries(now.net@); }
    while k < order.len()
        invariant
            now.wf(),
            prev.wf(),
            k <= order@.len(),
            r@.len() == k,
            order@.len() == pick@.len(),
            forall|q: int| 0 <= q < order@.len() ==> #[trigger] lists(pick@, order@[q] as int),
            forall|q: int| 0 <= q < pick@.len() ==> #[trigger] pick@[q] < now.net@.len(),
            forall|q: int| 0 <= q < pick@.len() ==> now.net@[#[trigger] pick@[q] as int].0@ != seq!['l', 'o'],
            forall|i: int| 0 <= i < now.net@.len() ==> #[trigger] table_view(now.net@).contains_key(now.net@[i].0@)
                && table_view(now.net@)[now.net@[i].0@] == now.net@[i].1,
            forall|q: int| 0 <= q < k ==> #[trigger] r@[q].name@ == now.net@[order@[q] as int].0@,
            forall|q: int| 0 <= q < k ==> {
                &&& #[trigger] rows_table(now.net@).contains_key(r@[q].name@)
                &&& r@[q].name@ != seq!['l', 'o']
                &&& net_counts_of(r@[q], rows_table(now.net@)[r@[q].name@], rows_table(prev.net@).get(r@[q].name@))
            },
        decreases order@.len() - k,
    {
        let e = order[k];
        proof {
            assert(lists(pick@, e as int));
            let m = choose|m: int| 0 <= m < pick@.len() && pick@[m] == e as int;
            assert(pick@[m] < now.net@.len());
            assert(now.net@[pick@[m] as int].0@ != seq!['l', 'o']);
        }
        let name = &now.net[e].0;
        let v = &now.net[e].1;
        let p = optional_row(&prev.net, name);
        let rec = NetCounts {
            name: name.clone(),
            rx_bytes: growth_at(p, v, 0),
            tx_bytes: growth_at(p, v, 8),
            rx_packets: growth_at(p, v, 1),
            tx_packets: growth_at(p, v, 9),
            rx_errors: or_zero_at(v, 2),
            tx_errors: or_zero_at(v, 10),
            rx_drops: or_zero_at(v, 3),
            tx_drops: or_zero_at(v, 11),
        };
        proof {
            assert(table_view(now.net@).contains_key(now.net@[e as int].0@));
            assert(rows_table(now.net@)[name@] == v@);
        }
        r.push(rec);
        k = k + 1;
    }
    proof {
        assert forall|n: Seq<char>| #[trigger] rows_table(now.net@).contains_key(n) && n != seq!['l', 'o']
            implies exists|k: int| 0 <= k < r@.len() && r@[k].name@ == n by {
            assert(table_view(now.net@).contains_key(n));
            let i = choose|i: int| 0 <= i < now.net@.len() && now.net@[i].0@ == n;
            assert(lists(pick@, i));
            let m = choose|m: int| 0 <= m < pick@.len() && pick@[m] == i;
            assert(lists(order@, pick@[m] as int));
            let q = choose|q: int| 0 <= q < order@.len() && order@[q] == pick@[m];
            assert(r@[q].name@ == n);
        }
    }
    r
}


/// The counting part of a block device's figures: the growth of its read, write and busy
/// counters between two snapshots.
pub struct BlockCounts {
    pub name: String,
    pub reads: Option<u64>,
    pub read_sectors: Option<u64>,
    pub read_ms: Option<u64>,
    pub writes: Option<u64>,
    pub write_sectors: Option<u64>,
    pub write_ms: Option<u64>,
    pub busy_ms: Option<u64>,
    pub queue_ms: Option<u64>,
}

/// `r` holds the figures of the device whose counters are `v` now and `p` before.
pub open spec fn block_counts_of(r: BlockCounts, v: Seq<u64>, p: Seq<u64>) -> bool {
    &&& r.reads == growth(seq_at(p, 0), seq_at(v, 0))
    &&& r.read_sectors == growth(seq_at(p, 2), seq_at(v, 2))
    &&& r.read_ms == growth(seq_at(p, 3), seq_at(v, 3))
    &&& r.writes == growth(seq_at(p, 4), seq_at(v, 4))
    &&& r.write_sectors == growth(seq_at(p, 6), seq_at(v, 6))
    &&& r.write_ms == growth(seq_at(p, 7), seq_at(v, 7))
    &&& r.busy_ms == growth(seq_at(p, 9), seq_at(v, 9))
    &&& r.queue_ms == growth(seq_at(p, 10), seq_at(v, 10))
}

/// `n` is one of `names`.
pub open spec fn named_in(names: Seq<String>, n: Seq<char>) -> bool {
    exists|i: int| 0 <= i < names.len() && names[i]@ == n
}

fn is_named_in(names: &Vec<String>, n: &String) -> (r: bool)
    ensures
        r == named_in(names@, n@),
{
    let mut i: usize = 0;
    while i < names.len()
        invariant
            i <= names@.len(),
            forall|q: int| 0 <= q < i ==> names@[q]@ != n@,
        decreases names@.len() - i,
    {
        if names[i] == *n {
            return true;
        }
        i = i + 1;
    }
    false
}

/// `blocks`, counting part: one record per device of `now` that `devices` names (the devices
/// that the system lists as block devices) and that `prev` knows too, by name.
pub fn blocks(now: &Counters, prev: &Counters, devices: &Vec<String>) -> (r: Vec<BlockCounts>)
    requires
        now.wf(),
        prev.wf(),
    ensures
        forall|k1: int, k2: int| 0 <= k1 < k2 < r@.len() ==> key_lt(
            name_key(r@[k1].name@),
            name_key(r@[k2].name@),
        ),
        forall|k: int| 0 <= k < r@.len() ==> {
            &&& #[trigger] rows_table(now.disk@).contains_key(r@[k].name@)
            &&& rows_table(prev.disk@).contains_key(r@[k].name@)
            &&& named_in(devices@, r@[k].name@)
            &&& block_counts_of(r@[k], rows_table(now.disk@)[r@[k].name@], rows_table(prev.disk@)[r@[k].name@])
        },
        forall|n: Seq<char>| #[trigger] rows_table(now.disk@).contains_key(n)
            && rows_table(prev.disk@).contains_key(n) && named_in(devices@, n)
            ==> exists|k: int| 0 <= k < r@.len() && r@[k].name@ == n,
{
    let mut pick: Vec<usize> = Vec::new();
    let mut j: usize = 0;
    proof { lemma_table_entries(now.disk@); }
    while j < now.disk.len()
        invariant
            j <= now.disk@.len(),
            forall|q: int| 0 <= q < pick@.len() ==> #[trigger] pick@[q] < j,
            forall|a: int, b: int| 0 <= a < b < pick@.len() ==> pick@[a] < pick@[b],
            forall|q: int| 0 <= q < pick@.len() ==> named_in(devices@, now.disk@[#[trigger] pick@[q] as int].0@)
                && rows_table(prev.disk@).contains_key(now.disk@[pick@[q] as int].0@),
            forall|i: int| 0 <= i < j && named_in(devices@, now.disk@[i].0@)
                && rows_table(prev.disk@).contains_key(now.disk@[i].0@) ==> #[trigger] lists(pick@, i),
        decreases now.disk@.len() - j,
    {
        let name = &now.disk[j].0;
        let known = match table_find(&prev.disk, name) {
            Some(_) => true,
            None => false,
        };
        if known && is_named_in(devices, name) {
            let ghost old_pick = pick@;
            pick.push(j);
            proof {
                assert forall|i: int| 0 <= i < j + 1 && named_in(devices@, now.disk@[i].0@)
                    && rows_table(prev.disk@).contains_key(now.disk@[i].0@) implies #[trigger] lists(pick@, i) by {
                    if i == j {
                        assert(pick@[old_pick.len() as int] == i);
                    } else {
                        assert(lists(old_pick, i));
                        let m = choose|m: int| 0 <= m < old_pick.len() && old_pick[m] == i;
                        assert(pick@[m] == i);
                    }
                }
            }
        }
        j = j + 1;
    }
    let order = order_names(&now.disk, &pick);
    let mut r: Vec<BlockCounts> = Vec::new();
    let mut k: usize = 0;
    while k < order.len()
        invariant
            now.wf(),
            prev.wf(),
            k <= order@.len(),
            r@.len() == k,
            order@.len() == pick@.len(),
            forall|q: int| 0 <= q < order@.len() ==> #[trigger] lists(pick@, order@[q] as int),
            forall|q: int| 0 <= q < pick@.len() ==> #[trigger] pick@[q] < now.disk@.len(),
            forall|q: int| 0 <= q < pick@.len() ==> named_in(devices@, now.disk@[#[trigger] pick@[q] as int].0@)
                && rows_table(prev.disk@).contains_key(now.disk@[pick@[q] as int].0@),
            forall|i: int| 0 <= i < now.disk@.len() ==> #[trigger] table_view(now.disk@).contains_key(now.disk@[i].0@)
                && table_view(now.disk@)[now.disk@[i].0@] == now.disk@[i].1,
            forall|q: int| 0 <= q < k ==> #[trigger] r@[q].name@ == now.disk@[order@[q] as int].0@,
            forall|q: int| 0 <= q < k ==> {
                &&& #[trigger] rows_table(now.disk@).contains_key(r@[q].name@)
                &&& rows_table(prev.disk@).contains_key(r@[q].name@)
                &&& named_in(devices@, r@[q].name@)
                &&& block_counts_of(r@[q], rows_table(now.disk@)[r@[q].name@], rows_table(prev.disk@)[r@[q].name@])
            },
        decreases order@.len() - k,
    {
        let e = order[k];
        proof {
            assert(lists(pick@, e as int));
            let m = choose|m: int| 0 <= m < pick@.len() && pick@[m] == e as int;
            assert(pick@[m] < now.disk@.len());
            assert(named_in(devices@, now.disk@[pick@[m] as int].0@));
        }
        let name = &now.disk[e].0;
        let v = &now.disk[e].1;
        let p = match optional_row(&prev.disk, name) {
            Some(p) => p,
            None => {
                assert(false);
                v
            },
        };
        let rec = BlockCounts {
            name: name.clone(),
            reads: delta_count(at(p.as_slice(), 0), at(v.as_slice(), 0)),
            read_sectors: delta_count(at(p.as_slice(), 2), at(v.as_slice(), 2)),
            read_ms: delta_count(at(p.as_slice(), 3), at(v.as_slice(), 3)),
            writes: delta_count(at(p.as_slice(), 4), at(v.as_slice(), 4)),
            write_sectors: delta_count(at(p.as_slice(), 6), at(v.as_slice(), 6)),
            write_ms: delta_count(at(p.as_slice(), 7), at(v.as_slice(), 7)),
            busy_ms: delta_count(at(p.as_slice(), 9), at(v.as_slice(), 9)),
            queue_ms: delta_count(at(p.as_slice(), 10), at(v.as_slice(), 10)),
        };
        proof {
            assert(table_view(now.disk@).contains_key(now.disk@[e as int].0@));
            assert(rows_table(now.disk@)[name@] == v@);
        }
        r.push(rec);
        k = k + 1;
    }
    proof {
        assert forall|n: Seq<char>| #[trigger] rows_table(now.disk@).contains_key(n)
            && rows_table(prev.disk@).contains_key(n) && named_in(devices@, n)
            implies exists|k: int| 0 <= k < r@.len() && r@[k].name@ == n by {
            assert(table_view(now.disk@).contains_key(n));
            let i = choose|i: int| 0 <= i < now.disk@.len() && now.disk@[i].0@ == n;
            assert(lists(pick@, i));
            let m = choose|m: int| 0 <= m < pick@.len() && pick@[m] == i;
            assert(lists(order@, pick@[m] as int));
            let q = choose|q: int| 0 <= q < order@.len() && order@[q] == pick@[m];
            assert(r@[q].name@ == n);
        }
    }
    r
}


/// The sum of `v`.
pub open spec fn total(v: Seq<u64>) -> int
    decreases v.len(),
{
    if v.len() == 0 { 0 } else { total(v.drop_last()) + v.last() }
}

proof fn lemma_total_prefix(v: Seq<u64>, i: int)
    requires
        0 <= i <= v.len(),
    ensures
        total(v.take(i)) <= total(v),
    decreases v.len(),
{
    if i < v.len() {
        assert(v.drop_last().take(i) =~= v.take(i));
        lemma_total_prefix(v.drop_last(), i);
    } else {
        assert(v.take(i) =~= v);
    }
}

/// The sum of `v`, which the caller knows to fit a `u64`.
pub fn sum_ticks(v: &[u64]) -> (r: u64)
    requires
        total(v@) <= u64::MAX,
    ensures
        r == total(v@),
{
    let mut acc: u64 = 0;
    let mut i: usize = 0;
    assert(v@.take(0) =~= Seq::<u64>::empty());
    while i < v.len()
        invariant
            i <= v@.len(),
            total(v@) <= u64::MAX,
            acc == total(v@.take(i as int)),
        decreases v@.len() - i,
    {
        assert(v@.take(i + 1).drop_last() =~= v@.take(i as int));
        proof { lemma_total_prefix(v@, i + 1); }
        acc = acc + v[i];
        i = i + 1;
    }
    assert(v@.take(v@.len() as int) =~= v@);
    acc
}

/// The sum of `v`, when it fits a `u64`.
pub fn checked_total(v: &[u64]) -> (r: Option<u64>)
    ensures
        r == (if total(v@) <= u64::MAX { Some(total(v@) as u64) } else { None::<u64> }),
{
    let mut acc: u64 = 0;
    let mut i: usize = 0;
    assert(v@.take(0) =~= Seq::<u64>::empty());
    while i < v.len()
        invariant
            i <= v@.len(),
            acc == total(v@.take(i as int)),
        decreases v@.len() - i,
    {
        assert(v@.take(i + 1).drop_last() =~= v@.take(i as int));
        match acc.checked_add(v[i]) {
            Some(x) => {
                acc = x;
            },
            None => {
                proof { lemma_total_prefix(v@, i + 1); }
                return None;
            },
        }
        i = i + 1;
    }
    assert(v@.take(v@.len() as int) =~= v@);
    Some(acc)
}

/// `a + b`, capped at `u64::MAX`.
pub open spec fn sat_add(a: u64, b: u64) -> u64 {
    if a + b <= u64::MAX { (a + b) as u64 } else { u64::MAX }
}

/// `a - b`, floored at zero.
pub open spec fn sat_sub(a: u64, b: u64) -> u64 {
    if a >= b { (a - b) as u64 } else { 0 }
}

/// Idle ticks of a processor row: idle plus iowait, when idle is known.
pub open spec fn idle_of(v: Seq<u64>) -> Option<u64> {
    match seq_at(v, 3) {
        Some(idle) => Some(sat_add(idle, or_zero(seq_at(v, 4)))),
        None => None,
    }
}

/// The ticks behind the busy share of a processor between two rows `a` (before) and `b`:
/// `(idle growth, total growth)`; none when the total did not grow or idle is unknown.
pub open spec fn usage_ticks_of(a: Seq<u64>, b: Seq<u64>) -> Option<(u64, u64)> {
    if total(b) < total(a) || total(b) == total(a) {
        None
    } else {
        match (idle_of(a), idle_of(b)) {
            (Some(ia), Some(ib)) => Some((sat_sub(ib, ia), (total(b) - total(a)) as u64)),
            _ => None,
        }
    }
}

/// The counting part of `cpu_usage`.
pub fn cpu_usage_ticks(a: &[u64], b: &[u64]) -> (r: Option<(u64, u64)>)
    requires
        total(a@) <= u64::MAX,
        total(b@) <= u64::MAX,
    ensures
        r == usage_ticks_of(a@, b@),
{
    let total_a = sum_ticks(a);
    let total_b = sum_ticks(b);
    if total_b <= total_a {
        return None;
    }
    let dt = total_b - total_a;
    let ia = match at(a, 3) {
        Some(x) => x.saturating_add(match at(a, 4) { Some(y) => y, None => 0 }),
        None => { return None; },
    };
    let ib = match at(b, 3) {
        Some(x) => x.saturating_add(match at(b, 4) { Some(y) => y, None => 0 }),
        None => { return None; },
    };
    Some((ib.saturating_sub(ia), dt))
}

/// The growth of each of the first eight tick counters (user, nice, system, idle, iowait, irq,
/// softirq, steal) from row `a` to row `b`, and the growth of their total, floored at zero.
pub open spec fn state_ticks_of(a: Seq<u64>, b: Seq<u64>) -> (u64, Seq<Option<u64>>) {
    (
        sat_sub(total(b) as u64, total(a) as u64),
        Seq::new(8, |i: int| growth(seq_at(a, i), seq_at(b, i))),
    )
}

/// The counting part of the processor-state shares.
pub fn cpu_state_ticks(a: &[u64], b: &[u64]) -> (r: (u64, Vec<Option<u64>>))
    requires
        total(a@) <= u64::MAX,
        total(b@) <= u64::MAX,
    ensures
        r.0 == state_ticks_of(a@, b@).0,
        r.1@ == state_ticks_of(a@, b@).1,
{
    let dt = sum_ticks(b).saturating_sub(sum_ticks(a));
    let mut d: Vec<Option<u64>> = Vec::new();
    let mut i: usize = 0;
    while i < 8
        invariant
            i <= 8,
            d@ == Seq::new(i as nat, |q: int| growth(seq_at(a@, q), seq_at(b@, q))),
        decreases 8 - i,
    {
        d.push(delta_count(at(a, i), at(b, i)));
        assert(d@ =~= Seq::new((i + 1) as nat, |q: int| growth(seq_at(a@, q), seq_at(b@, q))));
        i = i + 1;
    }
    assert(d@ =~= state_ticks_of(a@, b@).1);
    (dt, d)
}

/// `cpu_clocks`: each processor's scaling frequency, read in kHz, in MHz.
pub fn cpu_clocks(khz: &Vec<Option<u64>>) -> (r: Vec<Option<u64>>)
    ensures
        r@.len() == khz@.len(),
        forall|i: int| 0 <= i < khz@.len() ==> #[trigger] r@[i] == match khz@[i] {
            Some(v) => Some((v / 1000) as u64),
            None => None::<u64>,
        },
{
    let mut r: Vec<Option<u64>> = Vec::new();
    let mut i: usize = 0;
    while i < khz.len()
        invariant
            i <= khz@.len(),
            r@.len() == i,
            forall|q: int| 0 <= q < i ==> #[trigger] r@[q] == match khz@[q] {
                Some(v) => Some((v / 1000) as u64),
                None => None::<u64>,
            },
        decreases khz@.len() - i,
    {
        r.push(match khz[i] {
            Some(v) => Some(v / 1000),
            None => None,
        });
        i = i + 1;
    }
    r
}

/// The first line of `ls` that names the processor model.
pub open spec fn model_line(ls: Seq<Seq<char>>) -> Option<Seq<char>>
    decreases ls.len(),
{
    if ls.len() == 0 {
        None
    } else if starts_with(ls[0], "model name"@) || starts_with(ls[0], "Hardware"@) {
        Some(ls[0])
    } else {
        model_line(ls.drop_first())
    }
}

/// The processor model that `/proc/cpuinfo` names, `CPU` when it names none.
pub open spec fn cpu_model_of(ls: Seq<Seq<char>>) -> Seq<char> {
    match model_line(ls) {
        Some(l) => match split_once(l, ':') {
            Some((_, v)) => trim(v),
            None => "CPU"@,
        },
        None => "CPU"@,
    }
}

/// `cpu_model`, from the text of `/proc/cpuinfo`.
pub fn cpu_model(cpuinfo: &str) -> (r: String)
    ensures
        r@ == cpu_model_of(file_lines(cpuinfo@)),
{
    let ls = lines_of_file(cpuinfo);
    let ghost lv = file_lines(cpuinfo@);
    let model = chars_of("model name");
    let hardware = chars_of("Hardware");
    let mut i: usize = 0;
    assert(lv.skip(0) =~= lv);
    while i < ls.len()
        invariant
            views(ls@) == lv,
            lv == file_lines(cpuinfo@),
            model@ == "model name"@,
            hardware@ == "Hardware"@,
            i <= ls@.len(),
            model_line(lv) == model_line(lv.skip(i as int)),
        decreases ls@.len() - i,
    {
        let ghost rest = lv.skip(i as int);
        assert(rest[0] == ls@[i as int]@);
        if has_prefix(ls[i].as_slice(), model.as_slice()) || has_prefix(ls[i].as_slice(), hardware.as_slice()) {
            assert(rest.len() > 0);
            assert(model_line(rest) == Some(rest[0]));
            let sp = split_once_char(ls[i].as_slice(), ':');
            match sp {
                Some((a, v)) => {
                    let t = trim_ws(v.as_slice());
                    let r = string_of(t.as_slice());
                    assert(split_once(rest[0], ':') == Some((a@, v@)));
                    return r;
                },
                None => {
                    return "CPU".to_owned();
                },
            }
        }
        assert(rest.drop_first() =~= lv.skip(i + 1));
        i = i + 1;
    }
    assert(lv.skip(ls@.len() as int) =~= Seq::<Seq<char>>::empty());
    "CPU".to_owned()
}

/// The file systems that the monitor reports on.
pub open spec fn is_reported_fs(k: Seq<char>) -> bool {
    ||| k == "ext4"@
    ||| k == "btrfs"@
    ||| k == "xfs"@
    ||| k == "vfat"@
    ||| k == "exfat"@
    ||| k == "ntfs"@
    ||| k == "f2fs"@
    ||| k == "zfs"@
}

fn reported_fs(k: &[char]) -> (r: bool)
    ensures
        r == is_reported_fs(k@),
{
    chars_eq(k, chars_of("ext4").as_slice()) || chars_eq(k, chars_of("btrfs").as_slice())
        || chars_eq(k, chars_of("xfs").as_slice()) || chars_eq(k, chars_of("vfat").as_slice())
        || chars_eq(k, chars_of("exfat").as_slice()) || chars_eq(k, chars_of("ntfs").as_slice())
        || chars_eq(k, chars_of("f2fs").as_slice()) || chars_eq(k, chars_of("zfs").as_slice())
}

/// A mounted file system that the monitor reports on.
pub struct Mount {
    pub mount: String,
    pub source: String,
    pub kind: String,
}

/// A line of `/proc/self/mounts` that names a reported file system: its mount point (with
/// `\040` read as a space), its source and its type.
pub open spec fn mount_entry(l: Seq<char>) -> Option<(Seq<char>, Seq<char>, Seq<char>)> {
    let p = words(l);
    if p.len() < 3 || !is_reported_fs(p[2]) {
        None
    } else {
        Some((replace_all(p[1], "\\040"@, " "@), p[0], p[2]))
    }
}

/// The mounts that the lines `ls` describe, in order.
pub open spec fn mounts_of(ls: Seq<Seq<char>>) -> Seq<(Seq<char>, Seq<char>, Seq<char>)>
    decreases ls.len(),
{
    if ls.len() == 0 {
        seq![]
    } else {
        let r = mounts_of(ls.drop_last());
        match mount_entry(ls.last()) {
            Some(m) => r.push(m),
            None => r,
        }
    }
}

/// The view of a mount.
pub open spec fn mount_view(m: Mount) -> (Seq<char>, Seq<char>, Seq<char>) {
    (m.mount@, m.source@, m.kind@)
}

/// `mounted`, parsing part: the mounts of reported file systems in `/proc/self/mounts`.
pub fn mounted(mounts: &str) -> (r: Vec<Mount>)
    ensures
        r@.map_values(|m: Mount| mount_view(m)) == mounts_of(file_lines(mounts@)),
{
    let ls = lines_of_file(mounts);
    let ghost lv = file_lines(mounts@);
    let pat = chars_of("\\040");
    let rep = chars_of(" ");
    proof { reveal_strlit("\\040"); }
    let mut r: Vec<Mount> = Vec::new();
    let mut i: usize = 0;
    assert(lv.take(0) =~= Seq::<Seq<char>>::empty());
    assert(r@.map_values(|m: Mount| mount_view(m)) =~= Seq::<(Seq<char>, Seq<char>, Seq<char>)>::empty());
    while i < ls.len()
        invariant
            views(ls@) == lv,
            pat@ == "\\040"@,
            pat@.len() > 0,
            rep@ == " "@,
            i <= ls@.len(),
            r@.map_values(|m: Mount| mount_view(m)) == mounts_of(lv.take(i as int)),
        decreases ls@.len() - i,
    {
        let ghost pre = lv.take(i + 1);
        assert(pre.drop_last() =~= lv.take(i as int));
        assert(pre.last() == ls@[i as int]@);
        let p = split_words(ls[i].as_slice());
        if p.len() >= 3 && reported_fs(p[2].as_slice()) {
            let mount = replace_chars(p[1].as_slice(), pat.as_slice(), rep.as_slice());
            let m = Mount {
                mount: string_of(mount.as_slice()),
                source: string_of(p[0].as_slice()),
                kind: string_of(p[2].as_slice()),
            };
            let ghost old_r = r@;
            r.push(m);
            assert(r@.map_values(|m: Mount| mount_view(m)) =~= old_r.map_values(|m: Mount| mount_view(m)).push(mount_view(m)));
        }
        i = i + 1;
    }
    assert(lv.take(ls@.len() as int) =~= lv);
    r
}

/// `x * y`, capped at `u64::MAX`.
pub open spec fn sat_mul(x: u64, y: u64) -> u64 {
    if x * y <= u64::MAX { (x * y) as u64 } else { u64::MAX }
}

fn capped_mul(x: u64, y: u64) -> (r: u64)
    ensures
        r == sat_mul(x, y),
{
    match x.checked_mul(y) {
        Some(v) => v,
        None => u64::MAX,
    }
}

/// The space figures of `filesystem`, from a `statvfs` reading: total, used and available
/// bytes, each product capped at `u64::MAX`.
pub fn filesystem_space(blocks: u64, bfree: u64, bavail: u64, frsize: u64) -> (r: (u64, u64, u64))
    ensures
        r.0 == sat_mul(blocks, frsize),
        r.1 == sat_sub(sat_mul(blocks, frsize), sat_mul(bfree, frsize)),
        r.2 == sat_mul(bavail, frsize),
{
    let total = capped_mul(blocks, frsize);
    let free = capped_mul(bfree, frsize);
    let avail = capped_mul(bavail, frsize);
    (total, total.saturating_sub(free), avail)
}


/// The first line of `ls` that starts with `p`.
pub open spec fn first_line_with(ls: Seq<Seq<char>>, p: Seq<char>) -> Option<Seq<char>>
    decreases ls.len(),
{
    if ls.len() == 0 {
        None
    } else if starts_with(ls[0], p) {
        Some(ls[0])
    } else {
        first_line_with(ls.drop_first(), p)
    }
}

fn find_line(ls: &Vec<Vec<char>>, p: &[char]) -> (r: Option<usize>)
    ensures
        match r {
            Some(i) => i < ls@.len() && first_line_with(views(ls@), p@) == Some(ls@[i as int]@)
                && starts_with(ls@[i as int]@, p@),
            None => first_line_with(views(ls@), p@) is None,
        },
{
    let ghost lv = views(ls@);
    let mut i: usize = 0;
    assert(lv.skip(0) =~= lv);
    while i < ls.len()
        invariant
            lv == views(ls@),
            i <= ls@.len(),
            first_line_with(lv, p@) == first_line_with(lv.skip(i as int), p@),
        decreases ls@.len() - i,
    {
        let ghost rest = lv.skip(i as int);
        assert(rest[0] == ls@[i as int]@);
        if has_prefix(ls[i].as_slice(), p) {
            return Some(i);
        }
        assert(rest.drop_first() =~= lv.skip(i + 1));
        i = i + 1;
    }
    assert(lv.skip(ls@.len() as int) =~= Seq::<Seq<char>>::empty());
    None
}

/// The distribution's name in `/etc/os-release`: the `PRETTY_NAME=` line's value without
/// surrounding quotes; empty when there is none.
pub open spec fn distro_of(ls: Seq<Seq<char>>) -> Seq<char> {
    match first_line_with(ls, "PRETTY_NAME="@) {
        Some(l) => trim_char(l.skip("PRETTY_NAME="@.len() as int), '"'),
        None => Seq::empty(),
    }
}

/// The task counts of `/proc/loadavg`: the fourth word reads `running/total`.
pub open spec fn task_counts_of(raw: Seq<char>) -> (Option<u64>, Option<u64>) {
    let parts = words(trim(raw));
    if parts.len() > 3 {
        let sp = split_on(parts[3], '/');
        (parse_u64(sp[0]), if sp.len() > 1 { parse_u64(sp[1]) } else { None })
    } else {
        (None, None)
    }
}

/// The counting figures of the system card.
pub struct SystemCounts {
    pub kernel: String,
    pub distro: String,
    pub running: Option<u64>,
    pub processes: Option<u64>,
    pub tcp_retransmits: Option<u64>,
    pub tcp_established: Option<u64>,
    pub forks: Option<u64>,
    pub blocked_processes: Option<u64>,
}

proof fn lemma_split_on_nonempty(s: Seq<char>, c: char)
    ensures
        split_on(s, c).len() >= 1,
{
    crate::text::lemma_pos_of(s, c);
}

/// `system`, counting part: from the texts of `/proc/loadavg`, `/etc/os-release`,
/// `/proc/net/snmp` and `/proc/sys/kernel/osrelease`, and two snapshots.
pub fn system(loadavg: &str, os_release: &str, snmp: &str, kernel: &str, now: &Counters, prev: &Counters) -> (r:
    SystemCounts)
    ensures
        r.kernel@ == trim(kernel@),
        r.distro@ == distro_of(file_lines(os_release@)),
        r.running == task_counts_of(loadavg@).0,
        r.processes == task_counts_of(loadavg@).1,
        r.tcp_retransmits == growth(prev.retrans, now.retrans),
        r.tcp_established == established_of(file_lines(snmp@)),
        r.forks == growth(Some(prev.forks), Some(now.forks)),
        r.blocked_processes == Some(now.blocked),
{
    let kc = chars_of(kernel);
    let kt = trim_ws(kc.as_slice());
    let ls = lines_of_file(os_release);
    let pretty = chars_of("PRETTY_NAME=");
    let distro = match find_line(&ls, pretty.as_slice()) {
        Some(i) => {
            let rest = slice_chars(ls[i].as_slice(), pretty.len(), ls[i].len());
            assert(rest@ =~= ls@[i as int]@.skip("PRETTY_NAME="@.len() as int));
            let t = trim_matching(rest.as_slice(), '"');
            string_of(t.as_slice())
        },
        None => String::new(),
    };
    let lc = chars_of(loadavg);
    let lt = trim_ws(lc.as_slice());
    let parts = split_words(lt.as_slice());
    let mut running: Option<u64> = None;
    let mut processes: Option<u64> = None;
    if parts.len() > 3 {
        let sp = split_char(parts[3].as_slice(), '/');
        proof { lemma_split_on_nonempty(parts@[3]@, '/'); }
        running = parse_u64_chars(sp[0].as_slice());
        if sp.len() > 1 {
            processes = parse_u64_chars(sp[1].as_slice());
        }
    }
    SystemCounts {
        kernel: string_of(kt.as_slice()),
        distro,
        running,
        processes,
        tcp_retransmits: delta_count(prev.retrans, now.retrans),
        tcp_established: parse_established(snmp),
        forks: delta_count(Some(prev.forks), Some(now.forks)),
        blocked_processes: Some(now.blocked),
    }
}

/// The first `n` words of a file's trimmed text.
pub fn leading_words(raw: &str, n: usize) -> (r: Vec<String>)
    ensures
        r@.len() == (if words(trim(raw@)).len() < n { words(trim(raw@)).len() } else { n as nat }),
        forall|i: int| 0 <= i < r@.len() ==> #[trigger] r@[i]@ == words(trim(raw@))[i],
{
    let c = chars_of(raw);
    let t = trim_ws(c.as_slice());
    let ws = split_words(t.as_slice());
    let mut r: Vec<String> = Vec::new();
    let mut i: usize = 0;
    while i < ws.len() && i < n
        invariant
            views(ws@) == words(trim(raw@)),
            i <= ws@.len(),
            i <= n,
            r@.len() == i,
            forall|q: int| 0 <= q < i ==> #[trigger] r@[q]@ == words(trim(raw@))[q],
        decreases n - i,
    {
        r.push(string_of(ws[i].as_slice()));
        i = i + 1;
    }
    r
}

/// The `avg10=` values of the `some` line of a pressure file, in order, without that prefix.
pub open spec fn psi_values_of(ls: Seq<Seq<char>>) -> Seq<Seq<char>> {
    match first_line_with(ls, "some "@) {
        Some(l) => prefixed_values(words(l), "avg10="@),
        None => seq![],
    }
}

/// The words of `ws` that start with `p`, without `p`, in order.
pub open spec fn prefixed_values(ws: Seq<Seq<char>>, p: Seq<char>) -> Seq<Seq<char>>
    decreases ws.len(),
{
    if ws.len() == 0 {
        seq![]
    } else {
        let r = prefixed_values(ws.drop_last(), p);
        match strip_prefix(ws.last(), p) {
            Some(v) => r.push(v),
            None => r,
        }
    }
}

/// `psi`, search part: the candidates for the ten-second pressure average, in the order in
/// which they are tried.
pub fn psi_candidates(raw: &str) -> (r: Vec<String>)
    ensures
        r@.map_values(|v: String| v@) == psi_values_of(file_lines(raw@)),
{
    let ls = lines_of_file(raw);
    let some = chars_of("some ");
    let avg = chars_of("avg10=");
    let mut r: Vec<String> = Vec::new();
    assert(r@.map_values(|v: String| v@) =~= Seq::<Seq<char>>::empty());
    match find_line(&ls, some.as_slice()) {
        Some(li) => {
            let ws = split_words(ls[li].as_slice());
            let ghost wv = views(ws@);
            let mut i: usize = 0;
            assert(wv.take(0) =~= Seq::<Seq<char>>::empty());
            while i < ws.len()
                invariant
                    wv == views(ws@),
                    avg@ == "avg10="@,
                    i <= ws@.len(),
                    r@.map_values(|v: String| v@) == prefixed_values(wv.take(i as int), "avg10="@),
                decreases ws@.len() - i,
            {
                assert(wv.take(i + 1).drop_last() =~= wv.take(i as int));
                assert(wv[i as int] == ws@[i as int]@);
                match without_prefix(ws[i].as_slice(), avg.as_slice()) {
                    Some(v) => {
                        let ghost old_r = r@;
                        let sv = string_of(v.as_slice());
                        r.push(sv);
                        assert(r@.map_values(|v: String| v@) =~= old_r.map_values(|v: String| v@).push(sv@));
                    },
                    None => {},
                }
                i = i + 1;
            }
            assert(wv.take(ws@.len() as int) =~= wv);
        },
        None => {},
    }
    r
}


/// A file's text as the monitor reads it: trimmed.
pub fn trimmed(raw: &str) -> (r: String)
    ensures
        r@ == trim(raw@),
{
    let c = chars_of(raw);
    let t = trim_ws(c.as_slice());
    string_of(t.as_slice())
}

/// `gpus`, matching part: a DRM entry is a card when its name is `card` followed by ASCII
/// digits (possibly none).
pub fn is_card_name(name: &str) -> (r: bool)
    ensures
        r == (starts_with(name@, "card"@) && all_digits(name@.skip(4))),
{
    let c = chars_of(name);
    let card = chars_of("card");
    proof { reveal_strlit("card"); }
    if !has_prefix(c.as_slice(), card.as_slice()) {
        return false;
    }
    let rest = slice_chars(c.as_slice(), 4, c.len());
    assert(rest@ =~= name@.skip(4));
    all_ascii_digits(rest.as_slice())
}

/// The kinds of power supply.
#[derive(Clone, Copy, PartialEq, Eq, Structural, Debug)]
pub enum SupplyKind {
    Mains,
    Battery,
    Other,
}

/// `batteries`, classifying part: a power supply's kind from its `type` file (none when
/// unreadable).
pub fn supply_kind(raw_type: Option<&str>) -> (k: SupplyKind)
    ensures
        k == (match raw_type {
            Some(t) => if trim(t@) == "Mains"@ {
                SupplyKind::Mains
            } else if trim(t@) == "Battery"@ {
                SupplyKind::Battery
            } else {
                SupplyKind::Other
            },
            None => SupplyKind::Other,
        }),
{
    match raw_type {
        Some(t) => {
            let c = chars_of(t);
            let tr = trim_ws(c.as_slice());
            if chars_eq(tr.as_slice(), chars_of("Mains").as_slice()) {
                SupplyKind::Mains
            } else if chars_eq(tr.as_slice(), chars_of("Battery").as_slice()) {
                SupplyKind::Battery
            } else {
                SupplyKind::Other
            }
        },
        None => SupplyKind::Other,
    }
}

/// `batteries`, mains part: whether the mains supply is online, from its `online` file.
pub fn ac_online(raw_online: Option<&str>) -> (r: Option<bool>)
    ensures
        r == (match raw_online {
            Some(t) => match parse_u64(trim(t@)) {
                Some(v) => Some(v != 0),
                None => None::<bool>,
            },
            None => None::<bool>,
        }),
{
    match raw_online {
        Some(t) => match num(t) {
            Some(v) => Some(v != 0),
            None => None,
        },
        None => None,
    }
}


/// The figures of a network interface are the columns of `/proc/net/dev` after its name:
/// received bytes and packets grow in columns 0 and 1, sent bytes and packets in columns 8 and
/// 9; receive errors and drops are columns 2 and 3, send errors and drops columns 10 and 11.
pub proof fn law_network_columns(r: NetCounts, v: Seq<u64>, p: Seq<u64>)
    requires
        net_counts_of(r, v, Some(p)),
        v.len() >= 12,
        p.len() >= 12,
        p[0] <= v[0],
        p[1] <= v[1],
        p[8] <= v[8],
        p[9] <= v[9],
    ensures
        r.rx_bytes == Some((v[0] - p[0]) as u64),
        r.rx_packets == Some((v[1] - p[1]) as u64),
        r.tx_bytes == Some((v[8] - p[8]) as u64),
        r.tx_packets == Some((v[9] - p[9]) as u64),
        r.rx_errors == v[2],
        r.rx_drops == v[3],
        r.tx_errors == v[10],
        r.tx_drops == v[11],
{
}

/// A counter that went backwards (a reset), or an interface not seen before, gives no growth.
pub proof fn law_network_no_growth(r: NetCounts, v: Seq<u64>, p: Option<Seq<u64>>)
    requires
        net_counts_of(r, v, p),
        v.len() >= 12,
    ensures
        p is None ==> r.rx_bytes is None && r.tx_bytes is None && r.rx_packets is None && r.tx_packets is None,
        p matches Some(q) && q.len() >= 12 && q[0] > v[0] ==> r.rx_bytes is None,
        p matches Some(q) && q.len() >= 12 && q[8] > v[8] ==> r.tx_bytes is None,
{
}

/// The figures of a disk are the fields of `/proc/diskstats` after its name: reads, sectors
/// read and milliseconds reading in fields 0, 2 and 3; writes, sectors written and
/// milliseconds writing in fields 4, 6 and 7; busy and weighted queue milliseconds in fields
/// 9 and 10; each as its growth between the two samples.
pub proof fn law_block_fields(r: BlockCounts, v: Seq<u64>, p: Seq<u64>)
    requires
        block_counts_of(r, v, p),
        v.len() >= 11,
        p.len() >= 11,
        forall|i: int| 0 <= i < 11 ==> p[i] <= v[i],
    ensures
        r.reads == Some((v[0] - p[0]) as u64),
        r.read_sectors == Some((v[2] - p[2]) as u64),
        r.read_ms == Some((v[3] - p[3]) as u64),
        r.writes == Some((v[4] - p[4]) as u64),
        r.write_sectors == Some((v[6] - p[6]) as u64),
        r.write_ms == Some((v[7] - p[7]) as u64),
        r.busy_ms == Some((v[9] - p[9]) as u64),
        r.queue_ms == Some((v[10] - p[10]) as u64),
{
    assert(p[0] <= v[0] && p[2] <= v[2] && p[3] <= v[3] && p[4] <= v[4]);
    assert(p[6] <= v[6] && p[7] <= v[7] && p[9] <= v[9] && p[10] <= v[10]);
}

} // verus!
