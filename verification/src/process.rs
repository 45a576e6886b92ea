//! Per-process figures: parsing of `/proc/<pid>/stat` and `/proc/self/status`, the growth of a
//! process's processor ticks between two scans, and the choice of the processes to list.
use std::collections::HashMap;
use vstd::prelude::*;
use crate::text::{
    chars_of, file_lines, lines, parse_u64, parse_u64_chars, parse_unsigned, parse_u32,
    rsplit_once, rsplit_once_chars, split_lines, split_once, split_once_char, split_words,
    string_of, strip_prefix, trim, trim_ws, views, without_prefix, words,
};
use crate::collector::{sat_add, sat_sub};
use crate::order::{is_sorted_order, key_lt, key_view, keys_distinct, keys_view, lists, sorted_order};

verus! {

broadcast use vstd::std_specs::hash::group_hash_axioms;

/// The number in `f[i]`, if there is such a word and it is a number.
pub open spec fn number_at(f: Seq<Seq<char>>, i: int) -> Option<u64> {
    if 0 <= i < f.len() { parse_u64(f[i]) } else { None }
}

fn number_at_exec(f: &Vec<Vec<char>>, i: usize) -> (r: Option<u64>)
    ensures
        r == number_at(views(f@), i as int),
{
    if i < f.len() { parse_u64_chars(f[i].as_slice()) } else { None }
}

/// `pid`: a process directory's name as a process id.
pub fn parse_pid(name: &str) -> (r: Option<u32>)
    ensures
        r == parse_u32(name@),
{
    let c = chars_of(name);
    match parse_unsigned(c.as_slice(), u32::MAX as u64) {
        Some(v) => Some(v as u32),
        None => None,
    }
}

/// What a process's `stat` line gives: its name, start time, processor ticks (user plus
/// system, capped) and resident pages.
pub struct ProcStat {
    pub name: String,
    pub start: u64,
    pub ticks: u64,
    pub rss_pages: u64,
}

/// The name between `(` and the last `) ` of a `stat` line; `?` when there is no `(`.
pub open spec fn proc_name_of(head: Seq<char>) -> Seq<char> {
    match split_once(head, '(') {
        Some((_, n)) => n,
        None => "?"@,
    }
}

/// A `stat` line split at its last `) `: the fields after it, counted from the process state,
/// give the start time (index 19), user and system ticks (11, 12) and resident pages (21).
pub open spec fn proc_stat_of(s: Seq<char>) -> Option<(Seq<char>, u64, u64, u64)> {
    match rsplit_once(s, ") "@) {
        Some((head, tail)) => {
            let f = words(tail);
            match (number_at(f, 19), number_at(f, 11), number_at(f, 12), number_at(f, 21)) {
                (Some(start), Some(user), Some(system), Some(rss)) => Some(
                    (proc_name_of(head), start, sat_add(user, system), rss),
                ),
                _ => None,
            }
        },
        None => None,
    }
}

fn capped_add(a: u64, b: u64) -> (r: u64)
    ensures
        r == sat_add(a, b),
{
    match a.checked_add(b) {
        Some(v) => v,
        None => u64::MAX,
    }
}

/// The parsing part of `top_processes` for one process, from its `stat` file's text.
pub fn proc_stat(raw: &str) -> (r: Option<ProcStat>)
    ensures
        match r {
            Some(p) => proc_stat_of(trim(raw@)) == Some((p.name@, p.start, p.ticks, p.rss_pages)),
            None => proc_stat_of(trim(raw@)) is None,
        },
{
    let c = chars_of(raw);
    let t = trim_ws(c.as_slice());
    let sep = chars_of(") ");
    match rsplit_once_chars(t.as_slice(), sep.as_slice()) {
        Some((head, tail)) => {
            let f = split_words(tail.as_slice());
            let start = number_at_exec(&f, 19);
            let user = number_at_exec(&f, 11);
            let system = number_at_exec(&f, 12);
            let rss = number_at_exec(&f, 21);
            match (start, user, system, rss) {
                (Some(start), Some(user), Some(system), Some(rss)) => {
                    let name = match split_once_char(head.as_slice(), '(') {
                        Some((_, n)) => string_of(n.as_slice()),
                        None => "?".to_owned(),
                    };
                    Some(ProcStat { name, start, ticks: capped_add(user, system), rss_pages: rss })
                },
                _ => None,
            }
        },
        None => None,
    }
}

/// The processor ticks (user plus system, capped) in the text of `/proc/self/stat`.
pub open spec fn self_ticks_of(s: Seq<char>) -> Option<u64> {
    match rsplit_once(s, ") "@) {
        Some((_, tail)) => match (number_at(words(tail), 11), number_at(words(tail), 12)) {
            (Some(user), Some(system)) => Some(sat_add(user, system)),
            _ => None,
        },
        None => None,
    }
}

/// `ProcessMeter::update`, parsing part for `/proc/self/stat`.
pub fn self_ticks(raw: &str) -> (r: Option<u64>)
    ensures
        r == self_ticks_of(raw@),
{
    let c = chars_of(raw);
    let sep = chars_of(") ");
    match rsplit_once_chars(c.as_slice(), sep.as_slice()) {
        Some((_, tail)) => {
            let f = split_words(tail.as_slice());
            match (number_at_exec(&f, 11), number_at_exec(&f, 12)) {
                (Some(user), Some(system)) => Some(capped_add(user, system)),
                _ => None,
            }
        },
        None => None,
    }
}

/// The thread count of `/proc/self/status`: the last `Threads:` line whose trimmed value is a
/// number.
pub open spec fn threads_of(ls: Seq<Seq<char>>) -> Option<u64>
    decreases ls.len(),
{
    if ls.len() == 0 {
        None
    } else {
        match strip_prefix(ls.last(), "Threads:"@) {
            Some(v) => match parse_u64(trim(v)) {
                Some(n) => Some(n),
                None => threads_of(ls.drop_last()),
            },
            None => threads_of(ls.drop_last()),
        }
    }
}

/// The first word after `VmRSS:` on each line that has that prefix, in order.
pub open spec fn rss_words_of(ls: Seq<Seq<char>>) -> Seq<Seq<char>>
    decreases ls.len(),
{
    if ls.len() == 0 {
        seq![]
    } else {
        let r = rss_words_of(ls.drop_last());
        match strip_prefix(ls.last(), "VmRSS:"@) {
            Some(v) => if words(v).len() > 0 { r.push(words(v)[0]) } else { r },
            None => r,
        }
    }
}

/// `ProcessMeter::update`, parsing part for `/proc/self/status`: the thread count, and the
/// resident-size words in the order in which they are read.
pub fn self_status(raw: &str) -> (r: (Option<u64>, Vec<String>))
    ensures
        r.0 == threads_of(lines(raw@)),
        r.1@.map_values(|v: String| v@) == rss_words_of(lines(raw@)),
{
    let c = chars_of(raw);
    let ls = split_lines(c.as_slice());
    let ghost lv = lines(raw@);
    let threads_p = chars_of("Threads:");
    let rss_p = chars_of("VmRSS:");
    let mut threads: Option<u64> = None;
    let mut rss: Vec<String> = Vec::new();
    let mut i: usize = 0;
    assert(lv.take(0) =~= Seq::<Seq<char>>::empty());
    assert(rss@.map_values(|v: String| v@) =~= Seq::<Seq<char>>::empty());
    while i < ls.len()
        invariant
            views(ls@) == lv,
            threads_p@ == "Threads:"@,
            rss_p@ == "VmRSS:"@,
            i <= ls@.len(),
            threads == threads_of(lv.take(i as int)),
            rss@.map_values(|v: String| v@) == rss_words_of(lv.take(i as int)),
        decreases ls@.len() - i,
    {
        let ghost pre = lv.take(i + 1);
        assert(pre.drop_last() =~= lv.take(i as int));
        assert(pre.last() == ls@[i as int]@);
        match without_prefix(ls[i].as_slice(), rss_p.as_slice()) {
            Some(v) => {
                let ws = split_words(v.as_slice());
                if ws.len() > 0 {
                    let ghost old_rss = rss@;
                    let w = string_of(ws[0].as_slice());
                    rss.push(w);
                    assert(rss@.map_values(|v: String| v@) =~= old_rss.map_values(|v: String| v@).push(w@));
                }
            },
            None => {},
        }
        match without_prefix(ls[i].as_slice(), threads_p.as_slice()) {
            Some(v) => {
                let t = trim_ws(v.as_slice());
                match parse_u64_chars(t.as_slice()) {
                    Some(n) => {
                        threads = Some(n);
                    },
                    None => {},
                }
            },
            None => {},
        }
        i = i + 1;
    }
    assert(lv.take(ls@.len() as int) =~= lv);
    (threads, rss)
}

/// How many ticks process `pid`, started at `start`, used since the previous scan: none when
/// the previous scan did not see it, or saw another process under that id.
pub open spec fn tick_growth_of(previous: Map<u32, (u64, u64)>, pid: u32, start: u64, ticks: u64) -> Option<u64> {
    match previous.get(pid) {
        Some((s, old)) => if s == start { Some(sat_sub(ticks, old)) } else { None },
        None => None,
    }
}

/// The counting part of a process's processor share.
pub fn tick_growth(previous: &HashMap<u32, (u64, u64)>, pid: u32, start: u64, ticks: u64) -> (r: Option<u64>)
    ensures
        r == tick_growth_of(previous@, pid, start, ticks),
{
    match previous.get(&pid) {
        Some(entry) => {
            let (s, old) = *entry;
            if s == start {
                Some(if ticks >= old { ticks - old } else { 0 })
            } else {
                None
            }
        },
        None => None,
    }
}



/// A scanned process as the ranking sees it: its id, the ticks it used since the previous
/// scan (zero when unknown) and its resident pages (zero when the page size is unknown).
#[derive(Clone, Copy)]
pub struct ProcRank {
    pub pid: u32,
    pub cpu_ticks: u64,
    pub rss_pages: u64,
}

/// Rank key of row `i` by processor use, then resident size, both descending, then by scan
/// order (the sort is stable).
pub open spec fn cpu_rank_key(r: ProcRank, i: int) -> Seq<int> {
    seq![-(r.cpu_ticks as int), -(r.rss_pages as int), i]
}

/// Rank key of row `i` by resident size descending, then by scan order.
pub open spec fn rss_rank_key(r: ProcRank, i: int) -> Seq<int> {
    seq![-(r.rss_pages as int), i]
}

pub open spec fn cpu_keys(rows: Seq<ProcRank>) -> Seq<Seq<int>> {
    Seq::new(rows.len(), |i: int| cpu_rank_key(rows[i], i))
}

pub open spec fn rss_keys(rows: Seq<ProcRank>) -> Seq<Seq<int>> {
    Seq::new(rows.len(), |i: int| rss_rank_key(rows[i], i))
}

/// The first eight of `s` (all of it when shorter).
pub open spec fn first8(s: Seq<usize>) -> Seq<usize> {
    if s.len() > 8 { s.take(8) } else { s }
}

/// Some row listed in `top` has process id `pid`.
pub open spec fn has_pid(rows: Seq<ProcRank>, top: Seq<usize>, pid: u32) -> bool {
    exists|k: int| 0 <= k < top.len() && rows[top[k] as int].pid == pid
}

/// `top` followed by each of `cands`, in order, whose process id is not yet listed.
pub open spec fn add_missing(rows: Seq<ProcRank>, top: Seq<usize>, cands: Seq<usize>) -> Seq<usize>
    decreases cands.len(),
{
    if cands.len() == 0 {
        top
    } else {
        let c = cands[0];
        let next = if has_pid(rows, top, rows[c as int].pid) { top } else { top.push(c) };
        add_missing(rows, next, cands.drop_first())
    }
}

/// The processes listed: the first eight by processor use, then those of the first eight by
/// resident size that are not listed yet.
pub open spec fn top_of(rows: Seq<ProcRank>, by_cpu: Seq<usize>, by_rss: Seq<usize>) -> Seq<usize> {
    add_missing(rows, first8(by_cpu), first8(by_rss))
}

fn rank_keys(rows: &Vec<ProcRank>, by_cpu: bool) -> (keys: Vec<Vec<i128>>)
    ensures
        keys_view(keys@) == (if by_cpu { cpu_keys(rows@) } else { rss_keys(rows@) }),
{
    let mut keys: Vec<Vec<i128>> = Vec::new();
    let mut i: usize = 0;
    while i < rows.len()
        invariant
            i <= rows@.len(),
            keys@.len() == i,
            forall|q: int| 0 <= q < i ==> #[trigger] keys_view(keys@)[q] == (if by_cpu {
                cpu_rank_key(rows@[q], q)
            } else {
                rss_rank_key(rows@[q], q)
            }),
        decreases rows@.len() - i,
    {
        let r = rows[i];
        let neg_cpu: i128 = -(r.cpu_ticks as i128);
        let neg_rss: i128 = -(r.rss_pages as i128);
        let idx: i128 = i as i128;
        let k = if by_cpu {
            vec![neg_cpu, neg_rss, idx]
        } else {
            vec![neg_rss, idx]
        };
        let ghost old_keys = keys@;
        keys.push(k);
        assert(keys_view(keys@) =~= keys_view(old_keys).push(key_view(k@)));
        assert(key_view(k@) =~= (if by_cpu { cpu_rank_key(rows@[i as int], i as int) } else {
            rss_rank_key(rows@[i as int], i as int)
        }));
        i = i + 1;
    }
    assert(keys_view(keys@) =~= (if by_cpu { cpu_keys(rows@) } else { rss_keys(rows@) }));
    keys
}

fn listed_pid(rows: &Vec<ProcRank>, top: &Vec<usize>, pid: u32) -> (r: bool)
    requires
        forall|k: int| 0 <= k < top@.len() ==> #[trigger] top@[k] < rows@.len(),
    ensures
        r == has_pid(rows@, top@, pid),
{
    let mut k: usize = 0;
    while k < top.len()
        invariant
            forall|q: int| 0 <= q < top@.len() ==> #[trigger] top@[q] < rows@.len(),
            k <= top@.len(),
            forall|q: int| 0 <= q < k ==> rows@[#[trigger] top@[q] as int].pid != pid,
        decreases top@.len() - k,
    {
        if rows[top[k]].pid == pid {
            return true;
        }
        k = k + 1;
    }
    false
}

fn first_eight(s: &Vec<usize>) -> (r: Vec<usize>)
    ensures
        r@ == first8(s@),
{
    let n = if s.len() > 8 { 8 } else { s.len() };
    let mut r: Vec<usize> = Vec::new();
    let mut i: usize = 0;
    while i < n
        invariant
            n <= s@.len(),
            n == (if s@.len() > 8 { 8 } else { s@.len() }),
            i <= n,
            r@ == s@.take(i as int),
        decreases n - i,
    {
        r.push(s[i]);
        assert(s@.take(i + 1) =~= s@.take(i as int).push(s@[i as int]));
        i = i + 1;
    }
    assert(s@.take(n as int) =~= first8(s@));
    r
}

proof fn lemma_rank_keys_distinct(rows: Seq<ProcRank>)
    ensures
        keys_distinct(cpu_keys(rows)),
        keys_distinct(rss_keys(rows)),
{
    assert forall|i: int, j: int| 0 <= i < j < cpu_keys(rows).len() implies cpu_keys(rows)[i] != cpu_keys(rows)[j] by {
        assert(cpu_keys(rows)[i][2] != cpu_keys(rows)[j][2]);
    }
    assert forall|i: int, j: int| 0 <= i < j < rss_keys(rows).len() implies rss_keys(rows)[i] != rss_keys(rows)[j] by {
        assert(rss_keys(rows)[i][1] != rss_keys(rows)[j][1]);
    }
}

/// `top_processes`, choice part: the rows to list, in order.
pub fn top_processes(rows: &Vec<ProcRank>) -> (r: Vec<usize>)
    ensures
        exists|by_cpu: Seq<usize>, by_rss: Seq<usize>| {
            &&& is_sorted_order(cpu_keys(rows@), by_cpu)
            &&& is_sorted_order(rss_keys(rows@), by_rss)
            &&& r@ == top_of(rows@, by_cpu, by_rss)
        },
{
    proof { lemma_rank_keys_distinct(rows@); }
    let ck = rank_keys(rows, true);
    let rk = rank_keys(rows, false);
    let by_cpu = sorted_order(&ck);
    let by_rss = sorted_order(&rk);
    let mut top = first_eight(&by_cpu);
    let cands = first_eight(&by_rss);
    let mut i: usize = 0;
    assert(cands@.skip(0) =~= cands@);
    while i < cands.len()
        invariant
            is_sorted_order(cpu_keys(rows@), by_cpu@),
            is_sorted_order(rss_keys(rows@), by_rss@),
            cands@ == first8(by_rss@),
            i <= cands@.len(),
            forall|k: int| 0 <= k < top@.len() ==> #[trigger] top@[k] < rows@.len(),
            forall|k: int| 0 <= k < cands@.len() ==> #[trigger] cands@[k] < rows@.len(),
            add_missing(rows@, top@, cands@.skip(i as int)) == top_of(rows@, by_cpu@, by_rss@),
        decreases cands@.len() - i,
    {
        let c = cands[i];
        let ghost rest = cands@.skip(i as int);
        assert(rest[0] == c);
        assert(rest.drop_first() =~= cands@.skip(i + 1));
        if !listed_pid(rows, &top, rows[c].pid) {
            top.push(c);
        }
        i = i + 1;
    }
    assert(cands@.skip(cands@.len() as int) =~= Seq::<usize>::empty());
    top
}


/// The figures of a `/proc` entry: its process id and its `stat` figures (name, start, ticks,
/// resident pages); none when the entry's name is not a process id, its `stat` file could not
/// be read, or the file does not parse.
pub open spec fn scan_entry(name: Seq<char>, stat: Option<Seq<char>>) -> Option<(u32, (Seq<char>, u64, u64, u64))> {
    match (parse_u32(name), stat) {
        (Some(pid), Some(t)) => match proc_stat_of(trim(t)) {
            Some(p) => Some((pid, p)),
            None => None,
        },
        _ => None,
    }
}

/// The text of an optional string.
pub open spec fn opt_text(t: Option<String>) -> Option<Seq<char>> {
    match t {
        Some(v) => Some(v@),
        None => None,
    }
}

/// The processes of a scan of `/proc`, in the order of its entries: each entry whose figures
/// parse, the others skipped.
pub open spec fn scanned(es: Seq<(String, Option<String>)>) -> Seq<(u32, (Seq<char>, u64, u64, u64))>
    decreases es.len(),
{
    if es.len() == 0 {
        seq![]
    } else {
        match scan_entry(es.last().0@, opt_text(es.last().1)) {
            Some(x) => scanned(es.drop_last()).push(x),
            None => scanned(es.drop_last()),
        }
    }
}

/// The table a scan leaves for the next one: each scanned process id mapped to its start time
/// and ticks (the later entry winning for a repeated id), and nothing else.
pub open spec fn scan_table(s: Seq<(u32, (Seq<char>, u64, u64, u64))>) -> Map<u32, (u64, u64)>
    decreases s.len(),
{
    if s.len() == 0 {
        Map::empty()
    } else {
        scan_table(s.drop_last()).insert(s.last().0, (s.last().1.1, s.last().1.2))
    }
}

/// A process found by a scan: its id, its `stat` figures, and the ticks it used since the
/// previous scan (none when that scan did not see it).
pub struct Scanned {
    pub pid: u32,
    pub stat: ProcStat,
    pub growth: Option<u64>,
}

/// A scanned process as a value: id and `stat` figures.
pub open spec fn scanned_view(p: Scanned) -> (u32, (Seq<char>, u64, u64, u64)) {
    (p.pid, (p.stat.name@, p.stat.start, p.stat.ticks, p.stat.rss_pages))
}

/// The table of a scan holds exactly the scanned process ids: those of vanished processes are
/// dropped.
pub proof fn law_scan_table_holds_scanned(s: Seq<(u32, (Seq<char>, u64, u64, u64))>, pid: u32)
    ensures
        scan_table(s).contains_key(pid) <==> exists|i: int| 0 <= i < s.len() && (#[trigger] s[i]).0 == pid,
    decreases s.len(),
{
    if s.len() > 0 {
        let t = s.drop_last();
        law_scan_table_holds_scanned(t, pid);
        if s.last().0 == pid {
            assert(s[s.len() - 1].0 == pid);
        } else if scan_table(s).contains_key(pid) {
            let i = choose|i: int| 0 <= i < t.len() && (#[trigger] t[i]).0 == pid;
            assert(s[i] == t[i]);
        } else {
            assert forall|i: int| 0 <= i < s.len() implies (#[trigger] s[i]).0 != pid by {
                if i < t.len() {
                    assert(s[i] == t[i]);
                }
            }
        }
    }
}

/// A scanned process id maps to the start time and ticks of its last entry in the scan.
pub proof fn law_scan_table_keeps_last(s: Seq<(u32, (Seq<char>, u64, u64, u64))>, i: int)
    requires
        0 <= i < s.len(),
        forall|j: int| i < j < s.len() ==> (#[trigger] s[j]).0 != s[i].0,
    ensures
        scan_table(s)[s[i].0] == (s[i].1.1, s[i].1.2),
    decreases s.len(),
{
    if i < s.len() - 1 {
        let t = s.drop_last();
        assert(t[i] == s[i]);
        assert forall|j: int| i < j < t.len() implies (#[trigger] t[j]).0 != t[i].0 by {
            assert(t[j] == s[j]);
        }
        law_scan_table_keeps_last(t, i);
        assert(s[s.len() - 1].0 != s[i].0);
    }
}

/// A scan of `/proc`: the processes of the entries (name, `stat` text when it could be read),
/// their ranking rows and their growth since the scan recorded in `previous`, which the scan
/// then replaces. Ticks count toward the ranking only when `rated` (the tick rate and the
/// elapsed time are known), resident pages only when `page_known` (the page size is).
pub fn scan(
    previous: &mut HashMap<u32, (u64, u64)>,
    entries: &Vec<(String, Option<String>)>,
    rated: bool,
    page_known: bool,
) -> (r: (Vec<ProcRank>, Vec<Scanned>))
    ensures
        r.1@.map_values(|p: Scanned| scanned_view(p)) == scanned(entries@),
        final(previous)@ == scan_table(scanned(entries@)),
        r.0@.len() == r.1@.len(),
        forall|i: int| 0 <= i < r.1@.len() ==> {
            let p = #[trigger] r.1@[i];
            &&& p.growth == tick_growth_of(old(previous)@, p.pid, p.stat.start, p.stat.ticks)
            &&& r.0@[i] == ProcRank {
                pid: p.pid,
                cpu_ticks: if rated {
                    match p.growth {
                        Some(g) => g,
                        None => 0,
                    }
                } else {
                    0
                },
                rss_pages: if page_known { p.stat.rss_pages } else { 0 },
            }
        },
{
    let mut current: HashMap<u32, (u64, u64)> = HashMap::new();
    let mut ranks: Vec<ProcRank> = Vec::new();
    let mut procs: Vec<Scanned> = Vec::new();
    let mut i: usize = 0;
    assert(entries@.take(0) =~= Seq::<(String, Option<String>)>::empty());
    assert(procs@.map_values(|p: Scanned| scanned_view(p)) =~= Seq::<(u32, (Seq<char>, u64, u64, u64))>::empty());
    while i < entries.len()
        invariant
            i <= entries@.len(),
            procs@.map_values(|p: Scanned| scanned_view(p)) == scanned(entries@.take(i as int)),
            current@ == scan_table(scanned(entries@.take(i as int))),
            ranks@.len() == procs@.len(),
            forall|k: int| 0 <= k < procs@.len() ==> {
                let p = #[trigger] procs@[k];
                &&& p.growth == tick_growth_of(previous@, p.pid, p.stat.start, p.stat.ticks)
                &&& ranks@[k] == ProcRank {
                    pid: p.pid,
                    cpu_ticks: if rated {
                        match p.growth {
                            Some(g) => g,
                            None => 0,
                        }
                    } else {
                        0
                    },
                    rss_pages: if page_known { p.stat.rss_pages } else { 0 },
                }
            },
        decreases entries@.len() - i,
    {
        let ghost pre = entries@.take(i + 1);
        assert(pre.drop_last() =~= entries@.take(i as int));
        assert(pre.last() == entries@[i as int]);
        let e = &entries[i];
        let pid = parse_pid(e.0.as_str());
        let stat = match &e.1 {
            Some(t) => proc_stat(t.as_str()),
            None => None,
        };
        match (pid, stat) {
            (Some(pid), Some(p)) => {
                let ghost v = (pid, (p.name@, p.start, p.ticks, p.rss_pages));
                assert(scan_entry(pre.last().0@, opt_text(pre.last().1)) == Some(v));
                assert(scanned(pre) == scanned(entries@.take(i as int)).push(v));
                assert(scanned(pre).drop_last() =~= scanned(entries@.take(i as int)));
                assert(scan_table(scanned(pre)) == scan_table(scanned(entries@.take(i as int))).insert(
                    pid,
                    (p.start, p.ticks),
                ));
                let growth = tick_growth(previous, pid, p.start, p.ticks);
                let cpu_ticks = if rated {
                    match growth {
                        Some(g) => g,
                        None => 0,
                    }
                } else {
                    0
                };
                let rss_pages = if page_known { p.rss_pages } else { 0 };
                current.insert(pid, (p.start, p.ticks));
                ranks.push(ProcRank { pid, cpu_ticks, rss_pages });
                let ghost old_procs = procs@;
                let item = Scanned { pid, stat: p, growth };
                assert(scanned_view(item) == v);
                procs.push(item);
                assert(procs@.map_values(|p: Scanned| scanned_view(p)) =~= old_procs.map_values(
                    |p: Scanned| scanned_view(p),
                ).push(v));
            },
            _ => {
                assert(scan_entry(pre.last().0@, opt_text(pre.last().1)) is None);
                assert(scanned(pre) == scanned(entries@.take(i as int)));
            },
        }
        i = i + 1;
    }
    assert(entries@.take(entries@.len() as int) =~= entries@);
    *previous = current;
    (ranks, procs)
}


/// The figures of a process's `stat` line come from fixed fields after its last `) `: the
/// start time from field 19, the resident pages from field 21, and the ticks are user plus
/// system time (fields 11 and 12), capped at the largest `u64`; no other field counts. The
/// line parses exactly when those four fields are numbers.
pub proof fn law_stat_fields(s: Seq<char>, head: Seq<char>, tail: Seq<char>)
    requires
        rsplit_once(s, ") "@) == Some((head, tail)),
    ensures
        proc_stat_of(s) is Some <==> ({
            let f = words(tail);
            &&& f.len() > 21
            &&& parse_u64(f[11]) is Some
            &&& parse_u64(f[12]) is Some
            &&& parse_u64(f[19]) is Some
            &&& parse_u64(f[21]) is Some
        }),
        proc_stat_of(s) matches Some(p) ==> ({
            let f = words(tail);
            let u = parse_u64(f[11]).unwrap() as int;
            let sy = parse_u64(f[12]).unwrap() as int;
            &&& p.0 == proc_name_of(head)
            &&& p.1 == parse_u64(f[19]).unwrap()
            &&& p.2 == (if u + sy <= u64::MAX { u + sy } else { u64::MAX as int })
            &&& p.3 == parse_u64(f[21]).unwrap()
        }),
{
}

/// The monitor's own ticks are its user plus system time (fields 11 and 12 after the last
/// `) ` of its `stat` line), capped at the largest `u64`; no other field counts.
pub proof fn law_self_ticks_fields(s: Seq<char>, head: Seq<char>, tail: Seq<char>)
    requires
        rsplit_once(s, ") "@) == Some((head, tail)),
    ensures
        self_ticks_of(s) is Some <==> ({
            let f = words(tail);
            &&& f.len() > 12
            &&& parse_u64(f[11]) is Some
            &&& parse_u64(f[12]) is Some
        }),
        self_ticks_of(s) matches Some(t) ==> ({
            let f = words(tail);
            let u = parse_u64(f[11]).unwrap() as int;
            let sy = parse_u64(f[12]).unwrap() as int;
            t == (if u + sy <= u64::MAX { u + sy } else { u64::MAX as int })
        }),
{
}

} // verus!
