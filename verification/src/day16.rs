//! Valves in a net of tunnels, each with a flow rate, and the most pressure that one
//! can release in thirty minutes of walking and opening valves.

use crate::rx::{captures, first_captures, group_views};
use crate::text::{chars_of, parse_i64, split, split_on, string_of, to_i64, trimmed_lines, trimmed_lines_of, views};
use std::collections::HashMap;
use vstd::arithmetic::div_mod::lemma_fundamental_div_mod_converse;
use vstd::pervasive::unreached;
use vstd::prelude::*;

verus! {

broadcast use vstd::std_specs::hash::group_hash_axioms;

/// A line of the report: a valve, its flow rate, and the valves to which its tunnels
/// lead.
#[derive(Debug)]
pub struct ReportEntry {
    pub valve: Vec<char>,
    pub flow_rate: i64,
    pub leads_to: Vec<Vec<char>>,
}

/// A line of the report as a value.
pub struct EntryView {
    pub valve: Seq<char>,
    pub flow_rate: int,
    pub leads_to: Seq<Seq<char>>,
}

impl View for ReportEntry {
    type V = EntryView;

    open spec fn view(&self) -> EntryView {
        EntryView {
            valve: self.valve@,
            flow_rate: self.flow_rate as int,
            leads_to: views(self.leads_to@),
        }
    }
}

/// The entries of a list as values.
pub open spec fn entry_views(v: Seq<ReportEntry>) -> Seq<EntryView> {
    Seq::new(v.len(), |i: int| v[i]@)
}

/// The regular expression for a line of the report.
pub open spec fn entry_pattern() -> Seq<char> {
    "Valve (\\w*) has flow rate=(\\d*); tunnel[s]* lead[s]* to valve[s]* (.*)"@
}

/// The entry that the groups of a match write: the first group is the valve, the second
/// its flow rate, and the third the valves to which it leads, with `, ` between them.
pub open spec fn entry_from(groups: Seq<Option<Seq<char>>>) -> Option<EntryView> {
    if groups.len() >= 4 && groups[1] is Some && groups[2] is Some && groups[3] is Some
        && parse_i64(groups[2].unwrap()) is Some {
        Some(
            EntryView {
                valve: groups[1].unwrap(),
                flow_rate: parse_i64(groups[2].unwrap()).unwrap() as int,
                leads_to: split(groups[3].unwrap(), ", "@),
            },
        )
    } else {
        None
    }
}

/// The entry that a line writes.
pub open spec fn entry_of(line: Seq<char>) -> Option<EntryView> {
    match first_captures(entry_pattern(), line) {
        Some(groups) => entry_from(groups),
        None => None,
    }
}

/// The entries that the lines write, or `None` where a line writes none.
pub open spec fn report_of(lines: Seq<Seq<char>>) -> Option<Seq<EntryView>> {
    if forall|i: int| 0 <= i < lines.len() ==> entry_of(#[trigger] lines[i]) is Some {
        Some(Seq::new(lines.len(), |i: int| entry_of(lines[i]).unwrap()))
    } else {
        None
    }
}

/// The place of the last of the first `n` entries for the valve `name`, or -1.
pub open spec fn last_named(entries: Seq<EntryView>, name: Seq<char>, n: int) -> int
    decreases n,
{
    if n <= 0 {
        -1
    } else if entries[n - 1].valve == name {
        n - 1
    } else {
        last_named(entries, name, n - 1)
    }
}

/// A valve as a value: its flow rate and the valves to which its tunnels lead, by their
/// places in the table.
pub struct ValveView {
    pub flow_rate: int,
    pub leads_to: Seq<int>,
}

/// Whether every tunnel of every entry leads to a valve of the report.
pub open spec fn tunnels_lead(entries: Seq<EntryView>) -> bool {
    forall|i: int, j: int|
        0 <= i < entries.len() && 0 <= j < entries[i].leads_to.len() ==> last_named(
            entries,
            #[trigger] entries[i].leads_to[j],
            entries.len() as int,
        ) >= 0
}

/// The table of the valves of a report: each entry is a valve, and a name stands for the
/// last entry of that name.
pub open spec fn table_of(entries: Seq<EntryView>) -> Seq<ValveView> {
    Seq::new(
        entries.len(),
        |i: int|
            ValveView {
                flow_rate: entries[i].flow_rate,
                leads_to: Seq::new(
                    entries[i].leads_to.len(),
                    |j: int| last_named(entries, entries[i].leads_to[j], entries.len() as int),
                ),
            },
    )
}

/// The greater of two amounts, where `None` is no amount.
pub open spec fn better(a: Option<int>, b: Option<int>) -> Option<int> {
    match (a, b) {
        (Some(x), Some(y)) => if x >= y {
            Some(x)
        } else {
            Some(y)
        },
        (Some(x), None) => Some(x),
        (None, y) => y,
    }
}

/// The most pressure that one can still release from minute `t` on, standing at valve
/// `cur` with the valves of `opened` open, if one first walks through one of the first
/// `k` tunnels of the valve. Each minute one walks through a tunnel or opens the valve at
/// which one stands, if it is shut and has a flow; a valve opened in minute `t` releases
/// its flow for the `30 - t` minutes that are left. `None` where one can do neither.
pub open spec fn best_walk(table: Seq<ValveView>, cur: int, opened: u64, t: int, k: int) -> Option<
    int,
>
    decreases 31 - t, k,
{
    if t < 1 || t > 30 || k <= 0 {
        None
    } else {
        better(
            best_walk(table, cur, opened, t, k - 1),
            best(table, table[cur].leads_to[k - 1], opened, t + 1),
        )
    }
}

/// The most pressure that one can still release from minute `t` on, standing at valve
/// `cur` with the valves of `opened` open.
pub open spec fn best(table: Seq<ValveView>, cur: int, opened: u64, t: int) -> Option<int>
    decreases 31 - t, table[cur].leads_to.len() + 1,
{
    if t > 30 {
        Some(0)
    } else if t < 1 || cur < 0 || cur >= 64 {
        None
    } else {
        let walk = best_walk(table, cur, opened, t, table[cur].leads_to.len() as int);
        if (opened >> (cur as u64)) & 1 == 0 && table[cur].flow_rate > 0 {
            let open = match best(table, cur, opened | (1u64 << (cur as u64)), t + 1) {
                Some(more) => Some(table[cur].flow_rate * (30 - t) + more),
                None => None,
            };
            better(open, walk)
        } else {
            walk
        }
    }
}

/// Whether the table can be walked: it has at most 63 valves, every tunnel leads to a
/// valve of it, and no flow rate is more than 2 to the power of 40.
pub open spec fn walkable(table: Seq<ValveView>) -> bool {
    &&& table.len() <= 63
    &&& forall|i: int| 0 <= i < table.len() ==> (#[trigger] table[i]).flow_rate <= 0x100_0000_0000
    &&& forall|i: int, j: int|
        0 <= i < table.len() && 0 <= j < table[i].leads_to.len() ==> 0 <= #[trigger] table[i].leads_to[j]
            < table.len()
}

/// A valve: its flow rate and the valves to which its tunnels lead.
#[derive(Debug)]
pub struct Valve {
    pub id: usize,
    pub flow_rate: i64,
    pub leads_to: Vec<usize>,
}

impl View for Valve {
    type V = ValveView;

    open spec fn view(&self) -> ValveView {
        ValveView {
            flow_rate: self.flow_rate as int,
            leads_to: Seq::new(self.leads_to@.len(), |j: int| self.leads_to@[j] as int),
        }
    }
}

/// The valves of a report, and the valve `AA` at which one starts.
#[derive(Debug)]
pub struct ValveTable {
    pub valves: Vec<Valve>,
    pub start: usize,
}

impl View for ValveTable {
    type V = Seq<ValveView>;

    open spec fn view(&self) -> Seq<ValveView> {
        Seq::new(self.valves@.len(), |i: int| self.valves@[i]@)
    }
}

/// The name of the valve at which one starts.
pub open spec fn start_name() -> Seq<char> {
    seq!['A', 'A']
}

/// Whether two texts are the same.
fn same_text(a: &Vec<char>, b: &Vec<char>) -> (r: bool)
    ensures
        r == (a@ == b@),
{
    if a.len() != b.len() {
        return false;
    }
    let mut i: usize = 0;
    while i < a.len()
        invariant
            i <= a.len(),
            a.len() == b.len(),
            forall|k: int| 0 <= k < i ==> a@[k] == b@[k],
        decreases a.len() - i,
    {
        if a[i] != b[i] {
            return false;
        }
        i += 1;
    }
    assert(a@ =~= b@);
    true
}

/// The place of the last entry for the valve `name`, or `None`.
pub fn find_valve(entries: &Vec<ReportEntry>, name: &Vec<char>) -> (r: Option<usize>)
    ensures
        match r {
            Some(i) => last_named(entry_views(entries@), name@, entries@.len() as int) == i && i
                < entries@.len(),
            None => last_named(entry_views(entries@), name@, entries@.len() as int) == -1,
        },
{
    let ghost es = entry_views(entries@);
    let mut n: usize = entries.len();
    while n > 0
        invariant
            n <= entries.len(),
            es == entry_views(entries@),
            last_named(es, name@, es.len() as int) == last_named(es, name@, n as int),
        decreases n,
    {
        assert(es[n - 1].valve == entries@[n - 1].valve@);
        if same_text(&entries[n - 1].valve, name) {
            return Some(n - 1);
        }
        n -= 1;
    }
    None
}

impl ReportEntry {
    /// The entry that the groups of a match write.
    pub fn from_groups(groups: &Vec<Option<String>>) -> (r: Option<ReportEntry>)
        ensures
            r is Some <==> entry_from(group_views(groups@)) is Some,
            r is Some ==> Some(r.unwrap()@) == entry_from(group_views(groups@)),
    {
        if groups.len() < 4 {
            return None;
        }
        let ghost gs = group_views(groups@);
        assert(gs[1] == (match groups@[1] {
            Some(s) => Some(s@),
            None => None,
        }));
        assert(gs[2] == (match groups@[2] {
            Some(s) => Some(s@),
            None => None,
        }));
        assert(gs[3] == (match groups@[3] {
            Some(s) => Some(s@),
            None => None,
        }));
        match (&groups[1], &groups[2], &groups[3]) {
            (Some(name), Some(rate), Some(list)) => {
                let flow_rate = match to_i64(&chars_of(rate.as_str())) {
                    Some(n) => n,
                    None => {
                        return None;
                    },
                };
                let sep = chars_of(", ");
                proof {
                    reveal_strlit(", ");
                }
                let leads_to = split_on(&chars_of(list.as_str()), &sep);
                Some(ReportEntry { valve: chars_of(name.as_str()), flow_rate, leads_to })
            },
            _ => None,
        }
    }

    /// Reads a line of the report with the regular expression
    /// `Valve (\w*) has flow rate=(\d*); tunnel[s]* lead[s]* to valve[s]* (.*)`.
    pub fn from_str(s: &str) -> (r: Option<ReportEntry>)
        ensures
            r is Some <==> entry_of(s@) is Some,
            r is Some ==> Some(r.unwrap()@) == entry_of(s@),
    {
        match captures(
            "Valve (\\w*) has flow rate=(\\d*); tunnel[s]* lead[s]* to valve[s]* (.*)",
            s,
        ) {
            Some(groups) => ReportEntry::from_groups(&groups),
            None => None,
        }
    }
}

impl Valve {
    /// The valve of an entry, its tunnels by the places of the valves to which they lead;
    /// `None` where a tunnel leads to no valve of the report.
    pub fn from_report_entry(entries: &Vec<ReportEntry>, i: usize) -> (r: Option<Valve>)
        requires
            i < entries.len(),
        ensures
            r is Some <==> (forall|j: int|
                0 <= j < entries@[i as int]@.leads_to.len() ==> last_named(
                    entry_views(entries@),
                    #[trigger] entries@[i as int]@.leads_to[j],
                    entries@.len() as int,
                ) >= 0),
            r is Some ==> r.unwrap()@ == table_of(entry_views(entries@))[i as int],
    {
        let ghost es = entry_views(entries@);
        let entry = &entries[i];
        assert(es[i as int] == entry@);
        let mut leads_to: Vec<usize> = Vec::new();
        let mut j: usize = 0;
        while j < entry.leads_to.len()
            invariant
                j <= entry.leads_to.len(),
                i < entries.len(),
                es == entry_views(entries@),
                es[i as int] == entry@,
                leads_to.len() == j,
                forall|k: int|
                    0 <= k < j ==> leads_to@[k] == last_named(
                        es,
                        #[trigger] entry@.leads_to[k],
                        es.len() as int,
                    ),
            decreases entry.leads_to.len() - j,
        {
            assert(entry@.leads_to[j as int] == entry.leads_to@[j as int]@);
            match find_valve(entries, &entry.leads_to[j]) {
                Some(at) => {
                    leads_to.push(at);
                },
                None => {
                    return None;
                },
            }
            j += 1;
        }
        let valve = Valve { id: i, flow_rate: entry.flow_rate, leads_to };
        proof {
            assert(valve@.leads_to =~= table_of(es)[i as int].leads_to);
        }
        Some(valve)
    }
}

/// The key of a state in the memory of the search.
pub open spec fn key_of(cur: int, opened: u64, t: int) -> int {
    (opened * 64 + cur) * 64 + t
}

/// Two states have two keys.
pub proof fn lemma_key_of(c1: int, o1: u64, t1: int, c2: int, o2: u64, t2: int)
    requires
        0 <= c1 < 64,
        0 <= c2 < 64,
        0 <= t1 < 64,
        0 <= t2 < 64,
        key_of(c1, o1, t1) == key_of(c2, o2, t2),
    ensures
        c1 == c2,
        o1 == o2,
        t1 == t2,
{
    let x = key_of(c1, o1, t1);
    lemma_fundamental_div_mod_converse(x, 64, o1 * 64 + c1, t1);
    lemma_fundamental_div_mod_converse(x, 64, o2 * 64 + c2, t2);
    let y = o1 * 64 + c1;
    lemma_fundamental_div_mod_converse(y, 64, o1 as int, c1);
    lemma_fundamental_div_mod_converse(y, 64, o2 as int, c2);
}

/// Whether the memory holds only what is true of the table.
pub open spec fn memory_ok(table: Seq<ValveView>, memo: Map<u128, Option<i64>>) -> bool {
    forall|cur: int, opened: u64, t: int|
        0 <= cur < table.len() && 1 <= t <= 30 && #[trigger] memo.contains_key(
            key_of(cur, opened, t) as u128,
        ) ==> (match memo[key_of(cur, opened, t) as u128] {
            Some(v) => best(table, cur, opened, t) == Some(v as int),
            None => best(table, cur, opened, t) is None,
        })
}

/// The greater of two amounts, where `None` is no amount.
fn better_of(a: Option<i64>, b: Option<i64>) -> (r: Option<i64>)
    ensures
        match r {
            Some(v) => better(
                match a {
                    Some(x) => Some(x as int),
                    None => None,
                },
                match b {
                    Some(y) => Some(y as int),
                    None => None,
                },
            ) == Some(v as int),
            None => a is None && b is None,
        },
{
    match (a, b) {
        (Some(x), Some(y)) => if x >= y {
            Some(x)
        } else {
            Some(y)
        },
        (Some(x), None) => Some(x),
        (None, y) => y,
    }
}

impl ValveTable {
    /// The table is one that can be walked, and one starts at a valve of it.
    pub open spec fn wf(&self) -> bool {
        walkable(self@) && self.start < self.valves@.len()
    }

    /// The table of the valves of a report, or `None` where the report has more than 63
    /// entries or none for the valve `AA`, a tunnel leads to no valve of the report, or a
    /// flow rate is more than 2 to the power of 40.
    pub fn from_report_entries(entries: &Vec<ReportEntry>) -> (r: Option<ValveTable>)
        ensures
            r is Some <==> tunnels_lead(entry_views(entries@)) && walkable(
                table_of(entry_views(entries@)),
            ) && last_named(entry_views(entries@), start_name(), entries@.len() as int) >= 0,
            r is Some ==> r.unwrap().wf() && r.unwrap()@ == table_of(entry_views(entries@))
                && r.unwrap().start == last_named(
                entry_views(entries@),
                start_name(),
                entries@.len() as int,
            ),
    {
        let ghost es = entry_views(entries@);
        let mut valves: Vec<Valve> = Vec::new();
        let mut i: usize = 0;
        while i < entries.len()
            invariant
                i <= entries.len(),
                es == entry_views(entries@),
                valves.len() == i,
                forall|k: int| 0 <= k < i ==> (#[trigger] valves@[k])@ == table_of(es)[k],
                forall|k: int, j: int|
                    0 <= k < i && 0 <= j < es[k].leads_to.len() ==> last_named(
                        es,
                        #[trigger] es[k].leads_to[j],
                        es.len() as int,
                    ) >= 0,
                forall|k: int| 0 <= k < i ==> (#[trigger] table_of(es)[k]).flow_rate <= 0x100_0000_0000,
            decreases entries.len() - i,
        {
            assert(es[i as int] == entries@[i as int]@);
            let valve = match Valve::from_report_entry(entries, i) {
                Some(valve) => valve,
                None => {
                    return None;
                },
            };
            if valve.flow_rate > 0x100_0000_0000 {
                assert(table_of(es)[i as int].flow_rate > 0x100_0000_0000);
                return None;
            }
            valves.push(valve);
            i += 1;
        }
        if entries.len() > 63 {
            return None;
        }
        let mut name: Vec<char> = Vec::new();
        name.push('A');
        name.push('A');
        assert(name@ =~= start_name());
        let start = match find_valve(entries, &name) {
            Some(start) => start,
            None => {
                return None;
            },
        };
        let table = ValveTable { valves, start };
        proof {
            assert(table@ =~= table_of(es));
            assert forall|k: int, j: int|
                0 <= k < table@.len() && 0 <= j < table@[k].leads_to.len() implies 0
                <= #[trigger] table@[k].leads_to[j] < table@.len() by {
                assert(last_named(es, es[k].leads_to[j], es.len() as int) >= 0);
                lemma_last_named(es, es[k].leads_to[j], es.len() as int);
            }
        }
        Some(table)
    }

    /// The most pressure that one can still release from minute `t` on, standing at
    /// valve `cur` with the valves of `opened` open.
    pub fn search(&self, cur: usize, opened: u64, t: u8, memo: &mut HashMap<u128, Option<i64>>) -> (r:
        Option<i64>)
        requires
            self.wf(),
            cur < self.valves@.len(),
            1 <= t <= 31,
            memory_ok(self@, old(memo)@),
        ensures
            memory_ok(self@, final(memo)@),
            match r {
                Some(v) => best(self@, cur as int, opened, t as int) == Some(v as int) && 0 <= v
                    <= (31 - t) * 0x1e00_0000_0000,
                None => best(self@, cur as int, opened, t as int) is None,
            },
        decreases 31 - t,
    {
        let ghost table = self@;
        if t > 30 {
            return Some(0);
        }
        let key: u128 = ((opened as u128) * 64 + cur as u128) * 64 + t as u128;
        assert(key == key_of(cur as int, opened, t as int));
        match memo.get(&key) {
            Some(known) => {
                let known = *known;
                proof {
                    assert(memo@.contains_key(key_of(cur as int, opened, t as int) as u128));
                    lemma_best_bound(table, cur as int, opened, t as int);
                }
                return known;
            },
            None => {},
        }
        let valve = &self.valves[cur];
        assert(table[cur as int] == valve@);
        let mut walk: Option<i64> = None;
        let mut k: usize = 0;
        while k < valve.leads_to.len()
            invariant
                k <= valve.leads_to.len(),
                self.wf(),
                table == self@,
                cur < self.valves@.len(),
                table[cur as int] == valve@,
                1 <= t <= 30,
                memory_ok(table, memo@),
                match walk {
                    Some(v) => best_walk(table, cur as int, opened, t as int, k as int) == Some(
                        v as int,
                    ) && 0 <= v <= (30 - t) * 0x1e00_0000_0000,
                    None => best_walk(table, cur as int, opened, t as int, k as int) is None,
                },
            decreases valve.leads_to.len() - k,
        {
            let next = valve.leads_to[k];
            assert(table[cur as int].leads_to[k as int] == next);
            let there = self.search(next, opened, t + 1, memo);
            walk = better_of(walk, there);
            k += 1;
        }
        let result = if (opened >> (cur as u64)) & 1 == 0 && valve.flow_rate > 0 {
            match self.search(cur, opened | (1u64 << (cur as u64)), t + 1, memo) {
                Some(more) => {
                    assert(valve.flow_rate * (30 - t) <= 0x1e00_0000_0000) by (nonlinear_arith)
                        requires
                            0 < valve.flow_rate <= 0x100_0000_0000,
                            1 <= t <= 30,
                    ;
                    assert(valve.flow_rate * (30 - t) >= 0) by (nonlinear_arith)
                        requires
                            0 < valve.flow_rate,
                            1 <= t <= 30,
                    ;
                    better_of(Some(valve.flow_rate * (30 - t as i64) + more), walk)
                },
                None => better_of(None, walk),
            }
        } else {
            walk
        };
        let ghost before = memo@;
        memo.insert(key, result);
        proof {
            assert forall|c: int, o: u64, u: int|
                0 <= c < table.len() && 1 <= u <= 30 && #[trigger] memo@.contains_key(
                    key_of(c, o, u) as u128,
                ) implies (match memo@[key_of(c, o, u) as u128] {
                Some(v) => best(table, c, o, u) == Some(v as int),
                None => best(table, c, o, u) is None,
            }) by {
                if key_of(c, o, u) as u128 == key {
                    lemma_key_of(c, o, u, cur as int, opened, t as int);
                } else {
                    assert(before.contains_key(key_of(c, o, u) as u128));
                }
            }
        }
        result
    }

    /// The most pressure that one can release in thirty minutes, starting at the valve
    /// `AA`; `None` where one can neither walk nor open a valve in some minute whatever
    /// one does.
    pub fn max_released_pressure(&self) -> (r: Option<i64>)
        requires
            self.wf(),
        ensures
            match r {
                Some(v) => best(self@, self.start as int, 0, 1) == Some(v as int),
                None => best(self@, self.start as int, 0, 1) is None,
            },
    {
        let mut memo: HashMap<u128, Option<i64>> = HashMap::new();
        self.search(self.start, 0, 1, &mut memo)
    }

    /// The valve of the name, or `None`.
    pub fn get_by_name(entries: &Vec<ReportEntry>, name: &Vec<char>) -> (r: Option<usize>)
        ensures
            match r {
                Some(i) => last_named(entry_views(entries@), name@, entries@.len() as int) == i
                    && i < entries@.len(),
                None => last_named(entry_views(entries@), name@, entries@.len() as int) == -1,
            },
    {
        find_valve(entries, name)
    }
}

/// The place that is found lies among the entries, or is -1.
pub proof fn lemma_last_named(entries: Seq<EntryView>, name: Seq<char>, n: int)
    requires
        0 <= n,
    ensures
        -1 <= last_named(entries, name, n) < n || (n == 0 && last_named(entries, name, n) == -1),
    decreases n,
{
    if n > 0 {
        lemma_last_named(entries, name, n - 1);
    }
}

/// What one can still release is not negative and at most so much for each minute that
/// is left.
pub proof fn lemma_best_bound(table: Seq<ValveView>, cur: int, opened: u64, t: int)
    requires
        walkable(table),
        0 <= cur < table.len(),
        1 <= t <= 31,
    ensures
        best(table, cur, opened, t) is Some ==> 0 <= best(table, cur, opened, t).unwrap() <= (31
            - t) * 0x1e00_0000_0000,
    decreases 31 - t, table[cur].leads_to.len() + 1,
{
    if t <= 30 {
        lemma_walk_bound(table, cur, opened, t, table[cur].leads_to.len() as int);
        if (opened >> (cur as u64)) & 1 == 0 && table[cur].flow_rate > 0 {
            lemma_best_bound(table, cur, opened | (1u64 << (cur as u64)), t + 1);
            assert(0 <= table[cur].flow_rate * (30 - t) <= 0x1e00_0000_0000) by (nonlinear_arith)
                requires
                    0 < table[cur].flow_rate <= 0x100_0000_0000,
                    1 <= t <= 30,
            ;
        }
    }
}

/// What one can still release after a walk is not negative and at most so much for each
/// minute that is left after it.
pub proof fn lemma_walk_bound(table: Seq<ValveView>, cur: int, opened: u64, t: int, k: int)
    requires
        walkable(table),
        0 <= cur < table.len(),
        1 <= t <= 30,
        0 <= k <= table[cur].leads_to.len(),
    ensures
        best_walk(table, cur, opened, t, k) is Some ==> 0 <= best_walk(
            table,
            cur,
            opened,
            t,
            k,
        ).unwrap() <= (30 - t) * 0x1e00_0000_0000,
    decreases 31 - t, k,
{
    if k > 0 {
        lemma_walk_bound(table, cur, opened, t, k - 1);
        assert(0 <= table[cur].leads_to[k - 1] < table.len());
        lemma_best_bound(table, table[cur].leads_to[k - 1], opened, t + 1);
    }
}

/// The most pressure that one can release by the report of the lines; `None` where a
/// line writes no entry, the table of the valves cannot be walked or has no valve `AA`,
/// or one can neither walk nor open a valve in some minute.
pub open spec fn released(lines: Seq<Seq<char>>) -> Option<int> {
    match report_of(lines) {
        Some(entries) => if tunnels_lead(entries) && walkable(table_of(entries)) && last_named(
            entries,
            start_name(),
            entries.len() as int,
        ) >= 0 {
            best(
                table_of(entries),
                last_named(entries, start_name(), entries.len() as int),
                0,
                1,
            )
        } else {
            None
        },
        None => None,
    }
}

/// The most pressure that one can release by the report `s`, or `None` where there is no
/// such amount.
pub fn most_pressure(s: &str) -> (r: Option<i64>)
    ensures
        r is Some <==> released(trimmed_lines(s@)) is Some,
        r is Some ==> r.unwrap() == released(trimmed_lines(s@)).unwrap(),
{
    let lines = trimmed_lines_of(s);
    let ghost rows = views(lines@);
    let mut entries: Vec<ReportEntry> = Vec::new();
    let mut i: usize = 0;
    while i < lines.len()
        invariant
            i <= lines.len(),
            rows == views(lines@),
            rows == trimmed_lines(s@),
            entries.len() == i,
            forall|k: int| 0 <= k < i ==> entry_of(#[trigger] rows[k]) == Some(entries@[k]@),
        decreases lines.len() - i,
    {
        assert(rows[i as int] == lines@[i as int]@);
        let line = string_of(&lines[i]);
        match ReportEntry::from_str(line.as_str()) {
            Some(entry) => {
                entries.push(entry);
            },
            None => {
                return None;
            },
        }
        i += 1;
    }
    proof {
        assert(report_of(rows) is Some);
        assert(entry_views(entries@) =~= report_of(rows).unwrap());
    }
    let table = match ValveTable::from_report_entries(&entries) {
        Some(table) => table,
        None => {
            return None;
        },
    };
    table.max_released_pressure()
}

/// The most pressure that one can release in thirty minutes by the report `s`.
pub fn max_released_pressure(s: &str) -> (r: i64)
    requires
        released(trimmed_lines(s@)) is Some,
    ensures
        r == released(trimmed_lines(s@)).unwrap(),
{
    match most_pressure(s) {
        Some(r) => r,
        None => unreached(),
    }
}

/// The most pressure that one can release by the report `s`, or `None` where there is no
/// such amount.
pub fn try_max_released_pressure(s: &str) -> (r: Option<i64>)
    ensures
        r is Some <==> released(trimmed_lines(s@)) is Some,
        r is Some ==> r.unwrap() == released(trimmed_lines(s@)).unwrap(),
{
    match most_pressure(s) {
        Some(_) => Some(max_released_pressure(s)),
        None => None,
    }
}

} // verus!
