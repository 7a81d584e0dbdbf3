use aoc22::day16::{
    find_valve, max_released_pressure, most_pressure, try_max_released_pressure, ReportEntry,
    Valve, ValveTable,
};

static INPUT: &str = "Valve AA has flow rate=0; tunnels lead to valves DD, II, BB
Valve BB has flow rate=13; tunnels lead to valves CC, AA
Valve CC has flow rate=2; tunnels lead to valves DD, BB
Valve DD has flow rate=20; tunnels lead to valves CC, AA, EE
Valve EE has flow rate=3; tunnels lead to valves FF, DD
Valve FF has flow rate=0; tunnels lead to valves EE, GG
Valve GG has flow rate=0; tunnels lead to valves FF, HH
Valve HH has flow rate=22; tunnel leads to valve GG
Valve II has flow rate=0; tunnels lead to valves AA, JJ
Valve JJ has flow rate=21; tunnel leads to valve II";

fn chars(s: &str) -> Vec<char> {
    s.chars().collect()
}

fn entry(name: &str, flow_rate: i64, leads_to: &[&str]) -> ReportEntry {
    ReportEntry {
        valve: chars(name),
        flow_rate,
        leads_to: leads_to.iter().map(|n| chars(n)).collect(),
    }
}

#[test]
fn test_max_released_pressure() {
    assert_eq!(max_released_pressure(INPUT), 1651);
}

#[test]
fn entries_are_read_with_the_pattern() {
    let e = ReportEntry::from_str("Valve AA has flow rate=0; tunnels lead to valves DD, II, BB")
        .unwrap();
    assert_eq!(e.valve, chars("AA"));
    assert_eq!(e.flow_rate, 0);
    assert_eq!(e.leads_to, vec![chars("DD"), chars("II"), chars("BB")]);
    let e = ReportEntry::from_str("xx Valve HH has flow rate=22; tunnel leads to valve GG").unwrap();
    assert_eq!((e.valve, e.flow_rate, e.leads_to), (chars("HH"), 22, vec![chars("GG")]));
    let e = ReportEntry::from_str("Valve  has flow rate=7; tunnel lead to valve ").unwrap();
    assert_eq!((e.valve, e.flow_rate, e.leads_to), (chars(""), 7, vec![chars("")]));
    assert!(ReportEntry::from_str("Valve AA has flow rate=; tunnels lead to valves DD").is_none());
    assert!(ReportEntry::from_str("Valve AA has flow rate=-1; tunnels lead to valves DD").is_none());
    assert!(ReportEntry::from_str("Valve AA has flow rate=1 tunnels lead to valves DD").is_none());
    assert!(ReportEntry::from_str(
        "Valve AA has flow rate=99999999999999999999; tunnels lead to valves DD"
    )
    .is_none());
    assert!(ReportEntry::from_str("").is_none());
    let groups = vec![
        Some("whole".to_string()),
        Some("AA".to_string()),
        Some("12".to_string()),
        Some("BB, CC".to_string()),
    ];
    let e = ReportEntry::from_groups(&groups).unwrap();
    assert_eq!((e.valve, e.flow_rate, e.leads_to), (chars("AA"), 12, vec![chars("BB"), chars("CC")]));
    assert!(ReportEntry::from_groups(&groups[..3].to_vec()).is_none());
    let missing = vec![Some("w".to_string()), None, Some("12".to_string()), Some("".to_string())];
    assert!(ReportEntry::from_groups(&missing).is_none());
}

#[test]
fn tables_of_valves() {
    let entries = vec![
        entry("AA", 0, &["BB"]),
        entry("BB", 5, &["AA", "BB"]),
        entry("BB", 7, &["AA"]),
    ];
    assert_eq!(find_valve(&entries, &chars("AA")), Some(0));
    assert_eq!(find_valve(&entries, &chars("BB")), Some(2));
    assert_eq!(find_valve(&entries, &chars("CC")), None);
    assert_eq!(ValveTable::get_by_name(&entries, &chars("BB")), Some(2));
    let valve = Valve::from_report_entry(&entries, 1).unwrap();
    assert_eq!((valve.id, valve.flow_rate, valve.leads_to), (1, 5, vec![0, 2]));
    let table = ValveTable::from_report_entries(&entries).unwrap();
    assert_eq!(table.start, 0);
    assert_eq!(table.valves.len(), 3);
    assert_eq!(table.valves[0].leads_to, vec![2]);
    // A minute to walk, a minute to open, and 28 minutes of flow.
    assert_eq!(table.max_released_pressure(), Some(7 * 28));

    assert!(ValveTable::from_report_entries(&vec![entry("AA", 0, &["ZZ"])]).is_none());
    assert!(ValveTable::from_report_entries(&vec![entry("BB", 0, &["BB"])]).is_none());
    assert!(ValveTable::from_report_entries(&vec![entry("AA", 1 << 41, &["AA"])]).is_none());
    assert!(ValveTable::from_report_entries(&vec![entry("AA", 1 << 40, &["AA"])]).is_some());
    let many: Vec<ReportEntry> = (0..64).map(|_| entry("AA", 1, &["AA"])).collect();
    assert!(ValveTable::from_report_entries(&many).is_none());
    assert!(ValveTable::from_report_entries(&many[..63].to_vec_entries()).is_some());
}

trait ToEntries {
    fn to_vec_entries(&self) -> Vec<ReportEntry>;
}

impl ToEntries for [ReportEntry] {
    fn to_vec_entries(&self) -> Vec<ReportEntry> {
        self.iter()
            .map(|e| ReportEntry {
                valve: e.valve.clone(),
                flow_rate: e.flow_rate,
                leads_to: e.leads_to.clone(),
            })
            .collect()
    }
}

#[test]
fn pressure_of_small_nets() {
    let one = "Valve AA has flow rate=5; tunnel leads to valve AA";
    assert_eq!(most_pressure(one), Some(5 * 29));
    let dead = "Valve AA has flow rate=5; tunnel leads to valve BB\nValve BB has flow rate=0; tunnel leads to valve ";
    assert_eq!(most_pressure(dead), None);
    let two = "Valve AA has flow rate=1; tunnel leads to valve BB\nValve BB has flow rate=100; tunnel leads to valve AA";
    assert_eq!(most_pressure(two), Some(100 * 28 + 26));
    assert_eq!(try_max_released_pressure(two), Some(100 * 28 + 26));
    assert_eq!(try_max_released_pressure(INPUT), Some(1651));
    assert_eq!(try_max_released_pressure(""), None);
    assert_eq!(try_max_released_pressure("Valve"), None);
    assert_eq!(
        try_max_released_pressure("Valve BB has flow rate=5; tunnel leads to valve BB"),
        None
    );
}
