//! Sensors that each know the beacon nearest to them, and the places where no other
//! beacon can be.

use crate::text::{parse_i64_after, split_once, split_once_char, to_i64_after, trimmed_lines, trimmed_lines_of, views};
use vstd::pervasive::unreached;
use vstd::prelude::*;

verus! {

/// A place on the grid.
#[derive(Clone, Copy, Debug, Eq, PartialEq, Structural)]
pub struct Position {
    pub x: i64,
    pub y: i64,
}

/// The distance between two numbers.
pub open spec fn gap(a: int, b: int) -> int {
    if a >= b {
        a - b
    } else {
        b - a
    }
}

/// The distance between two places, going along rows and columns only.
pub open spec fn distance(ax: int, ay: int, bx: int, by: int) -> int {
    gap(ax, bx) + gap(ay, by)
}

impl Position {
    /// The distance to `other`, going along rows and columns only.
    pub open spec fn distance_to(self, other: Position) -> int {
        distance(self.x as int, self.y as int, other.x as int, other.y as int)
    }

    pub fn new(x: i64, y: i64) -> (p: Self)
        ensures
            p.x == x,
            p.y == y,
    {
        Position { x, y }
    }

    /// The distance to `other` as a wide number.
    pub fn wide_distance(&self, other: &Position) -> (d: i128)
        ensures
            d == self.distance_to(*other),
            0 <= d <= 0x2_0000_0000_0000_0000,
    {
        let dx: i128 = self.x as i128 - other.x as i128;
        let dy: i128 = self.y as i128 - other.y as i128;
        (if dx >= 0 {
            dx
        } else {
            -dx
        }) + (if dy >= 0 {
            dy
        } else {
            -dy
        })
    }

    /// The distance to `other`, going along rows and columns only.
    pub fn manhattan_distance(&self, other: &Position) -> (d: i64)
        requires
            self.distance_to(*other) <= i64::MAX,
        ensures
            d == self.distance_to(*other),
    {
        self.wide_distance(other) as i64
    }

    /// The places of row `y` that are at most `distance` from this place, from left to
    /// right.
    pub open spec fn row_within(self, d: int, y: int) -> Seq<Position> {
        let offset = d - gap(y, self.y as int);
        Seq::new(
            (2 * offset + 1) as nat,
            |k: int| Position { x: (self.x - offset + k) as i64, y: y as i64 },
        )
    }

    /// The places of the first `n` rows that hold places at most `d` from this place, row
    /// after row from the lowest `y`.
    pub open spec fn rows_within(self, d: int, n: int) -> Seq<Position>
        decreases n,
    {
        if n <= 0 {
            Seq::empty()
        } else {
            self.rows_within(d, n - 1) + self.row_within(d, self.y - d + n - 1)
        }
    }

    /// The places that are at most `d` from this place.
    pub open spec fn within(self, d: int) -> Seq<Position> {
        self.rows_within(d, 2 * d + 1)
    }

    /// The places that are at most `distance` from this place, row after row from the
    /// lowest `y`, and from left to right in a row.
    pub fn neighbors_within(&self, distance: i64) -> (neighbors: Vec<Position>)
        requires
            i64::MIN <= self.y - distance && self.y + distance <= i64::MAX,
            i64::MIN <= self.x - distance && self.x + distance <= i64::MAX,
        ensures
            neighbors@ == self.within(distance as int),
    {
        let mut neighbors: Vec<Position> = Vec::new();
        if distance < 0 {
            return neighbors;
        }
        let mut n: i128 = 0;
        let rows: i128 = 2 * (distance as i128) + 1;
        while n < rows
            invariant
                0 <= n <= rows,
                rows == 2 * distance + 1,
                distance >= 0,
                i64::MIN <= self.y - distance && self.y + distance <= i64::MAX,
                i64::MIN <= self.x - distance && self.x + distance <= i64::MAX,
                neighbors@ == self.rows_within(distance as int, n as int),
            decreases rows - n,
        {
            let y: i128 = self.y as i128 - distance as i128 + n;
            let dy: i128 = if y >= self.y as i128 {
                y - self.y as i128
            } else {
                self.y as i128 - y
            };
            let offset: i128 = distance as i128 - dy;
            let ghost before = neighbors@;
            let ghost row = self.row_within(distance as int, y as int);
            let mut k: i128 = 0;
            while k < 2 * offset + 1
                invariant
                    0 <= k <= 2 * offset + 1,
                    0 <= offset <= distance,
                    distance >= 0,
                    i64::MIN <= y <= i64::MAX,
                    i64::MIN <= self.x - distance && self.x + distance <= i64::MAX,
                    offset == distance - gap(y as int, self.y as int),
                    row == self.row_within(distance as int, y as int),
                    neighbors@ == before + row.take(k as int),
                decreases 2 * offset + 1 - k,
            {
                let x: i128 = self.x as i128 - offset + k;
                neighbors.push(Position::new(x as i64, y as i64));
                assert(row.take(k + 1) =~= row.take(k as int).push(row[k as int]));
                assert(neighbors@ =~= before + row.take(k + 1));
                k += 1;
            }
            assert(row.take(k as int) =~= row);
            n += 1;
        }
        neighbors
    }
}

/// A sensor, the beacon nearest to it, and the distance between them.
#[derive(Clone, Copy, Debug, Eq, PartialEq, Structural)]
pub struct ReportEntry {
    pub sensor: Position,
    pub beacon: Position,
    pub distance: i64,
}

/// The sensor and the beacon that a line of the report writes, as in
/// `Sensor at x=2, y=18: closest beacon is at x=-2, y=15`. The line is cut at its first
/// colon and each part at its first comma; the numbers are read after 12, 3, 24 and 3
/// characters of the four parts.
pub open spec fn places_of(line: Seq<char>) -> Option<(Position, Position)> {
    match split_once(line, seq![':']) {
        Some((sensor, beacon)) => match (
            split_once(sensor, seq![',']),
            split_once(beacon, seq![',']),
        ) {
            (Some((sx, sy)), Some((bx, by))) => match (
                parse_i64_after(sx, 12),
                parse_i64_after(sy, 3),
                parse_i64_after(bx, 24),
                parse_i64_after(by, 3),
            ) {
                (Some(a), Some(b), Some(c), Some(d)) => Some(
                    (Position { x: a, y: b }, Position { x: c, y: d }),
                ),
                _ => None,
            },
            _ => None,
        },
        None => None,
    }
}

/// The entry that a line of the report writes, or `None` where it writes none or the
/// beacon is further from the sensor than an `i64` says.
pub open spec fn entry_of(line: Seq<char>) -> Option<ReportEntry> {
    match places_of(line) {
        Some((sensor, beacon)) => if sensor.distance_to(beacon) <= i64::MAX {
            Some(ReportEntry { sensor, beacon, distance: sensor.distance_to(beacon) as i64 })
        } else {
            None
        },
        None => None,
    }
}

/// The entries that the lines write, or `None` where a line writes none.
pub open spec fn report_of(lines: Seq<Seq<char>>) -> Option<Seq<ReportEntry>> {
    if forall|i: int| 0 <= i < lines.len() ==> entry_of(#[trigger] lines[i]) is Some {
        Some(Seq::new(lines.len(), |i: int| entry_of(lines[i]).unwrap()))
    } else {
        None
    }
}

impl ReportEntry {
    /// Whether `p` is no further from the sensor than its beacon and is not the beacon.
    pub open spec fn rules_out(self, p: Position) -> bool {
        p != self.beacon && self.sensor.distance_to(p) <= self.distance
    }

    /// The entry of a sensor and the beacon nearest to it.
    pub fn new(sensor: Position, beacon: Position) -> (e: Self)
        requires
            sensor.distance_to(beacon) <= i64::MAX,
        ensures
            e.sensor == sensor,
            e.beacon == beacon,
            e.distance == sensor.distance_to(beacon),
    {
        let distance = sensor.manhattan_distance(&beacon);
        ReportEntry { sensor, beacon, distance }
    }

    /// Reads a line of the report.
    pub fn from_chars(s: &Vec<char>) -> (r: Option<ReportEntry>)
        ensures
            r == entry_of(s@),
    {
        let (sensor, beacon) = match split_once_char(s, ':') {
            Some(parts) => parts,
            None => {
                return None;
            },
        };
        let (sx, sy) = match split_once_char(&sensor, ',') {
            Some(parts) => parts,
            None => {
                return None;
            },
        };
        let (bx, by) = match split_once_char(&beacon, ',') {
            Some(parts) => parts,
            None => {
                return None;
            },
        };
        match (to_i64_after(&sx, 12), to_i64_after(&sy, 3), to_i64_after(&bx, 24), to_i64_after(
            &by,
            3,
        )) {
            (Some(a), Some(b), Some(c), Some(d)) => {
                let sensor = Position::new(a, b);
                let beacon = Position::new(c, d);
                if sensor.wide_distance(&beacon) > 0x7fff_ffff_ffff_ffff {
                    None
                } else {
                    Some(ReportEntry::new(sensor, beacon))
                }
            },
            _ => None,
        }
    }

    /// Whether `position` is no further from the sensor than its beacon and is not the
    /// beacon.
    pub fn is_in_range(&self, position: &Position) -> (b: bool)
        ensures
            b == self.rules_out(*position),
    {
        if position.x == self.beacon.x && position.y == self.beacon.y {
            return false;
        }
        self.sensor.wide_distance(position) <= self.distance as i128
    }
}

/// Reads the report `s`, an entry to a line.
pub fn read_report(s: &str) -> (r: Option<Vec<ReportEntry>>)
    ensures
        r is Some <==> report_of(trimmed_lines(s@)) is Some,
        r is Some ==> r.unwrap()@ == report_of(trimmed_lines(s@)).unwrap(),
{
    let lines = trimmed_lines_of(s);
    let ghost rows = views(lines@);
    let mut report: Vec<ReportEntry> = Vec::new();
    let mut i: usize = 0;
    while i < lines.len()
        invariant
            i <= lines.len(),
            rows == views(lines@),
            rows == trimmed_lines(s@),
            report.len() == i,
            forall|k: int| 0 <= k < i ==> entry_of(#[trigger] rows[k]) == Some(report@[k]),
        decreases lines.len() - i,
    {
        assert(rows[i as int] == lines@[i as int]@);
        match ReportEntry::from_chars(&lines[i]) {
            Some(entry) => {
                report.push(entry);
            },
            None => {
                return None;
            },
        }
        i += 1;
    }
    proof {
        assert(report_of(rows) is Some);
        assert(report@ =~= report_of(rows).unwrap());
    }
    Some(report)
}

/// Whether an entry of the report rules the place out.
pub open spec fn ruled_out(report: Seq<ReportEntry>, p: Position) -> bool {
    exists|i: int| 0 <= i < report.len() && (#[trigger] report[i]).rules_out(p)
}

/// Whether an entry of the report rules `position` out.
pub fn any_in_range(report: &Vec<ReportEntry>, position: &Position) -> (b: bool)
    ensures
        b == ruled_out(report@, *position),
{
    let mut i: usize = 0;
    while i < report.len()
        invariant
            i <= report.len(),
            forall|k: int| 0 <= k < i ==> !(#[trigger] report@[k]).rules_out(*position),
        decreases report.len() - i,
    {
        if report[i].is_in_range(position) {
            return true;
        }
        i += 1;
    }
    false
}

/// The least `x` that a sensor reaches, among the first `n` entries; the greatest `i64`
/// where there is none.
pub open spec fn min_reach(report: Seq<ReportEntry>, n: int) -> int
    decreases n,
{
    if n <= 0 {
        i64::MAX as int
    } else {
        let l = report[n - 1].sensor.x - report[n - 1].distance;
        let m = min_reach(report, n - 1);
        if l < m {
            l
        } else {
            m
        }
    }
}

/// The greatest `x` that a sensor reaches, among the first `n` entries; the least `i64`
/// where there is none.
pub open spec fn max_reach(report: Seq<ReportEntry>, n: int) -> int
    decreases n,
{
    if n <= 0 {
        i64::MIN as int
    } else {
        let r = report[n - 1].sensor.x + report[n - 1].distance;
        let m = max_reach(report, n - 1);
        if r > m {
            r
        } else {
            m
        }
    }
}

/// Whether what each sensor reaches to the left and to the right is a number of an `i64`.
pub open spec fn reaches_fit(report: Seq<ReportEntry>) -> bool {
    forall|i: int|
        0 <= i < report.len() ==> i64::MIN <= (#[trigger] report[i]).sensor.x - report[i].distance
            <= i64::MAX && i64::MIN <= report[i].sensor.x + report[i].distance <= i64::MAX
}

/// The number of places of row `row` with `lo <= x < hi` that the report rules out.
pub open spec fn count_ruled_out(report: Seq<ReportEntry>, row: i64, lo: int, hi: int) -> nat
    decreases hi - lo,
{
    if hi <= lo {
        0
    } else {
        count_ruled_out(report, row, lo, hi - 1) + if ruled_out(
            report,
            Position { x: (hi - 1) as i64, y: row },
        ) {
            1nat
        } else {
            0nat
        }
    }
}

/// The number of places of row `row` where no beacon can be, among those from the least
/// to the greatest `x` that a sensor reaches.
pub open spec fn empty_positions(report: Seq<ReportEntry>, row: i64) -> nat {
    count_ruled_out(
        report,
        row,
        min_reach(report, report.len() as int),
        max_reach(report, report.len() as int) + 1,
    )
}

/// The number of places of row `row` where no beacon can be.
pub fn count_empty_positions(report: &Vec<ReportEntry>, row: i64) -> (count: usize)
    requires
        reaches_fit(report@),
        empty_positions(report@, row) <= usize::MAX,
    ensures
        count == empty_positions(report@, row),
{
    let mut min_x: i64 = i64::MAX;
    let mut max_x: i64 = i64::MIN;
    let mut i: usize = 0;
    while i < report.len()
        invariant
            i <= report.len(),
            reaches_fit(report@),
            min_x == min_reach(report@, i as int),
            max_x == max_reach(report@, i as int),
        decreases report.len() - i,
    {
        let entry = &report[i];
        let l = entry.sensor.x - entry.distance;
        let r = entry.sensor.x + entry.distance;
        if l < min_x {
            min_x = l;
        }
        if r > max_x {
            max_x = r;
        }
        i += 1;
    }
    let mut count: usize = 0;
    if min_x > max_x {
        return 0;
    }
    let mut x: i64 = min_x;
    loop
        invariant_except_break
            min_x <= x <= max_x,
            count == count_ruled_out(report@, row, min_x as int, x as int),
        invariant
            min_x == min_reach(report@, report.len() as int),
            max_x == max_reach(report@, report.len() as int),
            empty_positions(report@, row) <= usize::MAX,
        ensures
            count == empty_positions(report@, row),
        decreases max_x - x,
    {
        proof {
            lemma_count_grows(report@, row, min_x as int, x + 1, max_x + 1);
        }
        if any_in_range(report, &Position::new(x, row)) {
            count += 1;
        }
        if x == max_x {
            break ;
        }
        x += 1;
    }
    count
}

/// A longer stretch of a row holds at least as many places that are ruled out.
pub proof fn lemma_count_grows(report: Seq<ReportEntry>, row: i64, lo: int, mid: int, hi: int)
    requires
        lo <= mid <= hi,
    ensures
        count_ruled_out(report, row, lo, mid) <= count_ruled_out(report, row, lo, hi),
    decreases hi - mid,
{
    if mid < hi {
        lemma_count_grows(report, row, lo, mid, hi - 1);
    }
}

/// The number of places of row `row` where no beacon can be, by the report `s`.
pub fn num_empty_positions(s: &str, row: i64) -> (count: usize)
    requires
        report_of(trimmed_lines(s@)) is Some,
        reaches_fit(report_of(trimmed_lines(s@)).unwrap()),
        empty_positions(report_of(trimmed_lines(s@)).unwrap(), row) <= usize::MAX,
    ensures
        count == empty_positions(report_of(trimmed_lines(s@)).unwrap(), row),
{
    let report = match read_report(s) {
        Some(report) => report,
        None => unreached(),
    };
    count_empty_positions(&report, row)
}

/// The `t`-th place on the way that is searched for an entry: the way starts in the row
/// of the sensor, one column left of what the sensor reaches but not left of 0, and goes
/// one column right and one row down with each step, up to the column of the sensor and
/// the row `bound`, and no column beyond `bound`.
pub open spec fn way_place(e: ReportEntry, bound: i64, t: int) -> Option<Position> {
    let reach = e.sensor.x - e.distance - 1;
    let min_x = if reach > 0 {
        reach
    } else {
        0
    };
    let max_x = if bound < e.sensor.x {
        bound as int
    } else {
        e.sensor.x as int
    };
    if 0 <= t && min_x + t <= max_x && e.sensor.y + t <= bound {
        Some(Position { x: (min_x + t) as i64, y: (e.sensor.y + t) as i64 })
    } else {
        None
    }
}

/// The first place from step `t` on, on the way of entry `e`, that the report does not
/// rule out.
pub open spec fn first_free(report: Seq<ReportEntry>, e: ReportEntry, bound: i64, t: int) -> Option<
    Position,
>
    decreases bound - e.sensor.y - t + 1,
{
    if way_place(e, bound, t) is Some && e.sensor.y + t <= bound {
        if !ruled_out(report, way_place(e, bound, t).unwrap()) {
            way_place(e, bound, t)
        } else {
            first_free(report, e, bound, t + 1)
        }
    } else {
        None
    }
}

/// The first place that the report does not rule out, on the way of the first entry from
/// the `k`-th on that has one.
pub open spec fn first_found(report: Seq<ReportEntry>, bound: i64, k: int) -> Option<Position>
    decreases report.len() - k,
{
    if k < 0 || k >= report.len() {
        None
    } else {
        match first_free(report, report[k], bound, 0) {
            Some(p) => Some(p),
            None => first_found(report, bound, k + 1),
        }
    }
}

/// The tuning frequency of a place.
pub open spec fn frequency(p: Position) -> int {
    p.x * 4000000 + p.y
}

/// Whether one column left of what each sensor reaches is a number of an `i64`.
pub open spec fn edges_fit(report: Seq<ReportEntry>) -> bool {
    forall|i: int|
        0 <= i < report.len() ==> i64::MIN <= (#[trigger] report[i]).sensor.x - report[i].distance
            - 1 <= i64::MAX
}

/// The first place on the way of `e` that the report does not rule out.
pub fn search_way(report: &Vec<ReportEntry>, e: &ReportEntry, bound: i64) -> (r: Option<Position>)
    requires
        i64::MIN <= e.sensor.x - e.distance - 1 <= i64::MAX,
    ensures
        r == first_free(report@, *e, bound, 0),
{
    let reach = (e.sensor.x as i128 - e.distance as i128 - 1) as i64;
    let min_x = if reach > 0 {
        reach
    } else {
        0
    };
    let max_x = if bound < e.sensor.x {
        bound
    } else {
        e.sensor.x
    };
    let mut t: i128 = 0;
    while min_x as i128 + t <= max_x as i128 && e.sensor.y as i128 + t <= bound as i128
        invariant
            0 <= t,
            t <= 0x1_0000_0000_0000_0000,
            reach == e.sensor.x - e.distance - 1,
            min_x == if reach > 0 {
                reach
            } else {
                0
            },
            max_x == if bound < e.sensor.x {
                bound
            } else {
                e.sensor.x
            },
            first_free(report@, *e, bound, 0) == first_free(report@, *e, bound, t as int),
        decreases bound - e.sensor.y - t + 1,
    {
        assert(e.sensor.y + t <= bound);
        let position = Position::new((min_x as i128 + t) as i64, (e.sensor.y as i128 + t) as i64);
        assert(way_place(*e, bound, t as int) == Some(position));
        if !any_in_range(report, &position) {
            return Some(position);
        }
        t += 1;
    }
    assert(way_place(*e, bound, t as int) is None);
    None
}

/// The first place that the report does not rule out, on the ways of its entries in
/// order.
pub fn search_ways(report: &Vec<ReportEntry>, bound: i64) -> (r: Option<Position>)
    requires
        edges_fit(report@),
    ensures
        r == first_found(report@, bound, 0),
{
    let mut k: usize = 0;
    while k < report.len()
        invariant
            k <= report.len(),
            edges_fit(report@),
            first_found(report@, bound, 0) == first_found(report@, bound, k as int),
        decreases report.len() - k,
    {
        match search_way(report, &report[k], bound) {
            Some(p) => {
                return Some(p);
            },
            None => {},
        }
        k += 1;
    }
    None
}

/// The tuning frequency of the place where the beacon in distress is: the first place
/// that the report does not rule out on the ways of its entries.
pub fn distress_beacon_tuning_frequency(s: &str, bound: i64) -> (f: i64)
    requires
        report_of(trimmed_lines(s@)) is Some,
        edges_fit(report_of(trimmed_lines(s@)).unwrap()),
        first_found(report_of(trimmed_lines(s@)).unwrap(), bound, 0) is Some,
        i64::MIN <= frequency(first_found(report_of(trimmed_lines(s@)).unwrap(), bound, 0).unwrap())
            <= i64::MAX,
    ensures
        f == frequency(first_found(report_of(trimmed_lines(s@)).unwrap(), bound, 0).unwrap()),
{
    let report = match read_report(s) {
        Some(report) => report,
        None => unreached(),
    };
    let position = match search_ways(&report, bound) {
        Some(position) => position,
        None => unreached(),
    };
    (position.x as i128 * 4000000 + position.y as i128) as i64
}

/// What is known of a place on the map.
#[derive(Clone, Copy, Debug, Eq, PartialEq, Structural)]
pub enum Content {
    Unknown,
    Empty,
    Sensor,
    Beacon,
}

impl Content {
    /// The character that stands for the content in a drawing of the map.
    pub open spec fn sign(self) -> char {
        match self {
            Content::Unknown => '.',
            Content::Empty => '#',
            Content::Sensor => 'S',
            Content::Beacon => 'B',
        }
    }

    /// The character that stands for the content in a drawing of the map.
    pub fn symbol(&self) -> (c: char)
        ensures
            c == self.sign(),
    {
        match self {
            Content::Unknown => '.',
            Content::Empty => '#',
            Content::Sensor => 'S',
            Content::Beacon => 'B',
        }
    }
}

/// A place lies in a row of the places within a distance just when it lies in that row
/// and no further to the side than the row is wide.
pub proof fn lemma_row_within(center: Position, d: int, y: int, p: Position)
    requires
        i64::MIN <= center.x - d && center.x + d <= i64::MAX,
        i64::MIN <= y <= i64::MAX,
        gap(y, center.y as int) <= d,
    ensures
        center.row_within(d, y).contains(p) <==> (p.y == y && gap(p.x as int, center.x as int)
            <= d - gap(y, center.y as int)),
{
    let offset = d - gap(y, center.y as int);
    let row = center.row_within(d, y);
    if p.y == y && gap(p.x as int, center.x as int) <= offset {
        let k = p.x - center.x + offset;
        assert(row[k] == p);
    }
    if row.contains(p) {
        let k = choose|k: int| 0 <= k < row.len() && row[k] == p;
        assert(row[k] == p);
    }
}

/// A place lies among the places of the first rows within a distance just when it lies in
/// one of those rows and is within the distance.
pub proof fn lemma_rows_within(center: Position, d: int, n: int, p: Position)
    requires
        0 <= d,
        0 <= n <= 2 * d + 1,
        i64::MIN <= center.x - d && center.x + d <= i64::MAX,
        i64::MIN <= center.y - d && center.y + d <= i64::MAX,
    ensures
        center.rows_within(d, n).contains(p) <==> (center.y - d <= p.y < center.y - d + n
            && center.distance_to(p) <= d),
    decreases n,
{
    if n > 0 {
        let before = center.rows_within(d, n - 1);
        let y = center.y - d + n - 1;
        let row = center.row_within(d, y);
        lemma_rows_within(center, d, n - 1, p);
        lemma_row_within(center, d, y, p);
        let all = center.rows_within(d, n);
        assert(all == before + row);
        if before.contains(p) {
            let k = choose|k: int| 0 <= k < before.len() && before[k] == p;
            assert(all[k] == p);
        }
        if row.contains(p) {
            let k = choose|k: int| 0 <= k < row.len() && row[k] == p;
            assert(all[before.len() + k] == p);
        }
        if all.contains(p) {
            let k = choose|k: int| 0 <= k < all.len() && all[k] == p;
            if k < before.len() {
                assert(before[k] == p);
            } else {
                assert(row[k - before.len()] == p);
            }
        }
    } else {
        assert(!center.rows_within(d, n).contains(p));
    }
}

/// The places within a distance are just the places that are no further away.
pub proof fn lemma_within(center: Position, d: int, p: Position)
    requires
        0 <= d,
        i64::MIN <= center.x - d && center.x + d <= i64::MAX,
        i64::MIN <= center.y - d && center.y + d <= i64::MAX,
    ensures
        center.within(d).contains(p) <==> center.distance_to(p) <= d,
{
    lemma_rows_within(center, d, 2 * d + 1, p);
}

/// The least of the `x`, if `of_x`, or of the `y` of the sensors and beacons of the first
/// `n` entries; the greatest `i64` where there is none.
pub open spec fn least_coord(report: Seq<ReportEntry>, of_x: bool, n: int) -> int
    decreases n,
{
    if n <= 0 {
        i64::MAX as int
    } else {
        let e = report[n - 1];
        let m = least_coord(report, of_x, n - 1);
        let a = if of_x {
            e.sensor.x
        } else {
            e.sensor.y
        };
        let b = if of_x {
            e.beacon.x
        } else {
            e.beacon.y
        };
        let m1 = if a < m {
            a as int
        } else {
            m
        };
        if b < m1 {
            b as int
        } else {
            m1
        }
    }
}

/// The greatest of the `x`, if `of_x`, or of the `y` of the sensors and beacons of the
/// first `n` entries; the least `i64` where there is none.
pub open spec fn greatest_coord(report: Seq<ReportEntry>, of_x: bool, n: int) -> int
    decreases n,
{
    if n <= 0 {
        i64::MIN as int
    } else {
        let e = report[n - 1];
        let m = greatest_coord(report, of_x, n - 1);
        let a = if of_x {
            e.sensor.x
        } else {
            e.sensor.y
        };
        let b = if of_x {
            e.beacon.x
        } else {
            e.beacon.y
        };
        let m1 = if a > m {
            a as int
        } else {
            m
        };
        if b > m1 {
            b as int
        } else {
            m1
        }
    }
}

/// The greatest distance from a sensor to its beacon among the first `n` entries, or -1.
pub open spec fn farthest(report: Seq<ReportEntry>, n: int) -> int
    decreases n,
{
    if n <= 0 {
        -1
    } else {
        let d = report[n - 1].sensor.distance_to(report[n - 1].beacon);
        let m = farthest(report, n - 1);
        if d > m {
            d
        } else {
            m
        }
    }
}

/// What the marks of the first `n` entries leave at `p`, where `base` was before: the
/// sensor of each entry is marked and then its beacon, one entry after the other.
pub open spec fn marked(report: Seq<ReportEntry>, n: int, p: Position, base: Content) -> Content
    decreases n,
{
    if n <= 0 {
        base
    } else if report[n - 1].beacon == p {
        Content::Beacon
    } else if report[n - 1].sensor == p {
        Content::Sensor
    } else {
        marked(report, n - 1, p, base)
    }
}

/// Whether `p` is no further from the sensor of one of the first `n` entries than its
/// beacon.
pub open spec fn swept(report: Seq<ReportEntry>, n: int, p: Position) -> bool {
    exists|k: int|
        0 <= k < n && k < report.len() && (#[trigger] report[k]).sensor.distance_to(p)
            <= report[k].sensor.distance_to(report[k].beacon)
}

/// What a scan leaves at `p`, where `base` was before: the mark of a sensor or a beacon,
/// and else `Empty` where nothing was known and a sensor sweeps the place.
pub open spec fn scanned(report: Seq<ReportEntry>, n: int, p: Position, base: Content) -> Content {
    let m = marked(report, report.len() as int, p, base);
    if m == Content::Unknown && swept(report, n, p) {
        Content::Empty
    } else {
        m
    }
}

/// A map of what a report tells about the places around its sensors.
pub struct SensorMap {
    report: Vec<ReportEntry>,
    contents: Vec<Vec<Content>>,
    min_x: i64,
    min_y: i64,
}

impl SensorMap {
    /// The report of the map.
    pub closed spec fn entries(&self) -> Seq<ReportEntry> {
        self.report@
    }

    /// The number of rows.
    pub closed spec fn rows(&self) -> int {
        self.contents@.len() as int
    }

    /// The number of columns.
    pub closed spec fn columns(&self) -> int {
        if self.contents@.len() > 0 {
            self.contents@[0]@.len() as int
        } else {
            0
        }
    }

    /// The least `x` and the least `y` of the map.
    pub closed spec fn corner(&self) -> Position {
        Position { x: self.min_x, y: self.min_y }
    }

    /// The rows are equally long.
    pub closed spec fn wf(&self) -> bool {
        forall|r: int| 0 <= r < self.contents@.len() ==> (#[trigger] self.contents@[r])@.len() == self.columns()
    }

    /// Whether `p` is a place of the map.
    pub open spec fn covers(&self, p: Position) -> bool {
        self.corner().x <= p.x < self.corner().x + self.columns() && self.corner().y <= p.y
            < self.corner().y + self.rows()
    }

    /// What the map holds at `p`.
    pub closed spec fn at(&self, p: Position) -> Content {
        self.contents@[p.y - self.min_y]@[p.x - self.min_x]
    }

    /// Whether the map can be scanned: every sensor and beacon, and every place that a
    /// sensor sweeps, is a place of the map, and what each sensor reaches is a number of
    /// an `i64`.
    pub open spec fn scannable(&self) -> bool {
        forall|k: int|
            0 <= k < self.entries().len() ==> {
                let e = #[trigger] self.entries()[k];
                let d = e.sensor.distance_to(e.beacon);
                &&& self.covers(e.sensor)
                &&& self.covers(e.beacon)
                &&& d <= i64::MAX
                &&& i64::MIN <= e.sensor.x - d && e.sensor.x + d <= i64::MAX
                &&& i64::MIN <= e.sensor.y - d && e.sensor.y + d <= i64::MAX
                &&& self.corner().x <= e.sensor.x - d && e.sensor.x + d < self.corner().x
                    + self.columns()
                &&& self.corner().y <= e.sensor.y - d && e.sensor.y + d < self.corner().y
                    + self.rows()
            }
    }

    /// The row and the column of a place of the map.
    pub fn index(&self, position: &Position) -> (r: (usize, usize))
        requires
            self.wf(),
            self.covers(*position),
        ensures
            r.0 == position.y - self.corner().y,
            r.1 == position.x - self.corner().x,
            r.0 < self.rows(),
            r.1 < self.columns(),
    {
        let rows = self.contents.len();
        let columns = self.contents[0].len();
        let column = position.x as i128 - self.min_x as i128;
        let row = position.y as i128 - self.min_y as i128;
        assert(0 <= row < rows && 0 <= column < columns);
        (row as usize, column as usize)
    }

    /// Puts `content` at `position`.
    pub fn put(&mut self, position: &Position, content: Content)
        requires
            old(self).wf(),
            old(self).covers(*position),
        ensures
            final(self).wf(),
            final(self).entries() == old(self).entries(),
            final(self).rows() == old(self).rows(),
            final(self).columns() == old(self).columns(),
            final(self).corner() == old(self).corner(),
            final(self).at(*position) == content,
            forall|q: Position|
                old(self).covers(q) && q != *position ==> #[trigger] final(self).at(q) == old(
                    self,
                ).at(q),
    {
        let (row, column) = self.index(position);
        let ghost before = self.contents@;
        assert(before[row as int]@.len() == self.columns());
        self.contents[row][column] = content;
        assert(forall|r: int| 0 <= r < before.len() && r != row ==> #[trigger] self.contents@[r] == before[r]);
        assert(self.contents@[row as int]@ == before[row as int]@.update(column as int, content));
        assert(self.contents@[0]@.len() == before[0]@.len());
    }

    /// What the map holds at `position`.
    pub fn get(&self, position: &Position) -> (content: Content)
        requires
            self.wf(),
            self.covers(*position),
        ensures
            content == self.at(*position),
    {
        let (row, column) = self.index(position);
        assert(self.contents@[row as int]@.len() == self.columns());
        self.contents[row][column]
    }

    /// Marks the sensors and the beacons, and then, as `Empty`, every place of which
    /// nothing is known yet and that a sensor sweeps.
    pub fn scan(&mut self)
        requires
            old(self).wf(),
            old(self).scannable(),
        ensures
            final(self).wf(),
            final(self).entries() == old(self).entries(),
            final(self).rows() == old(self).rows(),
            final(self).columns() == old(self).columns(),
            final(self).corner() == old(self).corner(),
            forall|p: Position|
                old(self).covers(p) ==> #[trigger] final(self).at(p) == scanned(
                    old(self).entries(),
                    old(self).entries().len() as int,
                    p,
                    old(self).at(p),
                ),
    {
        let ghost start = *self;
        let ghost report = self.report@;
        let n = self.report.len();
        let mut i: usize = 0;
        while i < n
            invariant
                i <= n,
                n == report.len(),
                self.wf(),
                start.wf(),
                start.scannable(),
                self.report@ == report,
                start.report@ == report,
                self.rows() == start.rows(),
                self.columns() == start.columns(),
                self.corner() == start.corner(),
                forall|p: Position|
                    start.covers(p) ==> #[trigger] self.at(p) == marked(
                        report,
                        i as int,
                        p,
                        start.at(p),
                    ),
            decreases n - i,
        {
            let entry = self.report[i];
            assert(start.entries()[i as int] == entry);
            let ghost before = *self;
            self.put(&entry.sensor, Content::Sensor);
            let ghost middle = *self;
            self.put(&entry.beacon, Content::Beacon);
            proof {
                assert forall|p: Position| start.covers(p) implies #[trigger] self.at(p) == marked(
                    report,
                    i + 1,
                    p,
                    start.at(p),
                ) by {
                    assert(before.at(p) == marked(report, i as int, p, start.at(p)));
                    if p != entry.beacon {
                        assert(self.at(p) == middle.at(p));
                        if p != entry.sensor {
                            assert(middle.at(p) == before.at(p));
                        }
                    }
                }
            }
            i += 1;
        }
        let mut i: usize = 0;
        while i < n
            invariant
                i <= n,
                n == report.len(),
                self.wf(),
                start.wf(),
                start.scannable(),
                self.report@ == report,
                start.report@ == report,
                self.rows() == start.rows(),
                self.columns() == start.columns(),
                self.corner() == start.corner(),
                forall|p: Position|
                    start.covers(p) ==> #[trigger] self.at(p) == scanned(
                        report,
                        i as int,
                        p,
                        start.at(p),
                    ),
            decreases n - i,
        {
            let entry = self.report[i];
            assert(start.entries()[i as int] == entry);
            let distance = entry.sensor.manhattan_distance(&entry.beacon);
            let neighbors = entry.sensor.neighbors_within(distance);
            let ghost around = neighbors@;
            let mut m: usize = 0;
            while m < neighbors.len()
                invariant
                    m <= neighbors.len(),
                    i < n,
                    n == report.len(),
                    self.wf(),
                    start.wf(),
                    start.scannable(),
                    self.report@ == report,
                    start.report@ == report,
                    self.rows() == start.rows(),
                    self.columns() == start.columns(),
                    self.corner() == start.corner(),
                    entry == report[i as int],
                    distance == entry.sensor.distance_to(entry.beacon),
                    around == neighbors@,
                    around == entry.sensor.within(distance as int),
                    forall|p: Position|
                        start.covers(p) ==> #[trigger] self.at(p) == (if marked(
                            report,
                            report.len() as int,
                            p,
                            start.at(p),
                        ) == Content::Unknown && (swept(report, i as int, p) || around.take(
                            m as int,
                        ).contains(p)) {
                            Content::Empty
                        } else {
                            marked(report, report.len() as int, p, start.at(p))
                        }),
                decreases neighbors.len() - m,
            {
                let neighbor = neighbors[m];
                proof {
                    assert(start.entries()[i as int] == entry);
                    lemma_within(entry.sensor, distance as int, neighbor);
                    assert(around[m as int] == neighbor);
                    assert(around.contains(neighbor));
                    assert(entry.sensor.distance_to(neighbor) <= distance);
                    assert(start.covers(neighbor));
                }
                let ghost before = *self;
                if let Content::Unknown = self.get(&neighbor) {
                    self.put(&neighbor, Content::Empty);
                }
                proof {
                    assert(around.take(m + 1) =~= around.take(m as int).push(neighbor));
                    assert forall|p: Position| start.covers(p) implies #[trigger] self.at(p) == (
                    if marked(report, report.len() as int, p, start.at(p)) == Content::Unknown && (
                    swept(report, i as int, p) || around.take(m + 1).contains(p)) {
                        Content::Empty
                    } else {
                        marked(report, report.len() as int, p, start.at(p))
                    }) by {
                        let old_take = around.take(m as int);
                        let new_take = around.take(m + 1);
                        assert(before.at(p) == (if marked(
                            report,
                            report.len() as int,
                            p,
                            start.at(p),
                        ) == Content::Unknown && (swept(report, i as int, p) || old_take.contains(p)) {
                            Content::Empty
                        } else {
                            marked(report, report.len() as int, p, start.at(p))
                        }));
                        if old_take.contains(p) {
                            let k = choose|k: int| 0 <= k < old_take.len() && old_take[k] == p;
                            assert(new_take[k] == p);
                        }
                        if new_take.contains(p) && p != neighbor {
                            let k = choose|k: int| 0 <= k < new_take.len() && new_take[k] == p;
                            assert(old_take[k] == p);
                        }
                        if p == neighbor {
                            assert(new_take[m as int] == p);
                        } else {
                            assert(self.at(p) == before.at(p));
                        }
                    }
                }
                m += 1;
            }
            proof {
                assert(around.take(m as int) =~= around);
                assert(start.entries()[i as int] == entry);
                assert forall|p: Position| start.covers(p) implies #[trigger] self.at(p) == scanned(
                    report,
                    i + 1,
                    p,
                    start.at(p),
                ) by {
                    lemma_within(entry.sensor, distance as int, p);
                    if swept(report, i + 1, p) {
                        let k = choose|k: int|
                            0 <= k < i + 1 && k < report.len() && (#[trigger] report[k]).sensor.distance_to(
                                p,
                            ) <= report[k].sensor.distance_to(report[k].beacon);
                        if k < i {
                            assert(swept(report, i as int, p));
                        }
                    }
                    if swept(report, i as int, p) {
                        let k = choose|k: int|
                            0 <= k < i && k < report.len() && (#[trigger] report[k]).sensor.distance_to(
                                p,
                            ) <= report[k].sensor.distance_to(report[k].beacon);
                        assert(swept(report, i + 1, p));
                    }
                    if around.contains(p) {
                        assert(report[i as int].sensor.distance_to(p) <= report[i as int].sensor.distance_to(
                            report[i as int].beacon,
                        ));
                        assert(swept(report, i + 1, p));
                    }
                }
            }
            i += 1;
        }
    }
}

/// The sensors and beacons of the first entries lie between the least and the greatest
/// coordinates, and no beacon is further from its sensor than the farthest.
pub proof fn lemma_extent(report: Seq<ReportEntry>, n: int, k: int)
    requires
        0 <= k < n <= report.len(),
    ensures
        least_coord(report, true, n) <= report[k].sensor.x <= greatest_coord(report, true, n),
        least_coord(report, true, n) <= report[k].beacon.x <= greatest_coord(report, true, n),
        least_coord(report, false, n) <= report[k].sensor.y <= greatest_coord(report, false, n),
        least_coord(report, false, n) <= report[k].beacon.y <= greatest_coord(report, false, n),
        report[k].sensor.distance_to(report[k].beacon) <= farthest(report, n),
    decreases n,
{
    if k < n - 1 {
        lemma_extent(report, n - 1, k);
    }
}

/// The least `x` of a map of the report: one less than the least `x` of a sensor or
/// beacon less the farthest distance.
pub open spec fn map_min(report: Seq<ReportEntry>, of_x: bool) -> int {
    least_coord(report, of_x, report.len() as int) - farthest(report, report.len() as int) - 1
}

/// One more than the greatest `x` of a map of the report.
pub open spec fn map_max(report: Seq<ReportEntry>, of_x: bool) -> int {
    greatest_coord(report, of_x, report.len() as int) + farthest(report, report.len() as int) + 1
}

/// Whether a map can be made of the report: it has an entry, the corners of the map are
/// numbers of an `i64`, and its rows and columns can be counted by a `usize`.
pub open spec fn mappable(report: Seq<ReportEntry>) -> bool {
    &&& report.len() > 0
    &&& i64::MIN <= map_min(report, true) && map_max(report, true) <= i64::MAX
    &&& i64::MIN <= map_min(report, false) && map_max(report, false) <= i64::MAX
    &&& map_max(report, true) - map_min(report, true) <= usize::MAX
    &&& map_max(report, false) - map_min(report, false) <= usize::MAX
}

impl SensorMap {
    /// The map of a report, scanned; `None` where no map can be made of it.
    pub fn from_report(report: Vec<ReportEntry>) -> (r: Option<SensorMap>)
        ensures
            r is Some <==> mappable(report@),
            r is Some ==> ({
                let map = r.unwrap();
                &&& map.wf()
                &&& map.entries() == report@
                &&& map.corner().x == map_min(report@, true)
                &&& map.corner().y == map_min(report@, false)
                &&& map.columns() == map_max(report@, true) - map_min(report@, true)
                &&& map.rows() == map_max(report@, false) - map_min(report@, false)
                &&& forall|p: Position|
                    map.covers(p) ==> #[trigger] map.at(p) == scanned(
                        report@,
                        report@.len() as int,
                        p,
                        Content::Unknown,
                    )
            }),
    {
        if report.len() == 0 {
            return None;
        }
        let mut lo_x: i64 = i64::MAX;
        let mut lo_y: i64 = i64::MAX;
        let mut hi_x: i64 = i64::MIN;
        let mut hi_y: i64 = i64::MIN;
        let mut far: i128 = -1;
        let mut i: usize = 0;
        while i < report.len()
            invariant
                i <= report.len(),
                lo_x == least_coord(report@, true, i as int),
                lo_y == least_coord(report@, false, i as int),
                hi_x == greatest_coord(report@, true, i as int),
                hi_y == greatest_coord(report@, false, i as int),
                far == farthest(report@, i as int),
                -1 <= far <= 0x2_0000_0000_0000_0000,
            decreases report.len() - i,
        {
            let e = report[i];
            if e.sensor.x < lo_x {
                lo_x = e.sensor.x;
            }
            if e.beacon.x < lo_x {
                lo_x = e.beacon.x;
            }
            if e.sensor.y < lo_y {
                lo_y = e.sensor.y;
            }
            if e.beacon.y < lo_y {
                lo_y = e.beacon.y;
            }
            if e.sensor.x > hi_x {
                hi_x = e.sensor.x;
            }
            if e.beacon.x > hi_x {
                hi_x = e.beacon.x;
            }
            if e.sensor.y > hi_y {
                hi_y = e.sensor.y;
            }
            if e.beacon.y > hi_y {
                hi_y = e.beacon.y;
            }
            let d = e.sensor.wide_distance(&e.beacon);
            if d > far {
                far = d;
            }
            i += 1;
        }
        let min_x: i128 = lo_x as i128 - far - 1;
        let min_y: i128 = lo_y as i128 - far - 1;
        let max_x: i128 = hi_x as i128 + far + 1;
        let max_y: i128 = hi_y as i128 + far + 1;
        if min_x < -0x8000_0000_0000_0000 || min_y < -0x8000_0000_0000_0000 || max_x
            > 0x7fff_ffff_ffff_ffff || max_y > 0x7fff_ffff_ffff_ffff {
            return None;
        }
        proof {
            lemma_extent(report@, report@.len() as int, 0);
        }
        if max_x - min_x > usize::MAX as i128 || max_y - min_y > usize::MAX as i128 {
            return None;
        }
        let rows = (max_y - min_y) as usize;
        let columns = (max_x - min_x) as usize;
        let mut contents: Vec<Vec<Content>> = Vec::new();
        let mut r: usize = 0;
        while r < rows
            invariant
                r <= rows,
                contents.len() == r,
                forall|k: int| 0 <= k < r ==> (#[trigger] contents@[k])@.len() == columns,
                forall|k: int, c: int|
                    0 <= k < r && 0 <= c < columns ==> (#[trigger] contents@[k]@[c])
                        == Content::Unknown,
            decreases rows - r,
        {
            let mut row: Vec<Content> = Vec::new();
            let mut c: usize = 0;
            while c < columns
                invariant
                    c <= columns,
                    row.len() == c,
                    forall|k: int| 0 <= k < c ==> row@[k] == Content::Unknown,
                decreases columns - c,
            {
                row.push(Content::Unknown);
                c += 1;
            }
            contents.push(row);
            r += 1;
        }
        let ghost entries = report@;
        let mut map = SensorMap { report, contents, min_x: min_x as i64, min_y: min_y as i64 };
        proof {
            assert(rows > 0);
            assert(map.columns() == columns);
            assert forall|k: int| 0 <= k < map.entries().len() implies {
                let e = #[trigger] map.entries()[k];
                let d = e.sensor.distance_to(e.beacon);
                &&& map.covers(e.sensor)
                &&& map.covers(e.beacon)
                &&& d <= i64::MAX
                &&& i64::MIN <= e.sensor.x - d && e.sensor.x + d <= i64::MAX
                &&& i64::MIN <= e.sensor.y - d && e.sensor.y + d <= i64::MAX
                &&& map.corner().x <= e.sensor.x - d && e.sensor.x + d < map.corner().x
                    + map.columns()
                &&& map.corner().y <= e.sensor.y - d && e.sensor.y + d < map.corner().y
                    + map.rows()
            } by {
                lemma_extent(entries, entries.len() as int, k);
            }
            assert forall|p: Position| map.covers(p) implies #[trigger] map.at(p)
                == Content::Unknown by {
                assert(map.contents@[p.y - map.min_y]@[p.x - map.min_x] == Content::Unknown);
            }
        }
        let ghost blank = map;
        map.scan();
        proof {
            assert forall|p: Position| map.covers(p) implies #[trigger] map.at(p) == scanned(
                entries,
                entries.len() as int,
                p,
                Content::Unknown,
            ) by {
                assert(blank.covers(p));
                assert(blank.at(p) == Content::Unknown);
            }
        }
        Some(map)
    }

    /// The number of rows and of columns, and the least `x` and `y`.
    pub fn extent(&self) -> (r: (usize, usize, i64, i64))
        requires
            self.wf(),
        ensures
            r.0 == self.rows(),
            r.1 == self.columns(),
            r.2 == self.corner().x,
            r.3 == self.corner().y,
    {
        let rows = self.contents.len();
        let columns = if rows > 0 {
            self.contents[0].len()
        } else {
            0
        };
        (rows, columns, self.min_x, self.min_y)
    }

    /// A drawing of the map: a line for each row, with `.` where nothing is known, `#`
    /// where no beacon can be, `S` for a sensor and `B` for a beacon.
    pub fn render(&self) -> (lines: Vec<Vec<char>>)
        requires
            self.wf(),
        ensures
            lines@.len() == self.rows(),
            forall|r: int| 0 <= r < lines@.len() ==> (#[trigger] lines@[r])@.len() == self.columns(),
            forall|p: Position|
                self.covers(p) ==> lines@[p.y - self.corner().y]@[p.x - self.corner().x]
                    == (#[trigger] self.at(p)).sign(),
    {
        let mut lines: Vec<Vec<char>> = Vec::new();
        let mut r: usize = 0;
        while r < self.contents.len()
            invariant
                r <= self.contents.len(),
                self.wf(),
                lines.len() == r,
                forall|k: int| 0 <= k < r ==> (#[trigger] lines@[k])@.len() == self.columns(),
                forall|k: int, c: int|
                    0 <= k < r && 0 <= c < self.columns() ==> (#[trigger] lines@[k]@[c])
                        == self.contents@[k]@[c].sign(),
            decreases self.contents.len() - r,
        {
            let row = &self.contents[r];
            let mut line: Vec<char> = Vec::new();
            let mut c: usize = 0;
            while c < row.len()
                invariant
                    c <= row.len(),
                    line.len() == c,
                    forall|k: int| 0 <= k < c ==> line@[k] == row@[k].sign(),
                decreases row.len() - c,
            {
                line.push(row[c].symbol());
                c += 1;
            }
            lines.push(line);
            r += 1;
        }
        proof {
            assert forall|p: Position| self.covers(p) implies lines@[p.y - self.corner().y]@[p.x
                - self.corner().x] == (#[trigger] self.at(p)).sign() by {
                let k = p.y - self.min_y;
                let c = p.x - self.min_x;
                assert(lines@[k]@[c] == self.contents@[k]@[c].sign());
            }
        }
        lines
    }
}

/// Whether what each sensor reaches to the left and to the right is a number of an `i64`.
pub fn do_reaches_fit(report: &Vec<ReportEntry>) -> (b: bool)
    ensures
        b == reaches_fit(report@),
{
    let mut i: usize = 0;
    while i < report.len()
        invariant
            i <= report.len(),
            forall|k: int|
                0 <= k < i ==> i64::MIN <= (#[trigger] report@[k]).sensor.x - report@[k].distance
                    <= i64::MAX && i64::MIN <= report@[k].sensor.x + report@[k].distance
                    <= i64::MAX,
        decreases report.len() - i,
    {
        let e = report[i];
        let l = e.sensor.x as i128 - e.distance as i128;
        let r = e.sensor.x as i128 + e.distance as i128;
        if l < -0x8000_0000_0000_0000 || l > 0x7fff_ffff_ffff_ffff || r < -0x8000_0000_0000_0000
            || r > 0x7fff_ffff_ffff_ffff {
            return false;
        }
        i += 1;
    }
    true
}

/// Whether one column left of what each sensor reaches is a number of an `i64`.
pub fn do_edges_fit(report: &Vec<ReportEntry>) -> (b: bool)
    ensures
        b == edges_fit(report@),
{
    let mut i: usize = 0;
    while i < report.len()
        invariant
            i <= report.len(),
            forall|k: int|
                0 <= k < i ==> i64::MIN <= (#[trigger] report@[k]).sensor.x - report@[k].distance
                    - 1 <= i64::MAX,
        decreases report.len() - i,
    {
        let e = report[i];
        let l = e.sensor.x as i128 - e.distance as i128 - 1;
        if l < -0x8000_0000_0000_0000 || l > 0x7fff_ffff_ffff_ffff {
            return false;
        }
        i += 1;
    }
    true
}

/// The number of places of row `row` where no beacon can be, as a wide number.
pub fn wide_empty_positions(report: &Vec<ReportEntry>, row: i64) -> (count: u128)
    requires
        reaches_fit(report@),
    ensures
        count == empty_positions(report@, row),
{
    let mut min_x: i64 = i64::MAX;
    let mut max_x: i64 = i64::MIN;
    let mut i: usize = 0;
    while i < report.len()
        invariant
            i <= report.len(),
            reaches_fit(report@),
            min_x == min_reach(report@, i as int),
            max_x == max_reach(report@, i as int),
        decreases report.len() - i,
    {
        let entry = &report[i];
        let l = entry.sensor.x - entry.distance;
        let r = entry.sensor.x + entry.distance;
        if l < min_x {
            min_x = l;
        }
        if r > max_x {
            max_x = r;
        }
        i += 1;
    }
    let mut count: u128 = 0;
    if min_x > max_x {
        return 0;
    }
    let mut x: i64 = min_x;
    loop
        invariant_except_break
            min_x <= x <= max_x,
            count == count_ruled_out(report@, row, min_x as int, x as int),
            count <= x - min_x,
        invariant
            min_x == min_reach(report@, report.len() as int),
            max_x == max_reach(report@, report.len() as int),
        ensures
            count == empty_positions(report@, row),
        decreases max_x - x,
    {
        if any_in_range(report, &Position::new(x, row)) {
            count += 1;
        }
        if x == max_x {
            break ;
        }
        x += 1;
    }
    count
}

/// The number of places of row `row` where no beacon can be, by the report `s`; `None`
/// where a line writes no entry, what a sensor reaches is no number of an `i64`, or the
/// places are more than a `usize` counts.
pub fn try_num_empty_positions(s: &str, row: i64) -> (r: Option<usize>)
    ensures
        r is Some <==> report_of(trimmed_lines(s@)) is Some && reaches_fit(
            report_of(trimmed_lines(s@)).unwrap(),
        ) && empty_positions(report_of(trimmed_lines(s@)).unwrap(), row) <= usize::MAX,
        r is Some ==> r.unwrap() == empty_positions(report_of(trimmed_lines(s@)).unwrap(), row),
{
    let report = match read_report(s) {
        Some(report) => report,
        None => {
            return None;
        },
    };
    if !do_reaches_fit(&report) {
        return None;
    }
    let count = wide_empty_positions(&report, row);
    if count > usize::MAX as u128 {
        None
    } else {
        Some(count as usize)
    }
}

/// The tuning frequency of the place where the beacon in distress is, by the report `s`;
/// `None` where a line writes no entry, an edge of what a sensor reaches is no number of
/// an `i64`, no place is found, or the frequency is no number of an `i64`.
pub fn try_distress_beacon_tuning_frequency(s: &str, bound: i64) -> (r: Option<i64>)
    ensures
        r is Some <==> report_of(trimmed_lines(s@)) is Some && edges_fit(
            report_of(trimmed_lines(s@)).unwrap(),
        ) && first_found(report_of(trimmed_lines(s@)).unwrap(), bound, 0) is Some && i64::MIN
            <= frequency(first_found(report_of(trimmed_lines(s@)).unwrap(), bound, 0).unwrap())
            <= i64::MAX,
        r is Some ==> r.unwrap() == frequency(
            first_found(report_of(trimmed_lines(s@)).unwrap(), bound, 0).unwrap(),
        ),
{
    let report = match read_report(s) {
        Some(report) => report,
        None => {
            return None;
        },
    };
    if !do_edges_fit(&report) {
        return None;
    }
    let position = match search_ways(&report, bound) {
        Some(position) => position,
        None => {
            return None;
        },
    };
    let f: i128 = position.x as i128 * 4000000 + position.y as i128;
    if f < -0x8000_0000_0000_0000 || f > 0x7fff_ffff_ffff_ffff {
        None
    } else {
        Some(f as i64)
    }
}

} // verus!
