//! The output of a terminal session that walks through directories and lists files, and
//! the total sizes of the directories.

use crate::text::{chars_of, is_word, matches_at, occurs_at, parse_usize, rows_of, rsplit_once, rsplit_once_char, split_once, split_once_char, to_usize, trimmed_rows, views};
use vstd::pervasive::unreached;
use vstd::prelude::*;

verus! {

/// A directory as a value: whether its path starts at the root, and the names on the
/// path.
pub struct Dir {
    pub rooted: bool,
    pub names: Seq<Seq<char>>,
}

/// What a line of the output says.
pub enum Line {
    /// A change of directory to the name.
    Cd(Seq<char>),
    /// A listing or a directory in a listing, which say nothing about sizes.
    Skip,
    /// A file of the size.
    File(nat),
}

/// Whether `name` can be the argument of a change of directory: `..`, `/`, or a name that
/// is not empty, is not `.` and holds no `/`.
pub open spec fn valid_name(name: Seq<char>) -> bool {
    name == "/"@ || (name.len() > 0 && name != "."@ && forall|i: int|
        0 <= i < name.len() ==> #[trigger] name[i] != '/')
}

/// What a line says. A line that starts with `$ cd ` changes to the directory named
/// after its last blank; one that starts with `$ ls` or `dir ` is skipped; any other
/// holds the size of a file before its first blank.
pub open spec fn line_of(line: Seq<char>) -> Option<Line> {
    if occurs_at(line, "$ cd "@, 0) {
        match rsplit_once(line, ' ') {
            Some((_, name)) => if valid_name(name) {
                Some(Line::Cd(name))
            } else {
                None
            },
            None => None,
        }
    } else if occurs_at(line, "$ ls"@, 0) || occurs_at(line, "dir "@, 0) {
        Some(Line::Skip)
    } else {
        match split_once(line, seq![' ']) {
            Some((size, _)) => match parse_usize(size) {
                Some(n) => Some(Line::File(n as nat)),
                None => None,
            },
            None => None,
        }
    }
}

/// The directory after a change to `name` from `d`: `..` leads to the directory above,
/// if there is one, `/` to the root, and another name to the directory of that name in
/// `d`.
pub open spec fn changed(d: Dir, name: Seq<char>) -> Dir {
    if name == ".."@ {
        if d.names.len() > 0 {
            Dir { rooted: d.rooted, names: d.names.drop_last() }
        } else {
            d
        }
    } else if name == "/"@ {
        Dir { rooted: true, names: Seq::empty() }
    } else {
        Dir { rooted: d.rooted, names: d.names.push(name) }
    }
}

/// The place of `d` among the first `n` entries of the table, or `n` where it is not
/// among them.
pub open spec fn place_of(table: Seq<(Dir, nat)>, d: Dir, n: int) -> int
    decreases n,
{
    if n <= 0 {
        0
    } else if place_of(table, d, n - 1) < n - 1 {
        place_of(table, d, n - 1)
    } else if table[n - 1].0 == d {
        n - 1
    } else {
        n
    }
}

/// The table with `size` added to the total of `d`.
pub open spec fn added(table: Seq<(Dir, nat)>, d: Dir, size: nat) -> Seq<(Dir, nat)> {
    let at = place_of(table, d, table.len() as int);
    if at < table.len() {
        table.update(at, (d, table[at].1 + size))
    } else {
        table.push((d, size))
    }
}

/// The table with `size` added to the totals of `d` and of the `k - 1` directories above
/// it.
pub open spec fn charged(table: Seq<(Dir, nat)>, d: Dir, size: nat, k: int) -> Seq<(Dir, nat)>
    decreases k,
{
    if k <= 0 {
        table
    } else {
        added(
            charged(table, d, size, k - 1),
            Dir { rooted: d.rooted, names: d.names.take(d.names.len() - (k - 1)) },
            size,
        )
    }
}

/// The directory one is in and the table of totals after the first `n` lines, or `None`
/// where a line says nothing. One starts in a directory without a name, with an empty
/// table; the size of a file counts for the directory one is in and for every one above
/// it.
pub open spec fn session(lines: Seq<Seq<char>>, n: int) -> Option<(Dir, Seq<(Dir, nat)>)>
    decreases n,
{
    if n <= 0 {
        Some((Dir { rooted: false, names: Seq::empty() }, Seq::empty()))
    } else {
        match (session(lines, n - 1), line_of(lines[n - 1])) {
            (Some((d, table)), Some(Line::Cd(name))) => Some((changed(d, name), table)),
            (Some(state), Some(Line::Skip)) => Some(state),
            (Some((d, table)), Some(Line::File(size))) => Some(
                (d, charged(table, d, size, d.names.len() as int + 1)),
            ),
            _ => None,
        }
    }
}

/// The table of totals of the output.
pub open spec fn totals_of(lines: Seq<Seq<char>>) -> Option<Seq<(Dir, nat)>> {
    match session(lines, lines.len() as int) {
        Some((_, table)) => Some(table),
        None => None,
    }
}

/// Whether every total of the table is a number of a `usize`.
pub open spec fn totals_fit(table: Seq<(Dir, nat)>) -> bool {
    forall|i: int| 0 <= i < table.len() ==> (#[trigger] table[i]).1 <= usize::MAX
}

/// The sum of the totals of at most 100000 among the first `n`.
pub open spec fn small_sum(table: Seq<(Dir, nat)>, n: int) -> nat
    decreases n,
{
    if n <= 0 {
        0
    } else {
        small_sum(table, n - 1) + if table[n - 1].1 <= 100000 {
            table[n - 1].1
        } else {
            0nat
        }
    }
}

/// Whether `used` is the greatest total of the table.
pub open spec fn is_greatest(table: Seq<(Dir, nat)>, used: nat) -> bool {
    (exists|i: int| 0 <= i < table.len() && (#[trigger] table[i]).1 == used) && forall|i: int|
        0 <= i < table.len() ==> (#[trigger] table[i]).1 <= used
}

/// Whether `size` is the least total of the table that, deleted, leaves 30000000 free of
/// 70000000, the greatest total being what is used.
pub open spec fn is_least_to_free(table: Seq<(Dir, nat)>, size: nat) -> bool {
    exists|used: nat|
        #[trigger] is_greatest(table, used) && used <= 70000000 && (exists|i: int|
            0 <= i < table.len() && (#[trigger] table[i]).1 == size) && size + (70000000 - used)
            >= 30000000 && forall|i: int|
            0 <= i < table.len() && (#[trigger] table[i]).1 + (70000000 - used) >= 30000000
                ==> size <= table[i].1
}

/// A directory: whether its path starts at the root, and the names on the path.
#[derive(Debug)]
pub struct Path {
    pub rooted: bool,
    pub names: Vec<Vec<char>>,
}

impl View for Path {
    type V = Dir;

    open spec fn view(&self) -> Dir {
        Dir { rooted: self.rooted, names: views(self.names@) }
    }
}

/// The entries of a table as values.
pub open spec fn entries(v: Seq<(Path, usize)>) -> Seq<(Dir, nat)> {
    Seq::new(v.len(), |i: int| (v[i].0@, v[i].1 as nat))
}

/// Whether two texts are the same.
fn same_text(a: &Vec<char>, b: &Vec<char>) -> (r: bool)
    ensures
        r == (a@ == b@),
{
    if a.len() != b.len() {
        return false;
    }
    let mut i: usize = 0;
    while i < a.len()
        invariant
            i <= a.len(),
            a.len() == b.len(),
            forall|k: int| 0 <= k < i ==> a@[k] == b@[k],
        decreases a.len() - i,
    {
        if a[i] != b[i] {
            return false;
        }
        i += 1;
    }
    assert(a@ =~= b@);
    true
}

/// A copy of the text.
fn copy_text(a: &Vec<char>) -> (r: Vec<char>)
    ensures
        r@ == a@,
{
    let mut r: Vec<char> = Vec::new();
    let mut i: usize = 0;
    while i < a.len()
        invariant
            i <= a.len(),
            r@ == a@.take(i as int),
        decreases a.len() - i,
    {
        r.push(a[i]);
        assert(a@.take(i + 1) =~= a@.take(i as int).push(a@[i as int]));
        i += 1;
    }
    assert(a@.take(i as int) =~= a@);
    r
}

impl Path {
    /// Whether this is the directory of the first `n` names of `other`.
    pub fn is_prefix_of(&self, other: &Path, n: usize) -> (b: bool)
        requires
            n <= other.names.len(),
        ensures
            b == (self@ == (Dir { rooted: other.rooted, names: other@.names.take(n as int) })),
    {
        let ghost want = other@.names.take(n as int);
        if self.rooted != other.rooted || self.names.len() != n {
            if self.names.len() != n {
                assert(self@.names.len() != want.len());
            }
            return false;
        }
        let mut i: usize = 0;
        while i < n
            invariant
                i <= n,
                n <= other.names.len(),
                self.names.len() == n,
                want == other@.names.take(n as int),
                forall|k: int| 0 <= k < i ==> self@.names[k] == want[k],
            decreases n - i,
        {
            assert(self@.names[i as int] == self.names@[i as int]@);
            assert(want[i as int] == other.names@[i as int]@);
            if !same_text(&self.names[i], &other.names[i]) {
                return false;
            }
            i += 1;
        }
        assert(self@.names =~= want);
        true
    }

    /// The directory of the first `n` names of this one.
    pub fn prefix(&self, n: usize) -> (p: Path)
        requires
            n <= self.names.len(),
        ensures
            p@ == (Dir { rooted: self.rooted, names: self@.names.take(n as int) }),
    {
        let mut names: Vec<Vec<char>> = Vec::new();
        let mut i: usize = 0;
        while i < n
            invariant
                i <= n,
                n <= self.names.len(),
                names.len() == i,
                forall|k: int| 0 <= k < i ==> (#[trigger] names@[k])@ == self.names@[k]@,
            decreases n - i,
        {
            names.push(copy_text(&self.names[i]));
            i += 1;
        }
        let p = Path { rooted: self.rooted, names };
        assert(p@.names =~= self@.names.take(n as int));
        p
    }

    /// Changes to the directory `name`.
    pub fn change(&mut self, name: &Vec<char>)
        ensures
            final(self)@ == changed(old(self)@, name@),
    {
        let ghost before = self@;
        if is_word(name, "..") {
            if self.names.len() > 0 {
                self.names.pop();
                assert(self@.names =~= before.names.drop_last());
            }
        } else if is_word(name, "/") {
            self.rooted = true;
            self.names = Vec::new();
            assert(self@.names =~= Seq::<Seq<char>>::empty());
        } else {
            self.names.push(copy_text(name));
            assert(self@.names =~= before.names.push(name@));
        }
    }
}

/// Adds `size` to the total of the first `n` names of `d`. Gives `false`, and leaves the
/// table as it is, where the total would be more than a `usize` holds.
pub fn add_size(table: &mut Vec<(Path, usize)>, d: &Path, n: usize, size: usize) -> (ok: bool)
    requires
        n <= d.names.len(),
    ensures
        ok ==> entries(final(table)@) == added(
            entries(old(table)@),
            Dir { rooted: d.rooted, names: d@.names.take(n as int) },
            size as nat,
        ),
        !ok ==> final(table)@ == old(table)@ && !totals_fit(
            added(
                entries(old(table)@),
                Dir { rooted: d.rooted, names: d@.names.take(n as int) },
                size as nat,
            ),
        ),
{
    let ghost dir = Dir { rooted: d.rooted, names: d@.names.take(n as int) };
    let ghost before = entries(table@);
    let mut i: usize = 0;
    while i < table.len()
        invariant
            i <= table.len(),
            n <= d.names.len(),
            table@ == old(table)@,
            before == entries(table@),
            dir == (Dir { rooted: d.rooted, names: d@.names.take(n as int) }),
            place_of(before, dir, i as int) == i,
        decreases table.len() - i,
    {
        assert(before[i as int].0 == table@[i as int].0@);
        if table[i].0.is_prefix_of(d, n) {
            proof {
                lemma_place_found(before, dir, i as int, before.len() as int);
            }
            let total = table[i].1;
            if size > usize::MAX - total {
                assert(added(before, dir, size as nat)[i as int].1 > usize::MAX);
                return false;
            }
            table[i].1 = total + size;
            assert(entries(table@) =~= before.update(
                i as int,
                (dir, (before[i as int].1 + size) as nat),
            ));
            return true;
        }
        i += 1;
    }
    table.push((d.prefix(n), size));
    assert(entries(table@) =~= before.push((dir, size as nat)));
    true
}

/// Once a directory is found at a place, it is found there among more entries too.
pub proof fn lemma_place_found(table: Seq<(Dir, nat)>, d: Dir, at: int, n: int)
    requires
        0 <= at < n <= table.len(),
        place_of(table, d, at) == at,
        table[at].0 == d,
    ensures
        place_of(table, d, n) == at,
    decreases n - at,
{
    if n > at + 1 {
        lemma_place_found(table, d, at, n - 1);
    }
}

/// The place that is found lies among the entries or is their number.
pub proof fn lemma_place_bound(table: Seq<(Dir, nat)>, d: Dir, n: int)
    requires
        0 <= n,
    ensures
        0 <= place_of(table, d, n) <= n,
    decreases n,
{
    if n > 0 {
        lemma_place_bound(table, d, n - 1);
    }
}

/// Adding to a total keeps the others, so that a table that does not fit does not fit
/// after more has been added.
pub proof fn lemma_added_keeps(table: Seq<(Dir, nat)>, d: Dir, size: nat)
    ensures
        added(table, d, size).len() >= table.len(),
        forall|i: int|
            0 <= i < table.len() ==> (#[trigger] added(table, d, size)[i]).1 >= table[i].1,
        !totals_fit(table) ==> !totals_fit(added(table, d, size)),
{
    lemma_place_bound(table, d, table.len() as int);
    if !totals_fit(table) {
        let i = choose|i: int| 0 <= i < table.len() && !((#[trigger] table[i]).1 <= usize::MAX);
        assert(added(table, d, size)[i].1 >= table[i].1);
    }
}

/// Charging more directories keeps a table that does not fit from fitting.
pub proof fn lemma_charged_keeps(table: Seq<(Dir, nat)>, d: Dir, size: nat, m: int, k: int)
    requires
        m <= k,
        !totals_fit(charged(table, d, size, m)),
    ensures
        !totals_fit(charged(table, d, size, k)),
    decreases k - m,
{
    if m < k {
        lemma_charged_keeps(table, d, size, m, k - 1);
        lemma_added_keeps(
            charged(table, d, size, k - 1),
            Dir { rooted: d.rooted, names: d.names.take(d.names.len() - (k - 1)) },
            size,
        );
    }
}

/// What a line says, with the size of a file as a `usize`.
pub enum Entry {
    Cd(Vec<char>),
    Skip,
    File(usize),
}

/// Whether the entry is what the line says.
pub open spec fn says(e: Entry, l: Line) -> bool {
    match (e, l) {
        (Entry::Cd(name), Line::Cd(n)) => name@ == n,
        (Entry::Skip, Line::Skip) => true,
        (Entry::File(size), Line::File(n)) => size == n,
        _ => false,
    }
}

/// Whether `name` can be the argument of a change of directory.
fn is_valid_name(name: &Vec<char>) -> (b: bool)
    ensures
        b == valid_name(name@),
{
    if is_word(name, "/") {
        return true;
    }
    if name.len() == 0 || is_word(name, ".") {
        return false;
    }
    let mut i: usize = 0;
    while i < name.len()
        invariant
            i <= name.len(),
            name@ != "/"@,
            name@ != "."@,
            name.len() > 0,
            forall|k: int| 0 <= k < i ==> #[trigger] name@[k] != '/',
        decreases name.len() - i,
    {
        if name[i] == '/' {
            assert(name@[i as int] == '/');
            return false;
        }
        i += 1;
    }
    true
}

/// Reads a line of the output.
pub fn parse_line(line: &Vec<char>) -> (r: Option<Entry>)
    ensures
        r is Some <==> line_of(line@) is Some,
        r is Some ==> says(r.unwrap(), line_of(line@).unwrap()),
{
    let cd = chars_of("$ cd ");
    let ls = chars_of("$ ls");
    let dir = chars_of("dir ");
    if matches_at(line, &cd, 0) {
        match rsplit_once_char(line, ' ') {
            Some((_, name)) => if is_valid_name(&name) {
                Some(Entry::Cd(name))
            } else {
                None
            },
            None => None,
        }
    } else if matches_at(line, &ls, 0) || matches_at(line, &dir, 0) {
        Some(Entry::Skip)
    } else {
        match split_once_char(line, ' ') {
            Some((size, _)) => match to_usize(&size) {
                Some(n) => Some(Entry::File(n)),
                None => None,
            },
            None => None,
        }
    }
}

/// Where the first lines say nothing, all of them say nothing.
pub proof fn lemma_session_fails(lines: Seq<Seq<char>>, m: int, n: int)
    requires
        m <= n,
        session(lines, m) is None,
    ensures
        session(lines, n) is None,
    decreases n - m,
{
    if m < n {
        lemma_session_fails(lines, m, n - 1);
    }
}

/// Where the table does not fit after the first lines, it does not fit after all of them,
/// if they say anything.
pub proof fn lemma_session_keeps(lines: Seq<Seq<char>>, m: int, n: int)
    requires
        0 <= m <= n,
        session(lines, m) is Some,
        !totals_fit(session(lines, m).unwrap().1),
    ensures
        session(lines, n) is Some ==> !totals_fit(session(lines, n).unwrap().1),
    decreases n - m,
{
    if m < n {
        lemma_session_keeps(lines, m, n - 1);
        if session(lines, n) is Some {
            let before = session(lines, n - 1).unwrap();
            match line_of(lines[n - 1]) {
                Some(Line::File(size)) => {
                    lemma_charged_keeps(
                        before.1,
                        before.0,
                        size,
                        0,
                        before.0.names.len() as int + 1,
                    );
                },
                _ => {},
            }
        }
    }
}

/// The totals of the directories of the output `s`, or `None` where a line says nothing
/// or a total is more than a `usize` holds.
pub fn parse_output(s: &str) -> (r: Option<Vec<(Path, usize)>>)
    ensures
        r is Some <==> totals_of(trimmed_rows(s@)) is Some && totals_fit(
            totals_of(trimmed_rows(s@)).unwrap(),
        ),
        r is Some ==> entries(r.unwrap()@) == totals_of(trimmed_rows(s@)).unwrap(),
{
    let lines = rows_of(s);
    let ghost rows = views(lines@);
    let mut sizes: Vec<(Path, usize)> = Vec::new();
    let mut path = Path { rooted: false, names: Vec::new() };
    let mut i: usize = 0;
    proof {
        assert(path@.names =~= Seq::<Seq<char>>::empty());
        assert(entries(sizes@) =~= Seq::<(Dir, nat)>::empty());
    }
    while i < lines.len()
        invariant
            i <= lines.len(),
            rows == views(lines@),
            rows == trimmed_rows(s@),
            session(rows, i as int) == Some((path@, entries(sizes@))),
        decreases lines.len() - i,
    {
        assert(rows[i as int] == lines@[i as int]@);
        let entry = match parse_line(&lines[i]) {
            Some(entry) => entry,
            None => {
                proof {
                    assert(session(rows, i + 1) is None);
                    lemma_session_fails(rows, i + 1, rows.len() as int);
                }
                return None;
            },
        };
        match entry {
            Entry::Cd(name) => {
                path.change(&name);
            },
            Entry::Skip => {},
            Entry::File(size) => {
                let ghost table = entries(sizes@);
                let ghost d = path@;
                let n = path.names.len();
                let mut k: usize = 0;
                loop
                    invariant_except_break
                        k <= n,
                        entries(sizes@) == charged(table, d, size as nat, k as int),
                    invariant
                        n == path.names.len(),
                        d == path@,
                        i < lines.len(),
                        rows == views(lines@),
                        rows == trimmed_rows(s@),
                        session(rows, i as int) == Some((d, table)),
                        line_of(rows[i as int]) == Some(Line::File(size as nat)),
                    ensures
                        entries(sizes@) == charged(table, d, size as nat, n + 1),
                    decreases n - k,
                {
                    if !add_size(&mut sizes, &path, n - k, size) {
                        proof {
                            lemma_charged_keeps(table, d, size as nat, k + 1, n + 1);
                            assert(session(rows, i + 1) == Some(
                                (d, charged(table, d, size as nat, n + 1)),
                            ));
                            lemma_session_keeps(rows, i + 1, rows.len() as int);
                        }
                        return None;
                    }
                    if k == n {
                        break ;
                    }
                    k += 1;
                }
            },
        }
        i += 1;
    }
    proof {
        assert forall|j: int| 0 <= j < entries(sizes@).len() implies (#[trigger] entries(sizes@)[j]).1
            <= usize::MAX by {}
    }
    Some(sizes)
}

/// The sum of the totals of at most 100000, or `None` where the sum is more than a
/// `usize` holds.
pub fn sum_small(table: &Vec<(Path, usize)>) -> (r: Option<usize>)
    ensures
        r is Some <==> small_sum(entries(table@), table@.len() as int) <= usize::MAX,
        r is Some ==> r.unwrap() == small_sum(entries(table@), table@.len() as int),
{
    let ghost t = entries(table@);
    let mut sum: usize = 0;
    let mut i: usize = 0;
    while i < table.len()
        invariant
            i <= table.len(),
            t == entries(table@),
            sum == small_sum(t, i as int),
        decreases table.len() - i,
    {
        let size = table[i].1;
        assert(t[i as int].1 == size);
        if size <= 100000 {
            if size > usize::MAX - sum {
                proof {
                    lemma_small_sum_grows(t, i + 1, t.len() as int);
                }
                return None;
            }
            sum += size;
        }
        i += 1;
    }
    Some(sum)
}

/// A sum over more entries is at least the sum over fewer.
pub proof fn lemma_small_sum_grows(table: Seq<(Dir, nat)>, m: int, n: int)
    requires
        m <= n,
    ensures
        small_sum(table, m) <= small_sum(table, n),
    decreases n - m,
{
    if m < n {
        lemma_small_sum_grows(table, m, n - 1);
    }
}

/// The least total that, deleted, leaves enough free, or `None` where the table is empty
/// or more is used than there is.
pub fn least_to_free(table: &Vec<(Path, usize)>) -> (r: Option<usize>)
    ensures
        r is Some ==> is_least_to_free(entries(table@), r.unwrap() as nat),
        r is None ==> forall|size: nat| !is_least_to_free(entries(table@), size),
{
    let ghost t = entries(table@);
    if table.len() == 0 {
        assert forall|size: nat| !is_least_to_free(t, size) by {
            if is_least_to_free(t, size) {
                let used = choose|used: nat| #[trigger] is_greatest(t, used);
            }
        }
        return None;
    }
    let mut used: usize = table[0].1;
    let mut i: usize = 1;
    assert(t[0].1 == used);
    while i < table.len()
        invariant
            1 <= i <= table.len(),
            t == entries(table@),
            exists|k: int| 0 <= k < i && (#[trigger] t[k]).1 == used,
            forall|k: int| 0 <= k < i ==> (#[trigger] t[k]).1 <= used,
        decreases table.len() - i,
    {
        assert(t[i as int].1 == table@[i as int].1);
        if table[i].1 > used {
            used = table[i].1;
        }
        i += 1;
    }
    assert(is_greatest(t, used as nat));
    if used > 70000000 {
        assert forall|size: nat| !is_least_to_free(t, size) by {
            if is_least_to_free(t, size) {
                let other = choose|other: nat|
                    #[trigger] is_greatest(t, other) && other <= 70000000;
                let k = choose|k: int| 0 <= k < t.len() && (#[trigger] t[k]).1 == used;
                assert(t[k].1 <= other);
            }
        }
        return None;
    }
    let unused: usize = 70000000 - used;
    let mut best: usize = used;
    let mut i: usize = 0;
    while i < table.len()
        invariant
            i <= table.len(),
            t == entries(table@),
            used <= 70000000,
            unused == 70000000 - used,
            is_greatest(t, used as nat),
            best + unused >= 30000000,
            exists|k: int| 0 <= k < t.len() && (#[trigger] t[k]).1 == best,
            forall|k: int|
                0 <= k < i && (#[trigger] t[k]).1 + unused >= 30000000 ==> best <= t[k].1,
        decreases table.len() - i,
    {
        let size = table[i].1;
        assert(t[i as int].1 == size);
        if size as u128 + unused as u128 >= 30000000 && size < best {
            best = size;
        }
        i += 1;
    }
    Some(best)
}

/// The sum of the totals of the directories of at most 100000.
pub fn total_size_p1(s: &str) -> (sum: usize)
    requires
        totals_of(trimmed_rows(s@)) is Some,
        totals_fit(totals_of(trimmed_rows(s@)).unwrap()),
        small_sum(
            totals_of(trimmed_rows(s@)).unwrap(),
            totals_of(trimmed_rows(s@)).unwrap().len() as int,
        ) <= usize::MAX,
    ensures
        sum == small_sum(
            totals_of(trimmed_rows(s@)).unwrap(),
            totals_of(trimmed_rows(s@)).unwrap().len() as int,
        ),
{
    let v = match parse_output(s) {
        Some(v) => v,
        None => unreached(),
    };
    match sum_small(&v) {
        Some(sum) => sum,
        None => unreached(),
    }
}

/// The total of the smallest directory that, deleted, leaves 30000000 free of 70000000.
pub fn total_size_p2(s: &str) -> (size: usize)
    requires
        totals_of(trimmed_rows(s@)) is Some,
        totals_fit(totals_of(trimmed_rows(s@)).unwrap()),
        exists|size: nat| is_least_to_free(totals_of(trimmed_rows(s@)).unwrap(), size),
    ensures
        is_least_to_free(totals_of(trimmed_rows(s@)).unwrap(), size as nat),
{
    let v = match parse_output(s) {
        Some(v) => v,
        None => unreached(),
    };
    match least_to_free(&v) {
        Some(size) => size,
        None => unreached(),
    }
}

} // verus!
