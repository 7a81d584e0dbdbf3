//! Text as sequences of characters: trimming, splitting and decimal numbers.

use vstd::prelude::*;

verus! {

/// Whether `c` has the Unicode property `White_Space`.
pub open spec fn is_space(c: char) -> bool {
    let n = c as u32;
    ||| 0x09 <= n <= 0x0d
    ||| n == 0x20
    ||| n == 0x85
    ||| n == 0xa0
    ||| n == 0x1680
    ||| 0x2000 <= n <= 0x200a
    ||| n == 0x2028
    ||| n == 0x2029
    ||| n == 0x202f
    ||| n == 0x205f
    ||| n == 0x3000
}

/// `s` without its leading white space.
pub open spec fn trim_start(s: Seq<char>) -> Seq<char>
    decreases s.len(),
{
    if s.len() > 0 && is_space(s[0]) {
        trim_start(s.skip(1))
    } else {
        s
    }
}

/// `s` without its trailing white space.
pub open spec fn trim_end(s: Seq<char>) -> Seq<char>
    decreases s.len(),
{
    if s.len() > 0 && is_space(s.last()) {
        trim_end(s.drop_last())
    } else {
        s
    }
}

/// `s` without leading and trailing white space.
pub open spec fn trim(s: Seq<char>) -> Seq<char> {
    trim_end(trim_start(s))
}

/// The characters of `s`, in order.
pub fn chars_of(s: &str) -> (v: Vec<char>)
    ensures
        v@ == s@,
{
    broadcast use vstd::string::group_string_axioms;

    let mut v: Vec<char> = Vec::new();
    for c in it: s.chars()
        invariant
            it.seq() == s@,
            v@ == it.seq().take(it.index()),
    {
        v.push(c);
        assert(v@ =~= it.seq().take(it.index() + 1));
    }
    assert(v@ =~= s@);
    v
}

/// Tests a character for the Unicode property `White_Space`.
pub fn is_whitespace(c: char) -> (b: bool)
    ensures
        b == is_space(c),
{
    let n: u32 = c as u32;
    (0x09 <= n && n <= 0x0d) || n == 0x20 || n == 0x85 || n == 0xa0 || n == 0x1680 || (0x2000 <= n
        && n <= 0x200a) || n == 0x2028 || n == 0x2029 || n == 0x202f || n == 0x205f || n == 0x3000
}

/// The part of `v` from `from` up to `to`, copied.
pub fn slice_of(v: &Vec<char>, from: usize, to: usize) -> (r: Vec<char>)
    requires
        from <= to <= v.len(),
    ensures
        r@ == v@.subrange(from as int, to as int),
{
    let mut r: Vec<char> = Vec::new();
    let mut i: usize = from;
    while i < to
        invariant
            from <= i <= to <= v.len(),
            r@ == v@.subrange(from as int, i as int),
        decreases to - i,
    {
        r.push(v[i]);
        i += 1;
        assert(r@ =~= v@.subrange(from as int, i as int));
    }
    r
}

/// Removes leading and trailing white space.
pub fn trimmed(v: &Vec<char>) -> (r: Vec<char>)
    ensures
        r@ == trim(v@),
{
    let mut from: usize = 0;
    assert(v@.skip(0) =~= v@);
    while from < v.len() && is_whitespace(v[from])
        invariant
            from <= v.len(),
            trim_start(v@) == trim_start(v@.skip(from as int)),
        decreases v.len() - from,
    {
        assert(v@.skip(from as int).skip(1) =~= v@.skip(from + 1));
        from += 1;
    }
    assert(trim_start(v@) == v@.skip(from as int));
    let mut to: usize = v.len();
    while to > from && is_whitespace(v[to - 1])
        invariant
            from <= to <= v.len(),
            trim(v@) == trim_end(v@.subrange(from as int, to as int)),
        decreases to,
    {
        assert(v@.subrange(from as int, to as int).drop_last() =~= v@.subrange(
            from as int,
            to - 1,
        ));
        to -= 1;
    }
    proof {
        let t = v@.subrange(from as int, to as int);
        if to > from {
            assert(t.last() == v@[to - 1]);
        } else {
            assert(t.len() == 0);
        }
        if from < v.len() {
            assert(t.len() > 0 ==> t[0] == v@[from as int]);
        }
    }
    slice_of(v, from, to)
}

/// The texts that a list of character vectors holds, in order.
pub open spec fn views(parts: Seq<Vec<char>>) -> Seq<Seq<char>> {
    Seq::new(parts.len(), |i: int| parts[i]@)
}

/// Whether `pat` stands in `s` at place `i`.
pub open spec fn occurs_at(s: Seq<char>, pat: Seq<char>, i: int) -> bool {
    0 <= i && i + pat.len() <= s.len() && s.subrange(i, i + pat.len()) == pat
}

/// The first place at or after `from` where `pat` stands in `s`, or `s.len()` if there is
/// none.
pub open spec fn find_from(s: Seq<char>, pat: Seq<char>, from: int) -> int
    decreases s.len() - from,
{
    if from < 0 || from >= s.len() {
        s.len() as int
    } else if occurs_at(s, pat, from) {
        from
    } else {
        find_from(s, pat, from + 1)
    }
}

/// The parts of `s` between the places where `pat` stands, taken from the left without
/// overlap, from place `from` on. A text without `pat` is one part.
pub open spec fn split_from(s: Seq<char>, pat: Seq<char>, from: int) -> Seq<Seq<char>>
    decreases s.len() - from,
{
    let at = find_from(s, pat, from);
    if 0 <= from <= at < s.len() && pat.len() > 0 && at + pat.len() <= s.len() {
        seq![s.subrange(from, at)] + split_from(s, pat, at + pat.len())
    } else if 0 <= from <= s.len() {
        seq![s.subrange(from, s.len() as int)]
    } else {
        seq![Seq::empty()]
    }
}

/// The parts of `s` between the places where `pat` stands.
pub open spec fn split(s: Seq<char>, pat: Seq<char>) -> Seq<Seq<char>> {
    split_from(s, pat, 0)
}

/// What `find_from` gives is the first place from `from` on where `pat` stands.
pub proof fn lemma_find_from(s: Seq<char>, pat: Seq<char>, from: int)
    requires
        0 <= from <= s.len(),
    ensures
        from <= find_from(s, pat, from) <= s.len(),
        find_from(s, pat, from) < s.len() ==> occurs_at(s, pat, find_from(s, pat, from)),
        forall|i: int| from <= i < find_from(s, pat, from) ==> !occurs_at(s, pat, i),
        find_from(s, pat, from) == s.len() ==> forall|i: int|
            from <= i && i < s.len() ==> !occurs_at(s, pat, i),
    decreases s.len() - from,
{
    if from >= s.len() {
    } else if occurs_at(s, pat, from) {
    } else {
        lemma_find_from(s, pat, from + 1);
    }
}

/// Whether `pat` stands in `v` at place `i`.
pub fn matches_at(v: &Vec<char>, pat: &Vec<char>, i: usize) -> (b: bool)
    ensures
        b == occurs_at(v@, pat@, i as int),
{
    if pat.len() > v.len() || i > v.len() - pat.len() {
        return false;
    }
    let mut k: usize = 0;
    while k < pat.len()
        invariant
            k <= pat.len(),
            i + pat.len() <= v.len(),
            forall|j: int| 0 <= j < k ==> v@[i + j] == pat@[j],
        decreases pat.len() - k,
    {
        if v[i + k] != pat[k] {
            assert(v@.subrange(i as int, i + pat.len())[k as int] != pat@[k as int]);
            return false;
        }
        k += 1;
    }
    assert(v@.subrange(i as int, i + pat.len()) =~= pat@);
    true
}

/// The first place at or after `from` where `pat` stands in `v`, or `v.len()`.
pub fn find(v: &Vec<char>, pat: &Vec<char>, from: usize) -> (at: usize)
    requires
        from <= v.len(),
    ensures
        at == find_from(v@, pat@, from as int),
        from <= at <= v.len(),
{
    let mut i: usize = from;
    while i < v.len()
        invariant
            from <= i <= v.len(),
            find_from(v@, pat@, from as int) == find_from(v@, pat@, i as int),
        decreases v.len() - i,
    {
        if matches_at(v, pat, i) {
            proof {
                lemma_find_from(v@, pat@, i as int);
            }
            return i;
        }
        i += 1;
    }
    proof {
        lemma_find_from(v@, pat@, i as int);
    }
    i
}

/// Cuts `v` at every place where `pat` stands.
pub fn split_on(v: &Vec<char>, pat: &Vec<char>) -> (parts: Vec<Vec<char>>)
    requires
        pat.len() > 0,
    ensures
        views(parts@) == split(v@, pat@),
        parts.len() > 0,
{
    let mut parts: Vec<Vec<char>> = Vec::new();
    let mut from: usize = 0;
    loop
        invariant_except_break
            from <= v.len(),
            pat.len() > 0,
            split(v@, pat@) == views(parts@) + split_from(v@, pat@, from as int),
        ensures
            views(parts@) == split(v@, pat@),
            parts.len() > 0,
        decreases v.len() - from,
    {
        let at = find(v, pat, from);
        let ghost before = parts@;
        if at < v.len() {
            parts.push(slice_of(v, from, at));
            proof {
                lemma_find_from(v@, pat@, from as int);
                assert(views(parts@) =~= views(before) + seq![v@.subrange(from as int, at as int)]);
                assert(views(before) + split_from(v@, pat@, from as int) =~= views(parts@)
                    + split_from(v@, pat@, at + pat.len()));
            }
            from = at + pat.len();
        } else {
            parts.push(slice_of(v, from, v.len()));
            proof {
                assert(views(parts@) =~= views(before) + seq![
                    v@.subrange(from as int, v.len() as int),
                ]);
            }
            break ;
        }
    }
    parts
}

/// `s` without one carriage return at its end.
pub open spec fn strip_cr(s: Seq<char>) -> Seq<char> {
    if s.len() > 0 && s.last() == '\r' {
        s.drop_last()
    } else {
        s
    }
}

/// The number of lines of a text that `parts` holds cut at its line feeds: a last part
/// that is empty is no line.
pub open spec fn lines_len(parts: Seq<Seq<char>>) -> int {
    if parts.len() > 0 && parts.last().len() == 0 {
        parts.len() - 1
    } else {
        parts.len() as int
    }
}

/// The lines of `s`. A line ends with a line feed, or with a carriage return and a line
/// feed, which are not part of it; what follows the last line feed is a line if it is not
/// empty.
pub open spec fn lines(s: Seq<char>) -> Seq<Seq<char>> {
    let parts = split(s, seq!['\n']);
    Seq::new(
        lines_len(parts) as nat,
        |i: int|
            if i < parts.len() - 1 {
                strip_cr(parts[i])
            } else {
                parts[i]
            },
    )
}

/// The parts of `s` that end where `pat` stands; what follows the last `pat` is a part if
/// it is not empty.
pub open spec fn split_terminator(s: Seq<char>, pat: Seq<char>) -> Seq<Seq<char>> {
    let parts = split(s, pat);
    parts.take(lines_len(parts))
}

/// A vector of the one character `c`.
pub fn one_char(c: char) -> (v: Vec<char>)
    ensures
        v@ == seq![c],
{
    let mut v: Vec<char> = Vec::new();
    v.push(c);
    assert(v@ =~= seq![c]);
    v
}

/// Cuts `v` at every `c`.
pub fn split_char(v: &Vec<char>, c: char) -> (parts: Vec<Vec<char>>)
    ensures
        views(parts@) == split(v@, seq![c]),
        parts.len() > 0,
{
    let pat = one_char(c);
    split_on(v, &pat)
}

/// The parts of `v` that end where `pat` stands.
pub fn split_terminator_on(v: &Vec<char>, pat: &Vec<char>) -> (parts: Vec<Vec<char>>)
    requires
        pat.len() > 0,
    ensures
        views(parts@) == split_terminator(v@, pat@),
{
    let mut parts = split_on(v, pat);
    let ghost all = parts@;
    assert(views(all).last() == all.last()@);
    if parts[parts.len() - 1].len() == 0 {
        parts.pop();
        assert(views(parts@) =~= views(all).take(all.len() - 1));
    } else {
        assert(views(parts@) =~= views(all).take(all.len() as int));
    }
    parts
}

/// The lines of `v`.
pub fn lines_of(v: &Vec<char>) -> (out: Vec<Vec<char>>)
    ensures
        views(out@) == lines(v@),
{
    let parts = split_char(v, '\n');
    assert(views(parts@).last() == parts@.last()@);
    let n = if parts[parts.len() - 1].len() == 0 {
        parts.len() - 1
    } else {
        parts.len()
    };
    let mut out: Vec<Vec<char>> = Vec::new();
    let mut i: usize = 0;
    while i < n
        invariant
            i <= n <= parts.len(),
            n == lines_len(views(parts@)),
            views(parts@) == split(v@, seq!['\n']),
            out.len() == i,
            forall|j: int| 0 <= j < i ==> (#[trigger] out@[j])@ == lines(v@)[j],
        decreases n - i,
    {
        let part = &parts[i];
        assert(views(parts@)[i as int] == part@);
        let m = part.len();
        let line = if i + 1 < parts.len() && m > 0 && part[m - 1] == '\r' {
            slice_of(part, 0, m - 1)
        } else {
            slice_of(part, 0, m)
        };
        assert(part@.subrange(0, m as int) =~= part@);
        assert(part@.subrange(0, m - 1) =~= part@.drop_last());
        out.push(line);
        i += 1;
    }
    assert(views(out@) =~= lines(v@));
    out
}

/// Whether `c` is one of the digits `0` to `9`.
pub open spec fn is_digit(c: char) -> bool {
    0x30 <= c as u32 <= 0x39
}

/// The value of the digit `c`.
pub open spec fn digit_value(c: char) -> nat {
    (c as u32 - 0x30) as nat
}

/// Whether `s` holds digits only.
pub open spec fn all_digits(s: Seq<char>) -> bool {
    forall|i: int| 0 <= i < s.len() ==> is_digit(#[trigger] s[i])
}

/// The number that the digits of `s` write in base ten.
pub open spec fn number(s: Seq<char>) -> nat
    decreases s.len(),
{
    if s.len() == 0 {
        0
    } else {
        number(s.drop_last()) * 10 + digit_value(s.last())
    }
}

/// The integer that `s` writes: digits, at least one, after at most one sign.
pub open spec fn parse_int(s: Seq<char>) -> Option<int> {
    if s.len() > 0 && (s[0] == '-' || s[0] == '+') {
        if s.len() > 1 && all_digits(s.skip(1)) {
            Some(
                if s[0] == '-' {
                    -(number(s.skip(1)) as int)
                } else {
                    number(s.skip(1)) as int
                },
            )
        } else {
            None
        }
    } else if s.len() > 0 && all_digits(s) {
        Some(number(s) as int)
    } else {
        None
    }
}

/// The integer that `s` writes, if it is one that an `i64` holds.
pub open spec fn parse_i64(s: Seq<char>) -> Option<i64> {
    match parse_int(s) {
        Some(n) => if i64::MIN <= n <= i64::MAX {
            Some(n as i64)
        } else {
            None
        },
        None => None,
    }
}

/// The number that `s` writes, if it has no minus sign and is one that a `usize` holds.
pub open spec fn parse_usize(s: Seq<char>) -> Option<usize> {
    match parse_int(s) {
        Some(n) => if s[0] != '-' && n <= usize::MAX {
            Some(n as usize)
        } else {
            None
        },
        None => None,
    }
}

/// A number is at least the number that fewer of its digits write.
pub proof fn lemma_number_grows(s: Seq<char>, k: int)
    requires
        0 <= k <= s.len(),
    ensures
        number(s.take(k)) <= number(s),
    decreases s.len(),
{
    if k == s.len() {
        assert(s.take(k) =~= s);
    } else {
        lemma_number_grows(s.drop_last(), k);
        assert(s.drop_last().take(k) =~= s.take(k));
    }
}

/// The number that the characters of `v` from `from` on write, if they are digits, at
/// least one, and the number is at most `limit`.
pub fn parse_digits(v: &Vec<char>, from: usize, limit: u64) -> (r: Option<u64>)
    requires
        from <= v.len(),
    ensures
        r is Some <==> from < v.len() && all_digits(v@.skip(from as int)) && number(
            v@.skip(from as int),
        ) <= limit,
        r is Some ==> r.unwrap() == number(v@.skip(from as int)),
{
    let ghost s = v@.skip(from as int);
    if from == v.len() {
        return None;
    }
    let mut acc: u64 = 0;
    let mut i: usize = from;
    assert(s.take(0) =~= Seq::<char>::empty());
    while i < v.len()
        invariant
            from <= i <= v.len(),
            s == v@.skip(from as int),
            all_digits(s.take(i - from)),
            acc == number(s.take(i - from)),
            acc <= limit,
        decreases v.len() - i,
    {
        let c = v[i];
        let n: u32 = c as u32;
        assert(s[i - from] == c);
        if n < 0x30 || n > 0x39 {
            return None;
        }
        let next: u128 = (acc as u128) * 10 + ((n - 0x30) as u128);
        proof {
            assert(s.take(i - from + 1).drop_last() =~= s.take(i - from));
            assert(s.take(i - from + 1).last() == c);
            assert(next == number(s.take(i - from + 1)));
            assert forall|j: int| 0 <= j < i - from + 1 implies is_digit(
                #[trigger] s.take(i - from + 1)[j],
            ) by {
                if j < i - from {
                    assert(s.take(i - from)[j] == s[j]);
                }
            }
        }
        if next > limit as u128 {
            proof {
                lemma_number_grows(s, i - from + 1);
            }
            return None;
        }
        acc = next as u64;
        i += 1;
    }
    assert(s.take(i - from) =~= s);
    Some(acc)
}

/// Reads an integer as `i64`.
pub fn to_i64(v: &Vec<char>) -> (r: Option<i64>)
    ensures
        r == parse_i64(v@),
{
    if v.len() == 0 {
        return None;
    }
    if v[0] == '-' {
        match parse_digits(v, 1, 0x8000_0000_0000_0000) {
            Some(n) => if n == 0x8000_0000_0000_0000 {
                Some(i64::MIN)
            } else {
                Some(-(n as i64))
            },
            None => None,
        }
    } else if v[0] == '+' {
        match parse_digits(v, 1, 0x7fff_ffff_ffff_ffff) {
            Some(n) => Some(n as i64),
            None => None,
        }
    } else {
        assert(v@.skip(0) =~= v@);
        match parse_digits(v, 0, 0x7fff_ffff_ffff_ffff) {
            Some(n) => Some(n as i64),
            None => None,
        }
    }
}

/// Reads a number as `usize`.
pub fn to_usize(v: &Vec<char>) -> (r: Option<usize>)
    ensures
        r == parse_usize(v@),
{
    if v.len() == 0 {
        return None;
    }
    if v[0] == '-' {
        None
    } else if v[0] == '+' {
        match parse_digits(v, 1, usize::MAX as u64) {
            Some(n) => Some(n as usize),
            None => None,
        }
    } else {
        assert(v@.skip(0) =~= v@);
        match parse_digits(v, 0, usize::MAX as u64) {
            Some(n) => Some(n as usize),
            None => None,
        }
    }
}

/// Trimming makes a text no longer.
pub proof fn lemma_trim_len(s: Seq<char>)
    ensures
        trim(s).len() <= s.len(),
        trim_start(s).len() <= s.len(),
        trim_end(s).len() <= s.len(),
    decreases s.len(),
{
    if s.len() > 0 {
        lemma_trim_len(s.skip(1));
        lemma_trim_len(s.drop_last());
    }
    lemma_trim_end_len(trim_start(s));
}

/// Trimming the end makes a text no longer.
pub proof fn lemma_trim_end_len(s: Seq<char>)
    ensures
        trim_end(s).len() <= s.len(),
    decreases s.len(),
{
    if s.len() > 0 {
        lemma_trim_end_len(s.drop_last());
    }
}

/// A text has at least one part and at most one more than it has characters.
pub proof fn lemma_split_len(s: Seq<char>, pat: Seq<char>)
    ensures
        1 <= split(s, pat).len() <= s.len() + 1,
{
    lemma_split_from_len(s, pat, 0);
}

/// From `from` on a text has at least one part and at most one more than it has
/// characters left.
pub proof fn lemma_split_from_len(s: Seq<char>, pat: Seq<char>, from: int)
    requires
        0 <= from <= s.len(),
    ensures
        1 <= split_from(s, pat, from).len() <= s.len() - from + 1,
    decreases s.len() - from,
{
    let at = find_from(s, pat, from);
    if 0 <= from <= at < s.len() && pat.len() > 0 && at + pat.len() <= s.len() {
        lemma_split_from_len(s, pat, at + pat.len());
    }
}

/// The first place at or after `from` where `s` holds a character that is white space, if
/// `space` is true, or that is not, if `space` is false; `s.len()` if there is none.
pub open spec fn next_of_kind(s: Seq<char>, space: bool, from: int) -> int
    decreases s.len() - from,
{
    if from < 0 || from >= s.len() {
        s.len() as int
    } else if is_space(s[from]) == space {
        from
    } else {
        next_of_kind(s, space, from + 1)
    }
}

/// The words of `s` from place `from` on: the longest runs of characters that are not
/// white space.
pub open spec fn words_from(s: Seq<char>, from: int) -> Seq<Seq<char>>
    decreases s.len() - from,
{
    let a = next_of_kind(s, false, from);
    let b = next_of_kind(s, true, a);
    if 0 <= from <= a < b <= s.len() {
        seq![s.subrange(a, b)] + words_from(s, b)
    } else {
        Seq::empty()
    }
}

/// The words of `s`.
pub open spec fn words(s: Seq<char>) -> Seq<Seq<char>> {
    words_from(s, 0)
}

/// What `next_of_kind` gives lies between `from` and the end, and holds a character of
/// the kind asked for unless it is the end.
pub proof fn lemma_next_of_kind(s: Seq<char>, space: bool, from: int)
    requires
        0 <= from <= s.len(),
    ensures
        from <= next_of_kind(s, space, from) <= s.len(),
        next_of_kind(s, space, from) < s.len() ==> is_space(s[next_of_kind(s, space, from)])
            == space,
        forall|i: int|
            from <= i < next_of_kind(s, space, from) ==> is_space(#[trigger] s[i]) != space,
    decreases s.len() - from,
{
    if from < s.len() && is_space(s[from]) != space {
        lemma_next_of_kind(s, space, from + 1);
    }
}

/// The first place at or after `from` that holds white space, or none, as `space` says.
pub fn skip_to(v: &Vec<char>, space: bool, from: usize) -> (at: usize)
    requires
        from <= v.len(),
    ensures
        at == next_of_kind(v@, space, from as int),
        from <= at <= v.len(),
{
    let mut i: usize = from;
    while i < v.len() && is_whitespace(v[i]) != space
        invariant
            from <= i <= v.len(),
            next_of_kind(v@, space, from as int) == next_of_kind(v@, space, i as int),
        decreases v.len() - i,
    {
        i += 1;
    }
    i
}

/// The words of `v`.
pub fn words_of(v: &Vec<char>) -> (out: Vec<Vec<char>>)
    ensures
        views(out@) == words(v@),
{
    let mut out: Vec<Vec<char>> = Vec::new();
    let mut from: usize = 0;
    loop
        invariant_except_break
            from <= v.len(),
            words(v@) == views(out@) + words_from(v@, from as int),
        ensures
            views(out@) == words(v@),
        decreases v.len() - from,
    {
        let a = skip_to(v, false, from);
        let b = skip_to(v, true, a);
        let ghost before = out@;
        proof {
            lemma_next_of_kind(v@, false, from as int);
            lemma_next_of_kind(v@, true, a as int);
        }
        if a < b {
            out.push(slice_of(v, a, b));
            assert(views(out@) =~= views(before) + seq![v@.subrange(a as int, b as int)]);
            assert(views(before) + words_from(v@, from as int) =~= views(out@) + words_from(
                v@,
                b as int,
            ));
            from = b;
        } else {
            assert(views(before) + words_from(v@, from as int) =~= views(before));
            break ;
        }
    }
    out
}

/// Whether `v` holds the one character `c` and nothing else.
pub fn is_char(v: &Vec<char>, c: char) -> (b: bool)
    ensures
        b == (v@ == seq![c]),
{
    if v.len() == 1 && v[0] == c {
        assert(v@ =~= seq![c]);
        true
    } else {
        if v.len() == 1 {
            assert(v@[0] != seq![c][0]);
        }
        false
    }
}

/// The lines of what `s` holds between the white space around it, cut at line feeds.
pub open spec fn trimmed_rows(s: Seq<char>) -> Seq<Seq<char>> {
    split(trim(s), seq!['\n'])
}

/// Trims `s` and cuts it at line feeds.
pub fn rows_of(s: &str) -> (rows: Vec<Vec<char>>)
    ensures
        views(rows@) == trimmed_rows(s@),
        rows.len() > 0,
{
    let all = chars_of(s);
    let text = trimmed(&all);
    split_char(&text, '\n')
}

/// Taking one more element and dropping it again gives what was taken before.
pub proof fn lemma_take_step<T>(s: Seq<T>, i: int)
    requires
        0 <= i < s.len(),
    ensures
        s.take(i + 1).drop_last() == s.take(i),
        s.take(i + 1).last() == s[i],
        s.take(s.len() as int) == s,
        s.take(0) == Seq::<T>::empty(),
{
    assert(s.take(i + 1).drop_last() =~= s.take(i));
    assert(s.take(s.len() as int) =~= s);
    assert(s.take(0) =~= Seq::<T>::empty());
}

/// Whether `v` holds the characters of `word` and nothing else.
pub fn is_word(v: &Vec<char>, word: &str) -> (b: bool)
    ensures
        b == (v@ == word@),
{
    let w = chars_of(word);
    if v.len() != w.len() {
        return false;
    }
    let mut i: usize = 0;
    while i < v.len()
        invariant
            i <= v.len(),
            v.len() == w.len(),
            w@ == word@,
            forall|j: int| 0 <= j < i ==> v@[j] == w@[j],
        decreases v.len() - i,
    {
        if v[i] != w[i] {
            return false;
        }
        i += 1;
    }
    assert(v@ =~= w@);
    true
}

/// Makes a string of the characters of `v`, by `Iterator::collect` over them: the string
/// holds those characters in their order.
#[verifier::external_body]
fn collect_string(v: &Vec<char>) -> (s: String)
    ensures
        s@ == v@,
{
    v.iter().collect()
}

/// The string of the characters of `v`.
pub fn string_of(v: &Vec<char>) -> (s: String)
    ensures
        s@ == v@,
{
    collect_string(v)
}

/// The lines of what `s` holds between the white space around it.
pub open spec fn trimmed_lines(s: Seq<char>) -> Seq<Seq<char>> {
    lines(trim(s))
}

/// Trims `s` and cuts it into lines.
pub fn trimmed_lines_of(s: &str) -> (out: Vec<Vec<char>>)
    ensures
        views(out@) == trimmed_lines(s@),
{
    let all = chars_of(s);
    let text = trimmed(&all);
    lines_of(&text)
}

/// Whether every character of `s` is of the 7-bit set, so that a character is a byte.
pub open spec fn plain(s: Seq<char>) -> bool {
    forall|i: int| 0 <= i < s.len() ==> (#[trigger] s[i]) as u32 <= 0x7f
}

/// Whether every character of `v` is of the 7-bit set.
pub fn is_plain(v: &Vec<char>) -> (b: bool)
    ensures
        b == plain(v@),
{
    let mut i: usize = 0;
    while i < v.len()
        invariant
            i <= v.len(),
            forall|k: int| 0 <= k < i ==> (#[trigger] v@[k]) as u32 <= 0x7f,
        decreases v.len() - i,
    {
        if v[i] as u32 > 0x7f {
            return false;
        }
        i += 1;
    }
    true
}

/// The two parts of `s` before and after the first place where `pat` stands.
pub open spec fn split_once(s: Seq<char>, pat: Seq<char>) -> Option<(Seq<char>, Seq<char>)> {
    let at = find_from(s, pat, 0);
    if at < s.len() {
        Some((s.take(at), s.skip(at + pat.len())))
    } else {
        None
    }
}

/// Cuts `v` in two at the first place where `pat` stands.
pub fn split_once_on(v: &Vec<char>, pat: &Vec<char>) -> (r: Option<(Vec<char>, Vec<char>)>)
    requires
        pat.len() > 0,
    ensures
        r is Some <==> split_once(v@, pat@) is Some,
        r is Some ==> (r.unwrap().0@, r.unwrap().1@) == split_once(v@, pat@).unwrap(),
{
    let at = find(v, pat, 0);
    if at >= v.len() {
        return None;
    }
    proof {
        lemma_find_from(v@, pat@, 0);
    }
    let a = slice_of(v, 0, at);
    let b = slice_of(v, at + pat.len(), v.len());
    assert(a@ =~= v@.take(at as int));
    assert(b@ =~= v@.skip(at + pat.len()));
    Some((a, b))
}

/// Cuts `v` in two at the first `c`.
pub fn split_once_char(v: &Vec<char>, c: char) -> (r: Option<(Vec<char>, Vec<char>)>)
    ensures
        r is Some <==> split_once(v@, seq![c]) is Some,
        r is Some ==> (r.unwrap().0@, r.unwrap().1@) == split_once(v@, seq![c]).unwrap(),
{
    let pat = one_char(c);
    split_once_on(v, &pat)
}

/// The integer that `s` writes after its first `n` characters, if it has so many.
pub open spec fn parse_i64_after(s: Seq<char>, n: int) -> Option<i64> {
    if n <= s.len() {
        parse_i64(s.skip(n))
    } else {
        None
    }
}

/// Reads the integer that `v` writes after its first `n` characters.
pub fn to_i64_after(v: &Vec<char>, n: usize) -> (r: Option<i64>)
    ensures
        r == parse_i64_after(v@, n as int),
{
    if n > v.len() {
        return None;
    }
    let rest = slice_of(v, n, v.len());
    assert(rest@ =~= v@.skip(n as int));
    to_i64(&rest)
}

/// The parts put together with `sep` between two of them.
pub open spec fn join(parts: Seq<Seq<char>>, sep: Seq<char>) -> Seq<char>
    decreases parts.len(),
{
    if parts.len() == 0 {
        Seq::empty()
    } else if parts.len() == 1 {
        parts[0]
    } else {
        join(parts.drop_last(), sep) + sep + parts.last()
    }
}

/// `s` with `to` in place of `from` wherever `from` stands, taken from the left without
/// overlap.
pub open spec fn replace(s: Seq<char>, from: Seq<char>, to: Seq<char>) -> Seq<char> {
    join(split(s, from), to)
}

/// Puts the parts together with `sep` between two of them.
pub fn join_with(parts: &Vec<Vec<char>>, sep: &Vec<char>) -> (out: Vec<char>)
    ensures
        out@ == join(views(parts@), sep@),
{
    let ghost rows = views(parts@);
    let mut out: Vec<char> = Vec::new();
    let mut i: usize = 0;
    assert(rows.take(0) =~= Seq::<Seq<char>>::empty());
    while i < parts.len()
        invariant
            i <= parts.len(),
            rows == views(parts@),
            out@ == join(rows.take(i as int), sep@),
        decreases parts.len() - i,
    {
        assert(rows[i as int] == parts@[i as int]@);
        proof {
            lemma_take_step(rows, i as int);
        }
        let ghost before = out@;
        if i > 0 {
            let mut k: usize = 0;
            while k < sep.len()
                invariant
                    k <= sep.len(),
                    out@ == before + sep@.take(k as int),
                decreases sep.len() - k,
            {
                out.push(sep[k]);
                assert(sep@.take(k + 1) =~= sep@.take(k as int).push(sep@[k as int]));
                k += 1;
            }
            assert(sep@.take(k as int) =~= sep@);
        }
        let ghost middle = out@;
        let part = &parts[i];
        let mut k: usize = 0;
        while k < part.len()
            invariant
                k <= part.len(),
                out@ == middle + part@.take(k as int),
            decreases part.len() - k,
        {
            out.push(part[k]);
            assert(part@.take(k + 1) =~= part@.take(k as int).push(part@[k as int]));
            k += 1;
        }
        assert(part@.take(k as int) =~= part@);
        proof {
            if i == 0 {
                assert(rows.take(1).len() == 1);
                assert(out@ =~= rows[0]);
            }
        }
        i += 1;
    }
    assert(rows.take(i as int) =~= rows);
    out
}

/// The number of bytes that `c` takes in UTF-8.
pub open spec fn char_bytes(c: char) -> nat {
    if (c as u32) < 0x80 {
        1
    } else if (c as u32) < 0x800 {
        2
    } else if (c as u32) < 0x1_0000 {
        3
    } else {
        4
    }
}

/// The number of bytes that `s` takes in UTF-8.
pub open spec fn byte_len(s: Seq<char>) -> nat
    decreases s.len(),
{
    if s.len() == 0 {
        0
    } else {
        byte_len(s.drop_last()) + char_bytes(s.last())
    }
}

/// The number of bytes that the characters of `v` take in UTF-8.
pub fn utf8_len(v: &Vec<char>) -> (n: u128)
    ensures
        n == byte_len(v@),
        v@.len() <= n <= 4 * v@.len(),
{
    let mut n: u128 = 0;
    let mut i: usize = 0;
    assert(v@.take(0) =~= Seq::<char>::empty());
    while i < v.len()
        invariant
            i <= v.len(),
            n == byte_len(v@.take(i as int)),
            i <= n <= 4 * i,
        decreases v.len() - i,
    {
        let c = v[i] as u32;
        assert(v@.take(i + 1).drop_last() =~= v@.take(i as int));
        assert(v@.take(i + 1).last() == v@[i as int]);
        n = n + if c < 0x80 {
            1
        } else if c < 0x800 {
            2
        } else if c < 0x1_0000 {
            3
        } else {
            4
        };
        i += 1;
    }
    assert(v@.take(i as int) =~= v@);
    n
}

/// `s` without `prefix` at its start, or `None` where it does not start with it.
pub open spec fn strip_prefix(s: Seq<char>, prefix: Seq<char>) -> Option<Seq<char>> {
    if occurs_at(s, prefix, 0) {
        Some(s.skip(prefix.len() as int))
    } else {
        None
    }
}

/// Takes `prefix` from the start of `v`.
pub fn without_prefix(v: &Vec<char>, prefix: &str) -> (r: Option<Vec<char>>)
    ensures
        r is Some <==> strip_prefix(v@, prefix@) is Some,
        r is Some ==> Some(r.unwrap()@) == strip_prefix(v@, prefix@),
{
    let p = chars_of(prefix);
    if matches_at(v, &p, 0) {
        let rest = slice_of(v, p.len(), v.len());
        assert(rest@ =~= v@.skip(p.len() as int));
        Some(rest)
    } else {
        None
    }
}

/// The last place before `n` where `s` holds `c`, or -1.
pub open spec fn last_place(s: Seq<char>, c: char, n: int) -> int
    decreases n,
{
    if n <= 0 {
        -1
    } else if s[n - 1] == c {
        n - 1
    } else {
        last_place(s, c, n - 1)
    }
}

/// The two parts of `s` before and after the last `c`.
pub open spec fn rsplit_once(s: Seq<char>, c: char) -> Option<(Seq<char>, Seq<char>)> {
    let at = last_place(s, c, s.len() as int);
    if at >= 0 {
        Some((s.take(at), s.skip(at + 1)))
    } else {
        None
    }
}

/// Cuts `v` in two at the last `c`.
pub fn rsplit_once_char(v: &Vec<char>, c: char) -> (r: Option<(Vec<char>, Vec<char>)>)
    ensures
        r is Some <==> rsplit_once(v@, c) is Some,
        r is Some ==> (r.unwrap().0@, r.unwrap().1@) == rsplit_once(v@, c).unwrap(),
{
    let mut n: usize = v.len();
    while n > 0
        invariant
            n <= v.len(),
            last_place(v@, c, v@.len() as int) == last_place(v@, c, n as int),
        decreases n,
    {
        if v[n - 1] == c {
            let a = slice_of(v, 0, n - 1);
            let b = slice_of(v, n, v.len());
            assert(a@ =~= v@.take(n - 1));
            assert(b@ =~= v@.skip(n as int));
            return Some((a, b));
        }
        n -= 1;
    }
    None
}

} // verus!
