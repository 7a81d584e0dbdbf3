//! The start of a packet in a stream of bytes: the place after the first run of bytes
//! that are all different.

use vstd::prelude::*;
use vstd::string::{StrSliceExecFns, StringSliceAdditionalSpecFns};

verus! {

/// Whether no byte occurs twice in `w`.
pub open spec fn distinct(w: Seq<u8>) -> bool {
    forall|i: int, j: int| 0 <= i < j < w.len() ==> w[i] != w[j]
}

/// Whether the `n` bytes before place `i` are all different, for a place `i` from `n` on
/// that is not the end of `b`.
pub open spec fn is_marker(b: Seq<u8>, n: int, i: int) -> bool {
    0 <= n <= i < b.len() && distinct(b.subrange(i - n, i))
}

/// Whether `at` is the first place of `b` that `is_marker` holds of, or 0 where it holds
/// of none.
pub open spec fn is_start(b: Seq<u8>, n: int, at: int) -> bool {
    &&& forall|j: int| 0 <= j < at ==> !is_marker(b, n, j)
    &&& if is_marker(b, n, at) {
        true
    } else {
        at == 0 && forall|j: int| !is_marker(b, n, j)
    }
}

/// Whether the `n` bytes of `b` before place `i` are all different.
fn window_is_distinct(b: &Vec<u8>, n: usize, i: usize) -> (r: bool)
    requires
        n <= i <= b.len(),
    ensures
        r == distinct(b@.subrange(i - n, i as int)),
{
    let ghost w = b@.subrange(i - n, i as int);
    let mut p: usize = i - n;
    while p < i
        invariant
            n <= i,
            i - n <= p <= i <= b.len(),
            w == b@.subrange(i - n, i as int),
            forall|x: int, y: int|
                i - n <= x < y < i && x < p ==> #[trigger] b@[x] != #[trigger] b@[y],
        decreases i - p,
    {
        let mut q: usize = p + 1;
        while q < i
            invariant
                n <= i,
                i - n <= p < q <= i <= b.len(),
                w == b@.subrange(i - n, i as int),
                forall|y: int| p < y < q ==> b@[p as int] != #[trigger] b@[y],
            decreases i - q,
        {
            if b[p] == b[q] {
                assert(w[p - (i - n)] == w[q - (i - n)]);
                return false;
            }
            q += 1;
        }
        p += 1;
    }
    assert forall|x: int, y: int| 0 <= x < y < w.len() implies w[x] != w[y] by {
        assert(b@[x + (i - n)] != b@[y + (i - n)]);
    }
    true
}

/// The first place from `n` on, and before the end of `s`, such that the `n` bytes of `s`
/// before it are all different; 0 where there is none.
pub fn start_of_packet(s: &str, n: usize) -> (at: usize)
    ensures
        is_start(s.spec_bytes(), n as int, at as int),
{
    let bytes = s.as_bytes_vec();
    let mut i: usize = n;
    while i < bytes.len()
        invariant
            n <= i,
            bytes@ == s.spec_bytes(),
            forall|j: int| 0 <= j < i ==> !is_marker(bytes@, n as int, j),
        decreases bytes.len() - i,
    {
        if window_is_distinct(&bytes, n, i) {
            return i;
        }
        i += 1;
    }
    0
}

/// The start of a packet after four bytes that are all different.
pub fn start_of_packet_p1(s: &str) -> (at: usize)
    ensures
        is_start(s.spec_bytes(), 4, at as int),
{
    start_of_packet(s, 4)
}

/// The start of a message after fourteen bytes that are all different.
pub fn start_of_packet_p2(s: &str) -> (at: usize)
    ensures
        is_start(s.spec_bytes(), 14, at as int),
{
    start_of_packet(s, 14)
}

} // verus!
