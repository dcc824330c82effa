//! Finding the marker byte in a slice, and cutting a slice there.

use vstd::prelude::*;
use vstd::slice::slice_subrange;
use vstd::slice::slice_to_vec;

verus! {

/// `i` is the position of the first occurrence of `marker` in `s`.
pub open spec fn is_first_marker(s: Seq<u8>, marker: u8, i: int) -> bool {
    &&& 0 <= i < s.len()
    &&& s[i] == marker
    &&& forall|j: int| 0 <= j < i ==> s[j] != marker
}

/// `marker` does not occur in `s`.
pub open spec fn has_no_marker(s: Seq<u8>, marker: u8) -> bool {
    forall|j: int| 0 <= j < s.len() ==> s[j] != marker
}

/// Position of the first `marker` in `s` at or after `i`; `s.len()` if none.
pub open spec fn marker_from(s: Seq<u8>, marker: u8, i: int) -> int
    decreases s.len() - i,
{
    if i < 0 || i >= s.len() {
        s.len() as int
    } else if s[i] == marker {
        i
    } else {
        marker_from(s, marker, i + 1)
    }
}

/// Position of the first `marker` in `s`; `s.len()` if none.
pub open spec fn marker_pos(s: Seq<u8>, marker: u8) -> int {
    marker_from(s, marker, 0)
}

/// Position of the first `marker` byte in `bytes`, if there is one.
pub fn check_marker(bytes: &[u8], marker: u8) -> (r: Option<usize>)
    ensures
        match r {
            Some(i) => is_first_marker(bytes@, marker, i as int) && i as int == marker_pos(bytes@, marker),
            None => has_no_marker(bytes@, marker) && marker_pos(bytes@, marker) == bytes@.len(),
        },
{
    let mut i: usize = 0;
    while i < bytes.len()
        invariant
            i <= bytes@.len(),
            marker_pos(bytes@, marker) == marker_from(bytes@, marker, i as int),
            forall|j: int| 0 <= j < i ==> bytes@[j] != marker,
        decreases bytes@.len() - i,
    {
        if bytes[i] == marker {
            return Some(i);
        }
        i = i + 1;
    }
    None
}

/// Cuts `data` at its first `marker`: the bytes before it and those after
/// it. Without a marker, all of `data` and nothing.
pub fn split_buffer(data: &[u8], marker: u8) -> (r: (Vec<u8>, Vec<u8>))
    ensures
        match check_marker_spec(data@, marker) {
            Some(i) => r.0@ == data@.subrange(0, i) && r.1@ == data@.subrange(i + 1, data@.len() as int),
            None => r.0@ == data@ && r.1@ == Seq::<u8>::empty(),
        },
{
    let n = data.len();
    match check_marker(data, marker) {
        Some(i) => (
            slice_to_vec(slice_subrange(data, 0, i)),
            slice_to_vec(slice_subrange(data, i + 1, n)),
        ),
        None => (slice_to_vec(data), Vec::new()),
    }
}

/// The first position of `marker` in `s`, if any.
pub open spec fn check_marker_spec(s: Seq<u8>, marker: u8) -> Option<int> {
    if marker_pos(s, marker) < s.len() {
        Some(marker_pos(s, marker))
    } else {
        None
    }
}

} // verus!
