//! Byte strings: the character classes of the field grammar, and copying and
//! comparing the byte vectors that fields and accessors carry.

use vstd::prelude::*;

verus! {

/// Blank, tab, line feed or carriage return.
pub open spec fn is_space(c: u8) -> bool {
    c == 0x20 || c == 0x09 || c == 0x0a || c == 0x0d
}

/// An ASCII decimal digit.
pub open spec fn is_digit(c: u8) -> bool {
    0x30 <= c <= 0x39
}

/// A byte that may begin an identifier: an ASCII letter or `_`.
pub open spec fn is_identifier_start(c: u8) -> bool {
    0x41 <= c <= 0x5a || 0x61 <= c <= 0x7a || c == 0x5f
}

/// A byte that may continue an identifier: an ASCII letter, a digit or `_`.
pub open spec fn is_identifier_part(c: u8) -> bool {
    is_identifier_start(c) || is_digit(c)
}

/// Whether `s` is an identifier: not empty, begun by a letter or `_` and
/// continued by letters, digits and `_`.
pub open spec fn is_identifier(s: Seq<u8>) -> bool {
    &&& s.len() > 0
    &&& is_identifier_start(s[0])
    &&& forall|i: int| 0 <= i < s.len() ==> is_identifier_part(#[trigger] s[i])
}

/// The views of a sequence of byte vectors.
pub open spec fn lines_view(lines: Seq<Vec<u8>>) -> Seq<Seq<u8>> {
    lines.map_values(|line: Vec<u8>| line@)
}

/// The view of an optional byte vector.
pub open spec fn optional_view(bytes: Option<Vec<u8>>) -> Option<Seq<u8>> {
    match bytes {
        Some(v) => Some(v@),
        None => None,
    }
}

/// Blank, tab, line feed or carriage return.
pub fn space(c: u8) -> (yes: bool)
    ensures
        yes == is_space(c),
{
    c == 0x20 || c == 0x09 || c == 0x0a || c == 0x0d
}

/// An ASCII decimal digit.
pub fn digit(c: u8) -> (yes: bool)
    ensures
        yes == is_digit(c),
{
    0x30 <= c && c <= 0x39
}

/// A byte that may begin an identifier.
pub fn identifier_start(c: u8) -> (yes: bool)
    ensures
        yes == is_identifier_start(c),
{
    (0x41 <= c && c <= 0x5a) || (0x61 <= c && c <= 0x7a) || c == 0x5f
}

/// A byte that may continue an identifier.
pub fn identifier_part(c: u8) -> (yes: bool)
    ensures
        yes == is_identifier_part(c),
{
    identifier_start(c) || digit(c)
}

/// Whether `s` is an identifier.
pub fn identifier(s: &[u8]) -> (yes: bool)
    ensures
        yes == is_identifier(s@),
{
    if s.len() == 0 || !identifier_start(s[0]) {
        return false;
    }
    let mut i: usize = 0;
    while i < s.len()
        invariant
            i <= s.len(),
            forall|k: int| 0 <= k < i ==> is_identifier_part(#[trigger] s@[k]),
        decreases s.len() - i,
    {
        if !identifier_part(s[i]) {
            return false;
        }
        i += 1;
    }
    true
}

/// Whether two byte strings are equal.
pub fn same_bytes(a: &[u8], b: &[u8]) -> (same: bool)
    ensures
        same == (a@ == b@),
{
    if a.len() != b.len() {
        return false;
    }
    let mut i: usize = 0;
    while i < a.len()
        invariant
            a.len() == b.len(),
            i <= a.len(),
            forall|k: int| 0 <= k < i ==> a@[k] == b@[k],
        decreases a.len() - i,
    {
        if a[i] != b[i] {
            return false;
        }
        i += 1;
    }
    assert(a@ =~= b@);
    true
}

/// Append the bytes of `tail` to `bytes`.
pub fn append_bytes(bytes: &mut Vec<u8>, tail: &[u8])
    ensures
        final(bytes)@ == old(bytes)@ + tail@,
{
    let mut i: usize = 0;
    while i < tail.len()
        invariant
            i <= tail.len(),
            bytes@ == old(bytes)@ + tail@.take(i as int),
        decreases tail.len() - i,
    {
        bytes.push(tail[i]);
        assert(tail@.take(i + 1) =~= tail@.take(i as int).push(tail@[i as int]));
        i += 1;
    }
    assert(tail@.take(tail.len() as int) =~= tail@);
}

/// A copy of a byte string.
pub fn copy_bytes(bytes: &[u8]) -> (copy: Vec<u8>)
    ensures
        copy@ == bytes@,
{
    let mut copy: Vec<u8> = Vec::new();
    append_bytes(&mut copy, bytes);
    assert(Seq::<u8>::empty() + bytes@ =~= bytes@);
    copy
}

/// A copy of the bytes `start..end` of a byte string.
pub fn copy_range(bytes: &[u8], start: usize, end: usize) -> (copy: Vec<u8>)
    requires
        start <= end <= bytes.len(),
    ensures
        copy@ == bytes@.subrange(start as int, end as int),
{
    let mut copy: Vec<u8> = Vec::new();
    let mut i: usize = start;
    while i < end
        invariant
            start <= i <= end <= bytes.len(),
            copy@ == bytes@.subrange(start as int, i as int),
        decreases end - i,
    {
        copy.push(bytes[i]);
        assert(bytes@.subrange(start as int, i + 1) =~= bytes@.subrange(
            start as int,
            i as int,
        ).push(bytes@[i as int]));
        i += 1;
    }
    copy
}

/// A copy of an optional byte string.
pub fn copy_optional(bytes: &Option<Vec<u8>>) -> (copy: Option<Vec<u8>>)
    ensures
        optional_view(copy) == optional_view(*bytes),
{
    match bytes {
        Some(v) => Some(copy_bytes(v.as_slice())),
        None => None,
    }
}

/// A copy of a list of byte strings.
pub fn copy_lines(lines: &Vec<Vec<u8>>) -> (copy: Vec<Vec<u8>>)
    ensures
        lines_view(copy@) == lines_view(lines@),
{
    let mut copy: Vec<Vec<u8>> = Vec::new();
    let mut i: usize = 0;
    while i < lines.len()
        invariant
            i <= lines.len(),
            copy.len() == i,
            forall|k: int| 0 <= k < i ==> (#[trigger] copy@[k])@ == lines@[k]@,
        decreases lines.len() - i,
    {
        copy.push(copy_bytes(lines[i].as_slice()));
        i += 1;
    }
    assert(lines_view(copy@) =~= lines_view(lines@));
    copy
}

} // verus!
