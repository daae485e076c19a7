//! Byte-string helpers shared by the wire parser and the table decoders:
//! trimming, searching, comparing, and big-endian reads.

use vstd::prelude::*;
use vstd::string::*;

verus! {

/// `;`, the parameter separator.
pub const SEMICOLON: u8 = 0x3b;

/// `,`, the list separator.
pub const COMMA: u8 = 0x2c;

/// `=`, between a parameter's key and its value.
pub const EQUALS: u8 = 0x3d;

/// Space, tab, carriage return or line feed.
pub open spec fn is_blank(b: u8) -> bool {
    b == 0x20 || b == 0x09 || b == 0x0d || b == 0x0a
}

/// `s` without its leading blanks.
pub open spec fn trimmed_start(s: Seq<u8>) -> Seq<u8>
    decreases s.len(),
{
    if s.len() > 0 && is_blank(s[0]) {
        trimmed_start(s.drop_first())
    } else {
        s
    }
}

/// `s` without its trailing blanks.
pub open spec fn trimmed_end(s: Seq<u8>) -> Seq<u8>
    decreases s.len(),
{
    if s.len() > 0 && is_blank(s.last()) {
        trimmed_end(s.drop_last())
    } else {
        s
    }
}

/// `s` without leading or trailing blanks.
pub open spec fn trimmed(s: Seq<u8>) -> Seq<u8> {
    trimmed_end(trimmed_start(s))
}

/// The index of the first `b` in `s`, or `s.len()` where there is none.
pub open spec fn first_index(s: Seq<u8>, b: u8) -> int
    decreases s.len(),
{
    if s.len() == 0 || s[0] == b {
        0
    } else {
        1 + first_index(s.drop_first(), b)
    }
}

/// The index of the last `b` in `s`, or `-1` where there is none.
pub open spec fn last_index(s: Seq<u8>, b: u8) -> int
    decreases s.len(),
{
    if s.len() == 0 {
        -1
    } else if s.last() == b {
        s.len() - 1
    } else {
        last_index(s.drop_last(), b)
    }
}

/// What precedes and what follows the first `sep`; without one, all of `s`
/// and nothing.
pub open spec fn halves_at_first(s: Seq<u8>, sep: u8) -> (Seq<u8>, Seq<u8>) {
    let i = first_index(s, sep);
    if i < s.len() {
        (s.take(i), s.skip(i + 1))
    } else {
        (s, Seq::empty())
    }
}

/// What precedes and what follows the last `sep`; without one, all of `s`
/// and nothing.
pub open spec fn halves_at_last(s: Seq<u8>, sep: u8) -> (Seq<u8>, Seq<u8>) {
    let i = last_index(s, sep);
    if i >= 0 {
        (s.take(i), s.skip(i + 1))
    } else {
        (s, Seq::empty())
    }
}

/// `first_index` is in bounds, finds `b`, and nothing before it is `b`.
pub proof fn lemma_first_index(s: Seq<u8>, b: u8)
    ensures
        0 <= first_index(s, b) <= s.len(),
        first_index(s, b) < s.len() ==> s[first_index(s, b)] == b,
        forall|j: int| 0 <= j < first_index(s, b) ==> s[j] != b,
    decreases s.len(),
{
    if s.len() > 0 && s[0] != b {
        let t = s.drop_first();
        lemma_first_index(t, b);
        assert forall|j: int| 0 <= j < first_index(s, b) implies s[j] != b by {
            if j > 0 {
                assert(s[j] == t[j - 1]);
            }
        }
    }
}

/// The only index with what `lemma_first_index` states is `first_index`.
pub proof fn lemma_first_index_unique(s: Seq<u8>, b: u8, i: int)
    requires
        0 <= i <= s.len(),
        i < s.len() ==> s[i] == b,
        forall|j: int| 0 <= j < i ==> s[j] != b,
    ensures
        first_index(s, b) == i,
{
    lemma_first_index(s, b);
    if first_index(s, b) < i {
        assert(s[first_index(s, b)] != b);
    }
}

/// `last_index` is in bounds, finds `b`, and nothing after it is `b`.
pub proof fn lemma_last_index(s: Seq<u8>, b: u8)
    ensures
        -1 <= last_index(s, b) < s.len(),
        last_index(s, b) >= 0 ==> s[last_index(s, b)] == b,
        forall|j: int| last_index(s, b) < j < s.len() ==> s[j] != b,
    decreases s.len(),
{
    if s.len() > 0 && s.last() != b {
        lemma_last_index(s.drop_last(), b);
        assert forall|j: int| last_index(s, b) < j < s.len() implies s[j] != b by {
            if j < s.len() - 1 {
                assert(s[j] == s.drop_last()[j]);
            }
        }
    }
}

/// Trimming changes nothing where there are no blanks.
pub proof fn lemma_trimmed_unchanged(s: Seq<u8>)
    requires
        forall|i: int| 0 <= i < s.len() ==> !is_blank(#[trigger] s[i]),
    ensures
        trimmed(s) == s,
{
}

/// What trimming the end leaves is a prefix, which holds all that is not blank.
pub proof fn lemma_trimmed_end(s: Seq<u8>, i: int)
    requires
        0 <= i < s.len(),
        !is_blank(s[i]),
    ensures
        i < trimmed_end(s).len() <= s.len(),
        trimmed_end(s) == s.take(trimmed_end(s).len() as int),
    decreases s.len(),
{
    if is_blank(s.last()) {
        let front = s.drop_last();
        lemma_trimmed_end(front, i);
        let n = trimmed_end(front).len() as int;
        assert(front.take(n) =~= s.take(n));
    } else {
        assert(s.take(s.len() as int) =~= s);
    }
}

/// Splitting at the last separator takes apart what was put together with one.
pub proof fn lemma_halves_at_last(head: Seq<u8>, tail: Seq<u8>, sep: u8)
    requires
        !tail.contains(sep),
    ensures
        halves_at_last(head + seq![sep] + tail, sep) == (head, tail),
{
    let s = head + seq![sep] + tail;
    let at = head.len() as int;
    lemma_last_index(s, sep);
    assert(s[at] == sep);
    assert forall|j: int| at < j < s.len() implies s[j] != sep by {
        assert(s[j] == tail[j - at - 1]);
        assert(tail.contains(s[j]));
    }
    assert(last_index(s, sep) == at);
    assert(s.take(at) =~= head);
    assert(s.skip(at + 1) =~= tail);
}

/// The index of the first `b` in `data`, if any.
pub fn find_byte(data: &[u8], b: u8) -> (r: Option<usize>)
    ensures
        match r {
            Some(i) => i == first_index(data@, b) && i < data@.len(),
            None => first_index(data@, b) == data@.len(),
        },
{
    let mut i: usize = 0;
    while i < data.len()
        invariant
            i <= data@.len(),
            forall|j: int| 0 <= j < i ==> data@[j] != b,
        decreases data@.len() - i,
    {
        if data[i] == b {
            proof {
                lemma_first_index_unique(data@, b, i as int);
            }
            return Some(i);
        }
        i += 1;
    }
    proof {
        lemma_first_index_unique(data@, b, data@.len() as int);
    }
    None
}

/// Split `data` at its first `sep`.
pub fn split_first(data: &[u8], sep: u8) -> (r: (&[u8], &[u8]))
    ensures
        (r.0@, r.1@) == halves_at_first(data@, sep),
{
    let len: usize = data.len();
    match find_byte(data, sep) {
        Some(i) => {
            let head = &data[0..i];
            let tail = &data[i + 1..len];
            assert(head@ =~= data@.take(i as int));
            assert(tail@ =~= data@.skip(i + 1));
            (head, tail)
        },
        None => {
            let tail = &data[len..len];
            assert(tail@ =~= Seq::empty());
            (data, tail)
        },
    }
}

/// Split `data` at its last `sep`.
pub fn split_last(data: &[u8], sep: u8) -> (r: (&[u8], &[u8]))
    ensures
        (r.0@, r.1@) == halves_at_last(data@, sep),
{
    proof {
        lemma_last_index(data@, sep);
    }
    let mut i: usize = data.len();
    while i > 0
        invariant
            i <= data@.len(),
            last_index(data@, sep) < data@.len(),
            last_index(data@, sep) >= 0 ==> data@[last_index(data@, sep)] == sep,
            forall|j: int| last_index(data@, sep) < j < data@.len() ==> data@[j] != sep,
            forall|j: int| i <= j < data@.len() ==> data@[j] != sep,
        decreases i,
    {
        if data[i - 1] == sep {
            let head = &data[0..i - 1];
            let tail = &data[i..data.len()];
            assert(last_index(data@, sep) == i - 1);
            assert(head@ =~= data@.take(i - 1));
            assert(tail@ =~= data@.skip(i as int));
            return (head, tail);
        }
        i -= 1;
    }
    let tail = &data[data.len()..data.len()];
    assert(tail@ =~= Seq::empty());
    (data, tail)
}

fn is_blank_byte(b: u8) -> (r: bool)
    ensures
        r == is_blank(b),
{
    b == 0x20 || b == 0x09 || b == 0x0d || b == 0x0a
}

/// `data` without leading or trailing blanks.
pub fn trim(data: &[u8]) -> (r: &[u8])
    ensures
        r@ == trimmed(data@),
{
    let mut start: usize = 0;
    let mut end: usize = data.len();
    assert(data@.skip(0) =~= data@);
    while start < end && is_blank_byte(data[start])
        invariant
            start <= end,
            end == data@.len(),
            trimmed_start(data@) == trimmed_start(data@.skip(start as int)),
        decreases end - start,
    {
        assert(data@.skip(start as int).drop_first() =~= data@.skip(start + 1));
        start += 1;
    }
    let ghost head = trimmed_start(data@);
    assert(head == data@.skip(start as int));
    assert(data@.subrange(start as int, end as int) =~= head);
    while end > start && is_blank_byte(data[end - 1])
        invariant
            start <= end <= data@.len(),
            trimmed_end(head) == trimmed_end(data@.subrange(start as int, end as int)),
        decreases end - start,
    {
        assert(data@.subrange(start as int, end as int).drop_last() =~= data@.subrange(
            start as int,
            end - 1,
        ));
        end -= 1;
    }
    &data[start..end]
}

/// Whether `a` and `b` hold the same bytes.
pub fn same_bytes(a: &[u8], b: &[u8]) -> (r: bool)
    ensures
        r == (a@ == b@),
{
    if a.len() != b.len() {
        return false;
    }
    let mut i: usize = 0;
    while i < a.len()
        invariant
            i <= a@.len(),
            a@.len() == b@.len(),
            forall|j: int| 0 <= j < i ==> a@[j] == b@[j],
        decreases a@.len() - i,
    {
        if a[i] != b[i] {
            return false;
        }
        i += 1;
    }
    assert(a@ =~= b@);
    true
}

/// Whether `data` is the text `word`.
pub fn is_word(data: &[u8], word: &str) -> (r: bool)
    ensures
        r == (data@ == word.spec_bytes()),
{
    same_bytes(data, word.as_bytes())
}

/// A copy of `data`.
pub fn copied(data: &[u8]) -> (r: Vec<u8>)
    ensures
        r@ == data@,
{
    let mut out: Vec<u8> = Vec::with_capacity(data.len());
    let mut i: usize = 0;
    while i < data.len()
        invariant
            i <= data@.len(),
            out@ == data@.take(i as int),
        decreases data@.len() - i,
    {
        out.push(data[i]);
        assert(out@ =~= data@.take(i + 1));
        i += 1;
    }
    assert(data@.take(i as int) =~= data@);
    out
}

/// The big-endian unsigned 16-bit number at `at`.
pub open spec fn be16(s: Seq<u8>, at: int) -> int {
    s[at] * 0x100 + s[at + 1]
}

/// The big-endian unsigned 32-bit number at `at`.
pub open spec fn be32(s: Seq<u8>, at: int) -> int {
    be16(s, at) * 0x1_0000 + be16(s, at + 2)
}

/// The big-endian two's-complement 16-bit number at `at`.
pub open spec fn be_i16(s: Seq<u8>, at: int) -> int {
    if s[at] >= 0x80 {
        be16(s, at) - 0x1_0000
    } else {
        be16(s, at)
    }
}

/// Read the big-endian `u16` at `at`.
pub fn read_u16(data: &[u8], at: usize) -> (r: u16)
    requires
        at + 2 <= data.len(),
    ensures
        r == be16(data@, at as int),
{
    data[at] as u16 * 0x100 + data[at + 1] as u16
}

/// Read the big-endian `u32` at `at`.
pub fn read_u32(data: &[u8], at: usize) -> (r: u32)
    requires
        at + 4 <= data.len(),
    ensures
        r == be32(data@, at as int),
{
    read_u16(data, at) as u32 * 0x1_0000 + read_u16(data, at + 2) as u32
}

} // verus!
