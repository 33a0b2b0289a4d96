//! The byte layouts every gossiped entry is built from: little-endian
//! integers and length-prefixed blocks.

use vstd::prelude::*;
use vstd::slice::slice_subrange;

verus! {

/// The `n` lowest base-256 digits of `x`, lowest first.
pub open spec fn le_bytes(x: nat, n: nat) -> Seq<u8>
    decreases n,
{
    if n == 0 {
        Seq::empty()
    } else {
        seq![(x % 256) as u8] + le_bytes(x / 256, (n - 1) as nat)
    }
}

/// The number that `s` spells in base 256, lowest digit first.
pub open spec fn le_value(s: Seq<u8>) -> nat
    decreases s.len(),
{
    if s.len() == 0 {
        0
    } else {
        (s[0] as nat) + 256 * le_value(s.subrange(1, s.len() as int))
    }
}

/// `x` as four little-endian bytes.
pub open spec fn le32(x: u32) -> Seq<u8> {
    le_bytes(x as nat, 4)
}

/// `x` as eight little-endian bytes.
pub open spec fn le64(x: u64) -> Seq<u8> {
    le_bytes(x as nat, 8)
}

/// A length as the wire carries it: saturated at the largest `u32`.
pub open spec fn wire_len(n: nat) -> u32 {
    if n <= u32::MAX {
        n as u32
    } else {
        u32::MAX
    }
}

/// A length-prefixed block.
pub open spec fn block(s: Seq<u8>) -> Seq<u8> {
    le32(wire_len(s.len())) + s
}

/// Whether `s` stands in `b` at offset `at`.
pub open spec fn holds_at(b: Seq<u8>, at: int, s: Seq<u8>) -> bool {
    &&& 0 <= at
    &&& at + s.len() <= b.len()
    &&& b.subrange(at, at + s.len()) == s
}

/// The `u32` at `at`, when four bytes stand there.
pub open spec fn get_u32(b: Seq<u8>, at: int) -> Option<u32> {
    if 0 <= at && at + 4 <= b.len() {
        Some(le_value(b.subrange(at, at + 4)) as u32)
    } else {
        None
    }
}

/// The `u64` at `at`, when eight bytes stand there.
pub open spec fn get_u64(b: Seq<u8>, at: int) -> Option<u64> {
    if 0 <= at && at + 8 <= b.len() {
        Some(le_value(b.subrange(at, at + 8)) as u64)
    } else {
        None
    }
}

/// The length-prefixed block at `at`, when all of it stands there.
pub open spec fn get_block(b: Seq<u8>, at: int) -> Option<Seq<u8>> {
    match get_u32(b, at) {
        None => None,
        Some(n) => if at + 4 + n <= b.len() {
            Some(b.subrange(at + 4, at + 4 + n))
        } else {
            None
        },
    }
}

/// The UTF-8 text that `bytes` spells, when they spell one.
pub open spec fn text(bytes: Seq<u8>) -> Option<Seq<char>> {
    if vstd::utf8::valid_utf8(bytes) {
        Some(vstd::utf8::decode_utf8(bytes))
    } else {
        None
    }
}

/// A fixed-width integer takes exactly its width.
pub proof fn lemma_le_bytes_len(x: nat, n: nat)
    ensures
        le_bytes(x, n).len() == n,
    decreases n,
{
    if n > 0 {
        lemma_le_bytes_len(x / 256, (n - 1) as nat);
    }
}

proof fn lemma_le_value_of_bytes(x: nat, n: nat)
    ensures
        le_value(le_bytes(x, n)) <= x,
        x / 256 == 0 && n >= 1 ==> le_value(le_bytes(x, n)) == x,
        n >= 1 && le_value(le_bytes(x / 256, (n - 1) as nat)) == x / 256 ==> le_value(
            le_bytes(x, n),
        ) == x,
    decreases n,
{
    if n > 0 {
        lemma_le_value_of_bytes(x / 256, (n - 1) as nat);
        let s = le_bytes(x, n);
        assert(s.subrange(1, s.len() as int) =~= le_bytes(x / 256, (n - 1) as nat));
    }
}

/// Reading back the eight bytes of a `u64` gives the `u64`.
pub proof fn lemma_le64_reads_back(x: u64)
    ensures
        le64(x).len() == 8,
        le_value(le64(x)) == x,
{
    lemma_le_bytes_len(x as nat, 8);
    let x0 = x as nat;
    let x1 = x0 / 256;
    let x2 = x1 / 256;
    let x3 = x2 / 256;
    let x4 = x3 / 256;
    let x5 = x4 / 256;
    let x6 = x5 / 256;
    let x7 = x6 / 256;
    lemma_le_value_of_bytes(x7, 1);
    lemma_le_value_of_bytes(x6, 2);
    lemma_le_value_of_bytes(x5, 3);
    lemma_le_value_of_bytes(x4, 4);
    lemma_le_value_of_bytes(x3, 5);
    lemma_le_value_of_bytes(x2, 6);
    lemma_le_value_of_bytes(x1, 7);
    lemma_le_value_of_bytes(x0, 8);
}

/// Reading back the four bytes of a `u32` gives the `u32`.
pub proof fn lemma_le32_reads_back(x: u32)
    ensures
        le32(x).len() == 4,
        le_value(le32(x)) == x,
{
    lemma_le_bytes_len(x as nat, 4);
    let x0 = x as nat;
    let x1 = x0 / 256;
    let x2 = x1 / 256;
    let x3 = x2 / 256;
    lemma_le_value_of_bytes(x3, 1);
    lemma_le_value_of_bytes(x2, 2);
    lemma_le_value_of_bytes(x1, 3);
    lemma_le_value_of_bytes(x0, 4);
}

/// The bytes of the number that a byte string spells are that byte string.
pub proof fn lemma_le_bytes_of_value(s: Seq<u8>)
    ensures
        le_bytes(le_value(s), s.len()) == s,
    decreases s.len(),
{
    if s.len() > 0 {
        let rest = s.subrange(1, s.len() as int);
        lemma_le_bytes_of_value(rest);
        let v = le_value(s);
        assert(v % 256 == s[0] && v / 256 == le_value(rest));
        assert(le_bytes(v, s.len()) =~= s);
    }
}

proof fn lemma_le_value_four(s: Seq<u8>)
    requires
        s.len() == 4,
    ensures
        le_value(s) == s[0] + 256 * s[1] + 65536 * s[2] + 16777216 * s[3],
        le_value(s) <= u32::MAX,
{
    reveal_with_fuel(le_value, 5);
    let s1 = s.subrange(1, 4);
    let s2 = s1.subrange(1, 3);
    let s3 = s2.subrange(1, 2);
    assert(s1[0] == s[1] && s2[0] == s[2] && s3[0] == s[3]);
}

proof fn lemma_le_value_eight(s: Seq<u8>)
    requires
        s.len() == 8,
    ensures
        le_value(s) == le_value(s.subrange(0, 4)) + 4294967296 * le_value(s.subrange(4, 8)),
        le_value(s) <= u64::MAX,
{
    reveal_with_fuel(le_value, 5);
    let s1 = s.subrange(1, 8);
    let s2 = s1.subrange(1, 7);
    let s3 = s2.subrange(1, 6);
    let s4 = s3.subrange(1, 5);
    assert(s4 =~= s.subrange(4, 8));
    assert(le_value(s) == s[0] + 256 * le_value(s1));
    assert(le_value(s1) == s[1] + 256 * le_value(s2));
    assert(le_value(s2) == s[2] + 256 * le_value(s3));
    assert(le_value(s3) == s[3] + 256 * le_value(s4));
    lemma_le_value_four(s.subrange(0, 4));
    lemma_le_value_four(s.subrange(4, 8));
}

/// Two byte strings stand one after the other exactly when each stands in
/// its place.
pub proof fn lemma_holds_concat(b: Seq<u8>, at: int, s: Seq<u8>, t: Seq<u8>)
    ensures
        holds_at(b, at, s + t) <==> (holds_at(b, at, s) && holds_at(b, at + s.len(), t)),
{
    if holds_at(b, at, s + t) {
        let w = b.subrange(at, at + s.len() + t.len());
        assert(w =~= s + t);
        assert(b.subrange(at, at + s.len()) =~= w.subrange(0, s.len() as int));
        assert(w.subrange(0, s.len() as int) =~= s);
        assert(b.subrange(at + s.len(), at + s.len() + t.len()) =~= w.subrange(
            s.len() as int,
            w.len() as int,
        ));
        assert(w.subrange(s.len() as int, w.len() as int) =~= t);
    }
    if holds_at(b, at, s) && holds_at(b, at + s.len(), t) {
        assert(b.subrange(at, at + s.len() + t.len()) =~= b.subrange(at, at + s.len())
            + b.subrange(at + s.len(), at + s.len() + t.len()));
    }
}

/// A `u32` is read at `at` exactly where its four bytes stand.
pub proof fn lemma_get_u32(b: Seq<u8>, at: int, x: u32)
    ensures
        get_u32(b, at) == Some(x) <==> holds_at(b, at, le32(x)),
{
    lemma_le32_reads_back(x);
    if 0 <= at && at + 4 <= b.len() {
        lemma_le_value_four(b.subrange(at, at + 4));
        lemma_le_bytes_of_value(b.subrange(at, at + 4));
    }
}

/// A `u64` is read at `at` exactly where its eight bytes stand.
pub proof fn lemma_get_u64(b: Seq<u8>, at: int, x: u64)
    ensures
        get_u64(b, at) == Some(x) <==> holds_at(b, at, le64(x)),
{
    lemma_le64_reads_back(x);
    if 0 <= at && at + 8 <= b.len() {
        lemma_le_value_eight(b.subrange(at, at + 8));
        lemma_le_bytes_of_value(b.subrange(at, at + 8));
    }
}

/// A block whose length fits its prefix is read at `at` exactly where it
/// stands; a longer one is never read.
pub proof fn lemma_get_block(b: Seq<u8>, at: int, s: Seq<u8>)
    ensures
        s.len() <= u32::MAX ==> (get_block(b, at) == Some(s) <==> holds_at(b, at, block(s))),
        s.len() > u32::MAX ==> get_block(b, at) != Some(s),
        get_block(b, at) == Some(s) ==> block(s).len() == 4 + s.len(),
{
    let n = wire_len(s.len());
    lemma_le32_reads_back(n);
    lemma_get_u32(b, at, n);
    lemma_holds_concat(b, at, le32(n), s);
}

/// A block takes four bytes more than it holds.
pub proof fn lemma_block_len(s: Seq<u8>)
    ensures
        block(s).len() == 4 + s.len(),
{
    lemma_le32_reads_back(wire_len(s.len()));
}

/// Appends `x` as four little-endian bytes.
pub(crate) fn put_u32(out: &mut Vec<u8>, x: u32)
    ensures
        final(out)@ == old(out)@ + le32(x),
{
    let mut rest: u32 = x;
    let mut i: u32 = 0;
    let ghost before = out@;
    while i < 4
        invariant
            i <= 4,
            out@ + le_bytes(rest as nat, (4 - i) as nat) == before + le32(x),
        decreases 4 - i,
    {
        let ghost was = out@;
        let digit: u8 = (rest % 256) as u8;
        out.push(digit);
        proof {
            let tail = le_bytes((rest / 256) as nat, (4 - i - 1) as nat);
            assert(le_bytes(rest as nat, (4 - i) as nat) == seq![digit] + tail);
            assert(was.push(digit) + tail =~= was + (seq![digit] + tail));
        }
        rest = rest / 256;
        i = i + 1;
    }
    proof {
        assert(out@ + le_bytes(rest as nat, 0) =~= out@);
    }
}

/// Appends `x` as eight little-endian bytes.
pub(crate) fn put_u64(out: &mut Vec<u8>, x: u64)
    ensures
        final(out)@ == old(out)@ + le64(x),
{
    let mut rest: u64 = x;
    let mut i: u32 = 0;
    let ghost before = out@;
    while i < 8
        invariant
            i <= 8,
            out@ + le_bytes(rest as nat, (8 - i) as nat) == before + le64(x),
        decreases 8 - i,
    {
        let ghost was = out@;
        let digit: u8 = (rest % 256) as u8;
        out.push(digit);
        proof {
            let tail = le_bytes((rest / 256) as nat, (8 - i - 1) as nat);
            assert(le_bytes(rest as nat, (8 - i) as nat) == seq![digit] + tail);
            assert(was.push(digit) + tail =~= was + (seq![digit] + tail));
        }
        rest = rest / 256;
        i = i + 1;
    }
    proof {
        assert(out@ + le_bytes(rest as nat, 0) =~= out@);
    }
}

/// A length as the wire carries it.
pub(crate) fn saturated_len(n: usize) -> (r: u32)
    ensures
        r == wire_len(n as nat),
{
    if n <= 0xFFFF_FFFF {
        n as u32
    } else {
        0xFFFF_FFFF
    }
}

/// Appends `s` as a length-prefixed block.
pub(crate) fn put_block(out: &mut Vec<u8>, s: &[u8])
    ensures
        final(out)@ == old(out)@ + block(s@),
{
    let ghost before = out@;
    put_u32(out, saturated_len(s.len()));
    out.extend_from_slice(s);
    proof {
        assert(out@ =~= before + block(s@));
    }
}

fn u32_of(s: &[u8], at: usize) -> (r: u32)
    requires
        at + 4 <= s@.len(),
    ensures
        r == le_value(s@.subrange(at as int, at + 4)),
{
    proof {
        lemma_le_value_four(s@.subrange(at as int, at + 4));
    }
    s[at] as u32 + 256 * (s[at + 1] as u32) + 65536 * (s[at + 2] as u32) + 16777216 * (s[at
        + 3] as u32)
}

/// Reads the `u32` at `at`.
pub(crate) fn read_u32(bytes: &[u8], at: usize) -> (r: Option<u32>)
    ensures
        r == get_u32(bytes@, at as int),
        r is Some ==> at + 4 <= bytes@.len() <= usize::MAX,
{
    if bytes.len() < 4 || at > bytes.len() - 4 {
        None
    } else {
        Some(u32_of(bytes, at))
    }
}

/// Reads the `u64` at `at`.
pub(crate) fn read_u64(bytes: &[u8], at: usize) -> (r: Option<u64>)
    ensures
        r == get_u64(bytes@, at as int),
{
    if bytes.len() < 8 || at > bytes.len() - 8 {
        None
    } else {
        let low: u32 = u32_of(bytes, at);
        let high: u32 = u32_of(bytes, at + 4);
        proof {
            let s = bytes@.subrange(at as int, at + 8);
            lemma_le_value_eight(s);
            assert(s.subrange(0, 4) =~= bytes@.subrange(at as int, at + 4));
            assert(s.subrange(4, 8) =~= bytes@.subrange(at + 4, at + 8));
        }
        Some(low as u64 + 4294967296 * (high as u64))
    }
}

/// Reads the length-prefixed block at `at`.
pub(crate) fn read_block<'a>(bytes: &'a [u8], at: usize) -> (r: Option<&'a [u8]>)
    ensures
        match r {
            Some(s) => {
                &&& get_block(bytes@, at as int) == Some(s@)
                &&& at + 4 + s@.len() <= bytes@.len() <= usize::MAX
            },
            None => get_block(bytes@, at as int) is None,
        },
{
    let total: usize = bytes.len();
    match read_u32(bytes, at) {
        None => None,
        Some(n) => {
            let start: usize = at + 4;
            let len: usize = n as usize;
            if len > total - start {
                None
            } else {
                Some(slice_subrange(bytes, start, start + len))
            }
        },
    }
}

/// Whether two byte strings are the same.
pub(crate) fn same_bytes(a: &[u8], b: &[u8]) -> (r: bool)
    ensures
        r == (a@ == b@),
{
    if a.len() != b.len() {
        return false;
    }
    let mut i: usize = 0;
    while i < a.len()
        invariant
            i <= a@.len(),
            a@.len() == b@.len(),
            forall|j: int| 0 <= j < i ==> a@[j] == b@[j],
        decreases a@.len() - i,
    {
        if a[i] != b[i] {
            return false;
        }
        i = i + 1;
    }
    proof {
        assert(a@ =~= b@);
    }
    true
}

/// Reads `bytes` as text. The one call here is `std::str::from_utf8`, which
/// accepts exactly the valid UTF-8 byte strings and hands back the text they
/// spell.
#[verifier::external_body]
pub(crate) fn read_text(bytes: &[u8]) -> (r: Option<String>)
    ensures
        match r {
            Some(s) => text(bytes@) == Some(s@),
            None => text(bytes@) is None,
        },
{
    match std::str::from_utf8(bytes) {
        Ok(s) => Some(s.to_owned()),
        Err(_) => None,
    }
}

/// A number's bytes stand with the lowest first.
pub proof fn the_lowest_byte_stands_first(x: u32, y: u64)
    ensures
        le32(x).len() == 4,
        x == le32(x)[0] + 256 * le32(x)[1] + 65536 * le32(x)[2] + 16777216 * le32(x)[3],
        le64(y).len() == 8,
        y == le64(y)[0] + 256 * le64(y)[1] + 65536 * le64(y)[2] + 16777216 * le64(y)[3]
            + 4294967296 * (le64(y)[4] + 256 * le64(y)[5] + 65536 * le64(y)[6] + 16777216 * le64(
            y,
        )[7]),
{
    lemma_le32_reads_back(x);
    lemma_le64_reads_back(y);
    lemma_le_value_four(le32(x));
    lemma_le_value_eight(le64(y));
    lemma_le_value_four(le64(y).subrange(0, 4));
    lemma_le_value_four(le64(y).subrange(4, 8));
}

} // verus!
