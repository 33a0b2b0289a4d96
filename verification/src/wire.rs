//! The gossiped representation of a write feed: which group entry it
//! occupies, and the ring frame encoded into it.

use vstd::prelude::*;

verus! {

/// The entry key of the default feed (`~`-prefixed like every reserved
/// entry). Named feeds append `:<name>`.
pub const ENTRY_KEY: &'static str = "~writes";

/// A reserved key, and the one a name makes of it: the key itself for the
/// empty name, else the key, a colon and the name.
pub open spec fn scoped_key(base: Seq<char>, name: Seq<char>) -> Seq<char> {
    if name.len() == 0 {
        base
    } else {
        base + seq![':'] + name
    }
}

/// The key a name makes of a reserved key.
pub(crate) fn scoped(base: &str, name: &str) -> (r: String)
    ensures
        r@ == scoped_key(base@, name@),
{
    let mut out: String = base.to_owned();
    if !name.is_empty() {
        proof {
            reveal_strlit(":");
        }
        out.append(":");
        out.append(name);
        proof {
            assert(out@ =~= scoped_key(base@, name@));
        }
    }
    out
}

/// Distinct names make distinct keys of one reserved key.
pub proof fn names_make_distinct_keys(base: Seq<char>, a: Seq<char>, b: Seq<char>)
    ensures
        scoped_key(base, a) == scoped_key(base, b) <==> a == b,
{
    let ka = scoped_key(base, a);
    let kb = scoped_key(base, b);
    if ka == kb {
        assert(ka.len() == kb.len());
        assert(a.len() == b.len());
        if a.len() > 0 {
            assert(ka.subrange((base.len() + 1) as int, ka.len() as int) =~= a);
            assert(kb.subrange((base.len() + 1) as int, kb.len() as int) =~= b);
        } else {
            assert(a =~= b);
        }
    }
}

/// The entry key for a feed name: the reserved default, or `~writes:<name>`.
pub fn entry_key(name: &str) -> (r: String)
    ensures
        r@ == scoped_key(ENTRY_KEY@, name@),
{
    scoped(ENTRY_KEY, name)
}

/// The wire frame: the feed epoch, `first_seq`, and the encoded keys of the
/// last N writes, sequential from `first_seq`.
#[derive(Debug)]
pub struct Frame {
    /// The feed life.
    pub epoch: u64,
    /// The sequence number of the first key.
    pub first_seq: u64,
    /// The encoded keys.
    pub keys: Vec<Vec<u8>>,
}

/// What a frame says.
pub struct FrameView {
    pub epoch: u64,
    pub first_seq: u64,
    pub keys: Seq<Seq<u8>>,
}

/// The byte strings in a list of buffers.
pub open spec fn contents(keys: Seq<Vec<u8>>) -> Seq<Seq<u8>> {
    keys.map_values(|k: Vec<u8>| k@)
}

impl View for Frame {
    type V = FrameView;

    open spec fn view(&self) -> FrameView {
        FrameView { epoch: self.epoch, first_seq: self.first_seq, keys: contents(self.keys@) }
    }
}

impl FrameView {
    /// The sequence number after the last key.
    pub open spec fn end(self) -> int {
        self.first_seq + self.keys.len()
    }

    /// Whether the count and every key fit their length prefixes.
    pub open spec fn fits(self) -> bool {
        &&& self.keys.len() <= u32::MAX
        &&& keys_fit(self.keys)
    }

    /// `(epoch: u64) (first_seq: u64) (count: u32) (len: u32, key)*`,
    /// little-endian.
    pub open spec fn bytes(self) -> Seq<u8> {
        crate::codec::le64(self.epoch) + (crate::codec::le64(self.first_seq) + (
        crate::codec::le32(crate::codec::wire_len(self.keys.len())) + keys_bytes(self.keys)))
    }
}

/// Whether every key fits its length prefix.
pub open spec fn keys_fit(keys: Seq<Seq<u8>>) -> bool {
    forall|i: int| 0 <= i < keys.len() ==> (#[trigger] keys[i]).len() <= u32::MAX
}

/// The keys, each as a length-prefixed block.
pub open spec fn keys_bytes(keys: Seq<Seq<u8>>) -> Seq<u8>
    decreases keys.len(),
{
    if keys.len() == 0 {
        Seq::empty()
    } else {
        crate::codec::block(keys[0]) + keys_bytes(keys.subrange(1, keys.len() as int))
    }
}

/// The `n` length-prefixed keys from `at` on.
pub open spec fn get_keys(b: Seq<u8>, at: int, n: nat) -> Option<Seq<Seq<u8>>>
    decreases n,
{
    if n == 0 {
        Some(Seq::empty())
    } else {
        match crate::codec::get_block(b, at) {
            None => None,
            Some(key) => match get_keys(b, at + 4 + key.len(), (n - 1) as nat) {
                None => None,
                Some(rest) => Some(seq![key] + rest),
            },
        }
    }
}

/// The frame at the front of `b`. Bytes behind it are not looked at.
pub open spec fn parse_frame(b: Seq<u8>) -> Option<FrameView> {
    match (crate::codec::get_u64(b, 0), crate::codec::get_u64(b, 8), crate::codec::get_u32(b, 16)) {
        (Some(epoch), Some(first_seq), Some(count)) => match get_keys(b, 20, count as nat) {
            None => None,
            Some(keys) => Some(FrameView { epoch, first_seq, keys }),
        },
        _ => None,
    }
}

/// The size of the keys on the wire: four bytes more than each holds.
pub open spec fn keys_size(keys: Seq<Seq<u8>>) -> nat
    decreases keys.len(),
{
    if keys.len() == 0 {
        0
    } else {
        4 + keys[0].len() + keys_size(keys.subrange(1, keys.len() as int))
    }
}

/// A frame takes twenty bytes and four more than each key holds.
pub proof fn lemma_frame_size(f: FrameView)
    ensures
        f.bytes().len() == 20 + keys_size(f.keys),
{
    lemma_keys_size(f.keys);
    crate::codec::lemma_le64_reads_back(f.epoch);
    crate::codec::lemma_le64_reads_back(f.first_seq);
    crate::codec::lemma_le32_reads_back(crate::codec::wire_len(f.keys.len()));
}

proof fn lemma_keys_size(keys: Seq<Seq<u8>>)
    ensures
        keys_bytes(keys).len() == keys_size(keys),
    decreases keys.len(),
{
    if keys.len() > 0 {
        crate::codec::lemma_block_len(keys[0]);
        lemma_keys_size(keys.subrange(1, keys.len() as int));
    }
}

proof fn lemma_keys_read_back(b: Seq<u8>, at: int, keys: Seq<Seq<u8>>)
    requires
        crate::codec::holds_at(b, at, keys_bytes(keys)),
        keys_fit(keys),
    ensures
        get_keys(b, at, keys.len()) == Some(keys),
    decreases keys.len(),
{
    if keys.len() > 0 {
        let rest = keys.subrange(1, keys.len() as int);
        crate::codec::lemma_holds_concat(b, at, crate::codec::block(keys[0]), keys_bytes(rest));
        crate::codec::lemma_get_block(b, at, keys[0]);
        crate::codec::lemma_block_len(keys[0]);
        assert forall|i: int| 0 <= i < rest.len() implies (#[trigger] rest[i]).len()
            <= u32::MAX by {
            assert(rest[i] == keys[i + 1]);
        }
        lemma_keys_read_back(b, at + 4 + keys[0].len(), rest);
        assert(seq![keys[0]] + rest =~= keys);
    } else {
        assert(keys =~= Seq::empty());
    }
}

proof fn lemma_keys_stand(b: Seq<u8>, at: int, n: nat)
    requires
        0 <= at <= b.len(),
    ensures
        get_keys(b, at, n) matches Some(keys) ==> {
            &&& keys.len() == n
            &&& keys_fit(keys)
            &&& crate::codec::holds_at(b, at, keys_bytes(keys))
        },
    decreases n,
{
    if n > 0 {
        match crate::codec::get_block(b, at) {
            None => {},
            Some(key) => {
                crate::codec::lemma_get_block(b, at, key);
                crate::codec::lemma_block_len(key);
                let next = at + 4 + key.len();
                lemma_keys_stand(b, next, (n - 1) as nat);
                match get_keys(b, next, (n - 1) as nat) {
                    None => {},
                    Some(rest) => {
                        let keys = seq![key] + rest;
                        assert(keys.subrange(1, keys.len() as int) =~= rest);
                        crate::codec::lemma_holds_concat(
                            b,
                            at,
                            crate::codec::block(key),
                            keys_bytes(rest),
                        );
                        assert forall|i: int| 0 <= i < keys.len() implies (#[trigger] keys[i]).len()
                            <= u32::MAX by {
                            if i > 0 {
                                assert(keys[i] == rest[i - 1]);
                            }
                        }
                    },
                }
            },
        }
    } else {
        assert(b.subrange(at, at) =~= Seq::<u8>::empty());
    }
}

proof fn lemma_frame_parts(b: Seq<u8>, f: FrameView)
    ensures
        crate::codec::holds_at(b, 0, f.bytes()) <==> {
            &&& crate::codec::holds_at(b, 0, crate::codec::le64(f.epoch))
            &&& crate::codec::holds_at(b, 8, crate::codec::le64(f.first_seq))
            &&& crate::codec::holds_at(
                b,
                16,
                crate::codec::le32(crate::codec::wire_len(f.keys.len())),
            )
            &&& crate::codec::holds_at(b, 20, keys_bytes(f.keys))
        },
{
    let e = crate::codec::le64(f.epoch);
    let s = crate::codec::le64(f.first_seq);
    let c = crate::codec::le32(crate::codec::wire_len(f.keys.len()));
    let k = keys_bytes(f.keys);
    crate::codec::lemma_le64_reads_back(f.epoch);
    crate::codec::lemma_le64_reads_back(f.first_seq);
    crate::codec::lemma_le32_reads_back(crate::codec::wire_len(f.keys.len()));
    crate::codec::lemma_holds_concat(b, 16, c, k);
    crate::codec::lemma_holds_concat(b, 8, s, c + k);
    crate::codec::lemma_holds_concat(b, 0, e, s + (c + k));
}

/// A frame whose parts fit their prefixes is read back from its bytes,
/// whatever stands behind them.
pub proof fn frames_read_back(f: FrameView, tail: Seq<u8>)
    requires
        f.fits(),
    ensures
        parse_frame(f.bytes() + tail) == Some(f),
{
    let b = f.bytes() + tail;
    assert(b.subrange(0, f.bytes().len() as int) =~= f.bytes());
    lemma_frame_parts(b, f);
    crate::codec::lemma_get_u64(b, 0, f.epoch);
    crate::codec::lemma_get_u64(b, 8, f.first_seq);
    crate::codec::lemma_get_u32(b, 16, f.keys.len() as u32);
    lemma_keys_read_back(b, 20, f.keys);
}

/// A frame is only ever read from bytes that begin with its encoding.
pub proof fn frames_are_read_as_written(b: Seq<u8>, f: FrameView)
    requires
        parse_frame(b) == Some(f),
    ensures
        f.fits(),
        f.bytes().len() <= b.len(),
        b.subrange(0, f.bytes().len() as int) == f.bytes(),
{
    let count = crate::codec::get_u32(b, 16)->0;
    lemma_keys_stand(b, 20, count as nat);
    crate::codec::lemma_get_u64(b, 0, f.epoch);
    crate::codec::lemma_get_u64(b, 8, f.first_seq);
    crate::codec::lemma_get_u32(b, 16, count);
    lemma_frame_parts(b, f);
}

/// No proper prefix of a frame's encoding is a frame.
pub proof fn truncated_frames_are_rejected(f: FrameView, cut: int)
    requires
        f.fits(),
        0 <= cut < f.bytes().len(),
    ensures
        parse_frame(f.bytes().subrange(0, cut)) is None,
{
    let short = f.bytes().subrange(0, cut);
    if let Some(g) = parse_frame(short) {
        frames_are_read_as_written(short, g);
        let n = g.bytes().len() as int;
        let tail = f.bytes().subrange(n, f.bytes().len() as int);
        assert(f.bytes() =~= g.bytes() + tail) by {
            assert(f.bytes().subrange(0, n) =~= short.subrange(0, n));
        }
        frames_read_back(g, tail);
        frames_read_back(f, Seq::empty());
        assert(f.bytes() + Seq::<u8>::empty() =~= f.bytes());
        assert(f == g);
    }
}

/// Reads `count` length-prefixed keys from `start` on.
fn read_keys(bytes: &[u8], start: usize, count: u32) -> (r: Option<Vec<Vec<u8>>>)
    ensures
        match r {
            Some(keys) => get_keys(bytes@, start as int, count as nat) == Some(contents(keys@)),
            None => get_keys(bytes@, start as int, count as nat) is None,
        },
{
    let mut keys: Vec<Vec<u8>> = Vec::new();
    let mut at: usize = start;
    let mut i: u32 = 0;
    proof {
        assert(contents(keys@) =~= Seq::<Seq<u8>>::empty());
        if let Some(rest) = get_keys(bytes@, start as int, count as nat) {
            assert(contents(keys@) + rest =~= rest);
        }
    }
    while i < count
        invariant
            i <= count,
            match get_keys(bytes@, at as int, (count - i) as nat) {
                Some(rest) => get_keys(bytes@, start as int, count as nat) == Some(
                    contents(keys@) + rest,
                ),
                None => get_keys(bytes@, start as int, count as nat) is None,
            },
        decreases count - i,
    {
        match crate::codec::read_block(bytes, at) {
            None => {
                return None;
            },
            Some(key) => {
                let ghost was = contents(keys@);
                keys.push(vstd::slice::slice_to_vec(key));
                proof {
                    assert(contents(keys@) =~= was.push(key@));
                    let next = at + 4 + key@.len();
                    if let Some(rest) = get_keys(bytes@, next, (count - i - 1) as nat) {
                        assert(was + (seq![key@] + rest) =~= contents(keys@) + rest);
                    }
                }
                at = at + 4 + key.len();
            },
        }
        i = i + 1;
    }
    proof {
        assert(contents(keys@) + Seq::<Seq<u8>>::empty() =~= contents(keys@));
    }
    Some(keys)
}

impl Frame {
    /// The frame's bytes.
    pub fn encode(&self) -> (r: Vec<u8>)
        ensures
            r@ == self@.bytes(),
    {
        let mut out: Vec<u8> = Vec::new();
        crate::codec::put_u64(&mut out, self.epoch);
        crate::codec::put_u64(&mut out, self.first_seq);
        crate::codec::put_u32(&mut out, crate::codec::saturated_len(self.keys.len()));
        let ghost all = contents(self.keys@);
        let ghost head = out@;
        proof {
            assert(all.subrange(0, all.len() as int) =~= all);
        }
        let mut i: usize = 0;
        while i < self.keys.len()
            invariant
                i <= self.keys@.len(),
                all == contents(self.keys@),
                out@ + keys_bytes(all.subrange(i as int, all.len() as int)) == head + keys_bytes(
                    all,
                ),
            decreases self.keys@.len() - i,
        {
            let ghost was = out@;
            let ghost rest = all.subrange(i as int, all.len() as int);
            crate::codec::put_block(&mut out, self.keys[i].as_slice());
            proof {
                let left = all.subrange(i + 1, all.len() as int);
                assert(rest.subrange(1, rest.len() as int) =~= left);
                assert(rest[0] == self.keys@[i as int]@);
                assert(was + crate::codec::block(rest[0]) + keys_bytes(left) =~= was + (
                crate::codec::block(rest[0]) + keys_bytes(left)));
            }
            i = i + 1;
        }
        proof {
            let none = all.subrange(i as int, all.len() as int);
            assert(none =~= Seq::<Seq<u8>>::empty());
            assert(out@ + keys_bytes(none) =~= out@);
            assert(out@ =~= self@.bytes());
        }
        out
    }

    /// The frame at the front of `bytes`, or `None` when they do not hold a
    /// whole one.
    pub fn decode(bytes: &[u8]) -> (r: Option<Frame>)
        ensures
            match r {
                Some(f) => parse_frame(bytes@) == Some(f@),
                None => parse_frame(bytes@) is None,
            },
    {
        let epoch: u64 = match crate::codec::read_u64(bytes, 0) {
            Some(x) => x,
            None => return None,
        };
        let first_seq: u64 = match crate::codec::read_u64(bytes, 8) {
            Some(x) => x,
            None => return None,
        };
        let count: u32 = match crate::codec::read_u32(bytes, 16) {
            Some(x) => x,
            None => return None,
        };
        match read_keys(bytes, 20, count) {
            None => None,
            Some(keys) => Some(Frame { epoch, first_seq, keys }),
        }
    }

    /// The sequence number after the last key.
    pub fn end(&self) -> (r: u64)
        requires
            self@.end() <= u64::MAX,
        ensures
            r == self@.end(),
    {
        self.first_seq + self.keys.len() as u64
    }
}

proof fn lemma_keys_push(keys: Seq<Seq<u8>>, key: Seq<u8>)
    ensures
        keys_bytes(keys.push(key)) == keys_bytes(keys) + crate::codec::block(key),
    decreases keys.len(),
{
    let all = keys.push(key);
    if keys.len() > 0 {
        let rest = keys.subrange(1, keys.len() as int);
        lemma_keys_push(rest, key);
        assert(all.subrange(1, all.len() as int) =~= rest.push(key));
        assert(keys_bytes(all) =~= keys_bytes(keys) + crate::codec::block(key));
    } else {
        assert(all.subrange(1, all.len() as int) =~= keys);
        assert(keys_bytes(all) =~= keys_bytes(keys) + crate::codec::block(key));
    }
}

/// A frame begins with the feed life, the first number and the count, each
/// lowest byte first; then each key follows its own length, in order.
pub proof fn a_frame_is_laid_out(f: FrameView, key: Seq<u8>)
    requires
        f.keys.len() <= u32::MAX,
        key.len() <= u32::MAX,
    ensures
        f.bytes().len() >= 20,
        f.bytes().subrange(0, 8) == crate::codec::le64(f.epoch),
        f.bytes().subrange(8, 16) == crate::codec::le64(f.first_seq),
        f.bytes().subrange(16, 20) == crate::codec::le32(f.keys.len() as u32),
        f.bytes().subrange(20, f.bytes().len() as int) == keys_bytes(f.keys),
        keys_bytes(Seq::empty()).len() == 0,
        keys_bytes(f.keys.push(key)) == keys_bytes(f.keys) + crate::codec::le32(key.len() as u32)
            + key,
{
    let b = f.bytes();
    let n = crate::codec::wire_len(f.keys.len());
    crate::codec::lemma_le64_reads_back(f.epoch);
    crate::codec::lemma_le64_reads_back(f.first_seq);
    crate::codec::lemma_le32_reads_back(n);
    assert(b.subrange(0, 8) =~= crate::codec::le64(f.epoch));
    assert(b.subrange(8, 16) =~= crate::codec::le64(f.first_seq));
    assert(b.subrange(16, 20) =~= crate::codec::le32(n));
    assert(b.subrange(20, b.len() as int) =~= keys_bytes(f.keys));
    lemma_keys_push(f.keys, key);
    assert(keys_bytes(f.keys.push(key)) =~= keys_bytes(f.keys) + crate::codec::le32(
        key.len() as u32,
    ) + key);
}

/// The empty name keeps the reserved key; any other follows it after a colon.
pub proof fn a_name_follows_a_colon(base: Seq<char>, name: Seq<char>)
    ensures
        name.len() == 0 ==> scoped_key(base, name) == base,
        name.len() > 0 ==> {
            let key = scoped_key(base, name);
            &&& key.len() == base.len() + 1 + name.len()
            &&& key.subrange(0, base.len() as int) == base
            &&& key[base.len() as int] == ':'
            &&& key.subrange(base.len() + 1int, key.len() as int) == name
        },
{
    if name.len() > 0 {
        let key = scoped_key(base, name);
        assert(key.subrange(0, base.len() as int) =~= base);
        assert(key.subrange(base.len() + 1int, key.len() as int) =~= name);
    }
}

} // verus!
