//! The handoff's frames.
//!
//! Every frame opens with the magic `GNHO`, a version and a kind, and goes on,
//! little-endian throughout, per kind:
//!
//! ```text
//! 1 Request { (len: u32) group (len: u32) name (need: record map) }
//! 2 Offer   { (fence_epoch: u64) (len: u32) host (covers: record map) }
//! 3 Refuse  { (code: u8) [ (have: record map), code 1 only ] }
//! 4 Chunk   { opaque bytes to the end of the frame }
//! 5 Done    { (chunks: u64) (bytes: u64) (final_epoch: u64) (len: u32) host }
//! ```
//!
//! The record map is the commit ledger's. A host of length zero means that
//! there is none.

use crate::hosted::handoff::types::{HandoffError, RefusalCode};
use crate::idmap::IdMap;
use crate::ids::{GroupId, NodeId};
use crate::token::WriteToken;
use crate::watermarks::Watermarks;
use bytes::Bytes;
use vstd::prelude::*;

verus! {

/// The protocol version.
pub const VERSION: u8 = 1;

/// The kind of a request.
pub const KIND_REQUEST: u8 = 1;

/// The kind of an offer.
pub const KIND_OFFER: u8 = 2;

/// The kind of a refusal.
pub const KIND_REFUSE: u8 = 3;

/// The kind of a chunk.
pub const KIND_CHUNK: u8 = 4;

/// The kind of a terminator.
pub const KIND_DONE: u8 = 5;

/// Magic, version and kind.
pub const PREFIX: usize = 6;

/// One frame of the handoff protocol.
#[derive(Debug, PartialEq, Eq)]
pub enum Frame {
    /// The requester opens with this: which write path, and how far it needs
    /// a donor to have got.
    Request {
        /// The group whose write path is being recovered.
        group: GroupId,
        /// The write path's name, empty for the default one.
        name: String,
        /// The watermarks the requester must reach.
        need: Watermarks,
    },
    /// The donor's acceptance: its fence stamp, and what its snapshot covers.
    Offer {
        /// The leadership epoch the donor had adopted when it opened.
        fence_epoch: u64,
        /// Who it believed held that epoch.
        host: Option<NodeId>,
        /// The watermarks the snapshot is at or above.
        covers: Watermarks,
    },
    /// The donor's refusal.
    Refuse {
        /// Why.
        code: RefusalCode,
        /// What the donor does cover, when that is why; nothing otherwise.
        have: Watermarks,
    },
    /// One opaque piece of the snapshot.
    Chunk(Bytes),
    /// The terminator, and the counts that prove the stream was whole.
    Done {
        /// Chunks sent.
        chunks: u64,
        /// Payload bytes sent, framing excluded.
        bytes: u64,
        /// The donor's fence epoch at the end of the transfer.
        final_epoch: u64,
        /// The host it believed held that epoch by then.
        final_host: Option<NodeId>,
    },
}

/// A frame as plain values.
pub enum FrameView {
    Request { group: Seq<char>, name: Seq<char>, need: Map<Seq<char>, WriteToken> },
    Offer { fence_epoch: u64, host: Option<Seq<char>>, covers: Map<Seq<char>, WriteToken> },
    Refuse { code: RefusalCode, have: Map<Seq<char>, WriteToken> },
    Chunk { data: Seq<u8> },
    Done { chunks: u64, bytes: u64, final_epoch: u64, final_host: Option<Seq<char>> },
}

/// The name of a host that may be missing.
pub open spec fn host_name(host: Option<NodeId>) -> Option<Seq<char>> {
    match host {
        None => None,
        Some(id) => Some(id@),
    }
}

impl View for Frame {
    type V = FrameView;

    open spec fn view(&self) -> FrameView {
        match *self {
            Frame::Request { group, name, need } => FrameView::Request {
                group: group@,
                name: name@,
                need: need@,
            },
            Frame::Offer { fence_epoch, host, covers } => FrameView::Offer {
                fence_epoch,
                host: host_name(host),
                covers: covers@,
            },
            Frame::Refuse { code, have } => FrameView::Refuse { code, have: have@ },
            Frame::Chunk(data) => FrameView::Chunk { data: crate::blob::contents(data) },
            Frame::Done { chunks, bytes, final_epoch, final_host } => FrameView::Done {
                chunks,
                bytes,
                final_epoch,
                final_host: host_name(final_host),
            },
        }
    }
}

/// The six bytes every frame of a kind opens with: `GNHO`, the version and
/// the kind.
pub open spec fn prefix(kind: u8) -> Seq<u8> {
    seq![71u8, 78u8, 72u8, 79u8, 1u8, kind]
}

/// A text as the wire carries it.
pub open spec fn text_bytes(s: Seq<char>) -> Seq<u8> {
    crate::codec::block(vstd::utf8::encode_utf8(s))
}

/// A host as the wire carries it: no host is the empty name.
pub open spec fn host_bytes(host: Option<Seq<char>>) -> Seq<u8> {
    match host {
        None => text_bytes(Seq::empty()),
        Some(name) => text_bytes(name),
    }
}

/// What stands behind a request's prefix.
pub open spec fn request_body(
    group: Seq<char>,
    name: Seq<char>,
    need: Seq<(Seq<char>, WriteToken)>,
) -> Seq<u8> {
    text_bytes(group) + (text_bytes(name) + crate::hosted::ledger::counted_bytes(need))
}

/// What stands behind an offer's prefix.
pub open spec fn offer_body(
    fence_epoch: u64,
    host: Option<Seq<char>>,
    covers: Seq<(Seq<char>, WriteToken)>,
) -> Seq<u8> {
    crate::codec::le64(fence_epoch) + (host_bytes(host) + crate::hosted::ledger::counted_bytes(
        covers,
    ))
}

/// What stands behind a refusal's prefix.
pub open spec fn refusal_body(code: RefusalCode, have: Seq<(Seq<char>, WriteToken)>) -> Seq<u8> {
    seq![code.byte()] + (if code == RefusalCode::NotCovered {
        crate::hosted::ledger::counted_bytes(have)
    } else {
        Seq::empty()
    })
}

/// What stands behind a terminator's prefix.
pub open spec fn done_body(
    chunks: u64,
    bytes: u64,
    final_epoch: u64,
    final_host: Option<Seq<char>>,
) -> Seq<u8> {
    crate::codec::le64(chunks) + (crate::codec::le64(bytes) + (crate::codec::le64(final_epoch)
        + host_bytes(final_host)))
}

/// What stands behind a frame's prefix.
pub open spec fn body_bytes(frame: Frame) -> Seq<u8> {
    match frame {
        Frame::Request { group, name, need } => request_body(group@, name@, need.records()),
        Frame::Offer { fence_epoch, host, covers } => offer_body(
            fence_epoch,
            host_name(host),
            covers.records(),
        ),
        Frame::Refuse { code, have } => refusal_body(code, have.records()),
        Frame::Chunk(data) => crate::blob::contents(data),
        Frame::Done { chunks, bytes, final_epoch, final_host } => done_body(
            chunks,
            bytes,
            final_epoch,
            host_name(final_host),
        ),
    }
}

/// The kind of a frame.
pub open spec fn kind_of(frame: Frame) -> u8 {
    match frame {
        Frame::Request { .. } => KIND_REQUEST,
        Frame::Offer { .. } => KIND_OFFER,
        Frame::Refuse { .. } => KIND_REFUSE,
        Frame::Chunk(_) => KIND_CHUNK,
        Frame::Done { .. } => KIND_DONE,
    }
}

/// A frame on the wire.
pub open spec fn frame_bytes(frame: Frame) -> Seq<u8> {
    prefix(kind_of(frame)) + body_bytes(frame)
}

/// The length-prefixed text at `at`, and the offset behind it.
pub open spec fn get_text(b: Seq<u8>, at: int) -> Option<(Seq<char>, int)> {
    match crate::codec::get_block(b, at) {
        None => None,
        Some(s) => match crate::codec::text(s) {
            None => None,
            Some(t) => Some((t, at + 4 + s.len())),
        },
    }
}

/// The host a name stands for: the empty name is none.
pub open spec fn host_named(name: Seq<char>) -> Option<Seq<char>> {
    if name.len() == 0 {
        None
    } else {
        Some(name)
    }
}

/// The request whose body stands behind the prefix, and where it ends.
pub open spec fn get_request(b: Seq<u8>) -> Option<(FrameView, int)> {
    match get_text(b, 6) {
        None => None,
        Some((group, at)) => match get_text(b, at) {
            None => None,
            Some((name, next)) => match crate::hosted::ledger::get_counted(b, next) {
                None => None,
                Some((need, end)) => Some((FrameView::Request { group, name, need }, end)),
            },
        },
    }
}

/// The offer whose body stands behind the prefix, and where it ends.
pub open spec fn get_offer(b: Seq<u8>) -> Option<(FrameView, int)> {
    match crate::codec::get_u64(b, 6) {
        None => None,
        Some(fence_epoch) => match get_text(b, 14) {
            None => None,
            Some((host, next)) => match crate::hosted::ledger::get_counted(b, next) {
                None => None,
                Some((covers, end)) => Some(
                    (FrameView::Offer { fence_epoch, host: host_named(host), covers }, end),
                ),
            },
        },
    }
}

/// The refusal with `code` behind the prefix, and where it ends.
pub open spec fn get_refusal(b: Seq<u8>, code: RefusalCode) -> Option<(FrameView, int)> {
    if code == RefusalCode::NotCovered {
        match crate::hosted::ledger::get_counted(b, 7) {
            None => None,
            Some((have, end)) => Some((FrameView::Refuse { code, have }, end)),
        }
    } else {
        Some((FrameView::Refuse { code, have: Map::empty() }, 7))
    }
}

/// The terminator whose body stands behind the prefix, and where it ends.
pub open spec fn get_done(b: Seq<u8>) -> Option<(FrameView, int)> {
    match (
        crate::codec::get_u64(b, 6),
        crate::codec::get_u64(b, 14),
        crate::codec::get_u64(b, 22),
        get_text(b, 30),
    ) {
        (Some(chunks), Some(bytes), Some(final_epoch), Some((host, end))) => Some(
            (FrameView::Done { chunks, bytes, final_epoch, final_host: host_named(host) }, end),
        ),
        _ => None,
    }
}

/// A body counts only when nothing is left behind it.
pub open spec fn whole(b: Seq<u8>, body: Option<(FrameView, int)>) -> Option<FrameView> {
    match body {
        Some((frame, end)) => if end == b.len() {
            Some(frame)
        } else {
            None
        },
        None => None,
    }
}

/// What a payload is: a whole frame, not a whole frame, or, with the words
/// that say so, not this protocol at all.
pub open spec fn parse(b: Seq<u8>) -> Result<Option<FrameView>, Seq<char>> {
    if b.len() < 6 {
        Ok(None)
    } else if b.subrange(0, 4) != prefix(0).subrange(0, 4) {
        Err("not a handoff frame"@)
    } else if b[4] != VERSION {
        Err("unknown handoff protocol version"@)
    } else if b[5] == KIND_CHUNK {
        Ok(Some(FrameView::Chunk { data: b.subrange(6, b.len() as int) }))
    } else if b[5] == KIND_REQUEST {
        Ok(whole(b, get_request(b)))
    } else if b[5] == KIND_OFFER {
        Ok(whole(b, get_offer(b)))
    } else if b[5] == KIND_REFUSE {
        if b.len() == 6 {
            Ok(None)
        } else {
            match RefusalCode::of(b[6]) {
                None => Err("unknown handoff refusal code"@),
                Some(code) => Ok(whole(b, get_refusal(b, code))),
            }
        }
    } else if b[5] == KIND_DONE {
        Ok(whole(b, get_done(b)))
    } else {
        Err("unknown handoff frame kind"@)
    }
}

/// Whether a payload opens like a request.
pub open spec fn opens_request(b: Seq<u8>) -> bool {
    b.len() >= 6 && b.subrange(0, 6) == prefix(KIND_REQUEST)
}

/// Whether the first four bytes are the magic.
fn has_magic(bytes: &[u8]) -> (r: bool)
    requires
        bytes@.len() >= 6,
    ensures
        r == (bytes@.subrange(0, 4) == prefix(0).subrange(0, 4)),
{
    let r: bool = bytes[0] == 71 && bytes[1] == 78 && bytes[2] == 72 && bytes[3] == 79;
    proof {
        let got = bytes@.subrange(0, 4);
        let want = prefix(0).subrange(0, 4);
        assert(want =~= seq![71u8, 78u8, 72u8, 79u8]);
        assert(got[0] == bytes@[0] && got[1] == bytes@[1] && got[2] == bytes@[2] && got[3]
            == bytes@[3]);
        if r {
            assert(got =~= want);
        }
    }
    r
}

/// Whether `payload` opens a handoff: magic, version and kind, and nothing
/// more. A prefix test, not a validity claim; a `false` is conclusive.
#[must_use]
pub fn is_request(payload: &[u8]) -> (r: bool)
    ensures
        r == opens_request(payload@),
{
    if payload.len() < PREFIX {
        return false;
    }
    let r: bool = has_magic(payload) && payload[4] == VERSION && payload[5] == KIND_REQUEST;
    proof {
        let got = payload@.subrange(0, 6);
        let want = prefix(KIND_REQUEST);
        assert(got.subrange(0, 4) =~= payload@.subrange(0, 4));
        assert(want.subrange(0, 4) =~= prefix(0).subrange(0, 4));
        assert(got[4] == payload@[4] && got[5] == payload@[5]);
        if r {
            assert(got =~= got.subrange(0, 4) + seq![got[4], got[5]]);
            assert(want =~= want.subrange(0, 4) + seq![want[4], want[5]]);
        }
    }
    r
}

fn put_prefix(out: &mut Vec<u8>, kind: u8)
    ensures
        final(out)@ == old(out)@ + prefix(kind),
{
    let ghost before = out@;
    out.push(71);
    out.push(78);
    out.push(72);
    out.push(79);
    out.push(VERSION);
    out.push(kind);
    proof {
        assert(out@ =~= before + prefix(kind));
    }
}

fn put_text(out: &mut Vec<u8>, s: &str)
    ensures
        final(out)@ == old(out)@ + text_bytes(s@),
{
    crate::codec::put_block(out, s.as_bytes());
}

fn put_host(out: &mut Vec<u8>, host: &Option<NodeId>)
    ensures
        final(out)@ == old(out)@ + host_bytes(host_name(*host)),
{
    match host {
        Some(id) => put_text(out, id.as_str()),
        None => {
            proof {
                reveal_strlit("");
                assert(""@ =~= Seq::<char>::empty());
            }
            put_text(out, "")
        },
    }
}

/// Whether a frame can be held in one buffer behind its prefix.
pub open spec fn fits_memory(frame: Frame) -> bool {
    frame matches Frame::Chunk(data) ==> 6 + crate::blob::contents(data).len() <= isize::MAX
}

/// `frame` on the wire. A refusal's map travels only when the code is that
/// the donor does not cover the request.
pub fn encode(frame: &Frame) -> (r: Bytes)
    requires
        fits_memory(*frame),
    ensures
        crate::blob::contents(r) == frame_bytes(*frame),
{
    let mut out: Vec<u8> = Vec::new();
    match frame {
        Frame::Request { group, name, need } => {
            put_prefix(&mut out, KIND_REQUEST);
            put_text(&mut out, group.as_str());
            put_text(&mut out, name.as_str());
            crate::hosted::ledger::encode_records(need, &mut out);
        },
        Frame::Offer { fence_epoch, host, covers } => {
            put_prefix(&mut out, KIND_OFFER);
            crate::codec::put_u64(&mut out, *fence_epoch);
            put_host(&mut out, host);
            crate::hosted::ledger::encode_records(covers, &mut out);
        },
        Frame::Refuse { code, have } => {
            put_prefix(&mut out, KIND_REFUSE);
            out.push(code.code());
            if *code == RefusalCode::NotCovered {
                crate::hosted::ledger::encode_records(have, &mut out);
            }
        },
        Frame::Chunk(data) => {
            return encode_chunk(data);
        },
        Frame::Done { chunks, bytes, final_epoch, final_host } => {
            put_prefix(&mut out, KIND_DONE);
            crate::codec::put_u64(&mut out, *chunks);
            crate::codec::put_u64(&mut out, *bytes);
            crate::codec::put_u64(&mut out, *final_epoch);
            put_host(&mut out, final_host);
        },
    }
    proof {
        assert(out@ =~= frame_bytes(*frame));
    }
    crate::blob::from_vec(out)
}

fn encode_chunk(data: &Bytes) -> (r: Bytes)
    requires
        6 + crate::blob::contents(*data).len() <= isize::MAX,
    ensures
        crate::blob::contents(r) == prefix(KIND_CHUNK) + crate::blob::contents(*data),
{
    let payload: &[u8] = crate::blob::as_slice(data);
    let mut head: Vec<u8> = Vec::new();
    put_prefix(&mut head, KIND_CHUNK);
    let mut buf = crate::blob::with_room(PREFIX + payload.len());
    crate::blob::extend(&mut buf, head.as_slice());
    crate::blob::extend(&mut buf, payload);
    let r = crate::blob::freeze(buf);
    proof {
        assert(crate::blob::contents(r) =~= prefix(KIND_CHUNK) + crate::blob::contents(*data));
    }
    r
}

fn read_text_at(bytes: &[u8], at: usize) -> (r: Option<(String, usize)>)
    ensures
        match r {
            Some((s, next)) => {
                &&& get_text(bytes@, at as int) == Some((s@, next as int))
                &&& at <= next <= bytes@.len()
            },
            None => get_text(bytes@, at as int) is None,
        },
{
    match crate::codec::read_block(bytes, at) {
        None => None,
        Some(block) => {
            let next: usize = at + 4 + block.len();
            match crate::codec::read_text(block) {
                None => None,
                Some(s) => Some((s, next)),
            }
        },
    }
}

fn host_id(name: String) -> (r: Option<NodeId>)
    ensures
        host_name(r) == host_named(name@),
{
    proof {
        reveal_strlit("");
    }
    if crate::group::same_text(name.as_str(), "") {
        None
    } else {
        proof {
            if name@.len() == 0 {
                assert(name@ =~= ""@);
            }
        }
        Some(NodeId::from_string(name))
    }
}

fn read_request(bytes: &[u8]) -> (r: Option<(Frame, usize)>)
    ensures
        match r {
            Some((frame, end)) => get_request(bytes@) == Some((frame@, end as int)),
            None => get_request(bytes@) is None,
        },
{
    match read_text_at(bytes, PREFIX) {
        None => None,
        Some((group, at)) => match read_text_at(bytes, at) {
            None => None,
            Some((name, next)) => match crate::hosted::ledger::decode_records(bytes, next) {
                None => None,
                Some((need, end)) => Some(
                    (Frame::Request { group: GroupId::from_string(group), name, need }, end),
                ),
            },
        },
    }
}

fn read_offer(bytes: &[u8]) -> (r: Option<(Frame, usize)>)
    ensures
        match r {
            Some((frame, end)) => get_offer(bytes@) == Some((frame@, end as int)),
            None => get_offer(bytes@) is None,
        },
{
    match crate::codec::read_u64(bytes, PREFIX) {
        None => None,
        Some(fence_epoch) => match read_text_at(bytes, PREFIX + 8) {
            None => None,
            Some((host, next)) => match crate::hosted::ledger::decode_records(bytes, next) {
                None => None,
                Some((covers, end)) => Some(
                    (Frame::Offer { fence_epoch, host: host_id(host), covers }, end),
                ),
            },
        },
    }
}

fn read_refusal(bytes: &[u8], code: RefusalCode) -> (r: Option<(Frame, usize)>)
    ensures
        match r {
            Some((frame, end)) => get_refusal(bytes@, code) == Some((frame@, end as int)),
            None => get_refusal(bytes@, code) is None,
        },
{
    if code == RefusalCode::NotCovered {
        match crate::hosted::ledger::decode_records(bytes, PREFIX + 1) {
            None => None,
            Some((have, end)) => Some((Frame::Refuse { code, have }, end)),
        }
    } else {
        let have: Watermarks = IdMap::new();
        Some((Frame::Refuse { code, have }, PREFIX + 1))
    }
}

fn read_done(bytes: &[u8]) -> (r: Option<(Frame, usize)>)
    ensures
        match r {
            Some((frame, end)) => get_done(bytes@) == Some((frame@, end as int)),
            None => get_done(bytes@) is None,
        },
{
    let chunks: u64 = match crate::codec::read_u64(bytes, PREFIX) {
        None => return None,
        Some(x) => x,
    };
    let count: u64 = match crate::codec::read_u64(bytes, PREFIX + 8) {
        None => return None,
        Some(x) => x,
    };
    let final_epoch: u64 = match crate::codec::read_u64(bytes, PREFIX + 16) {
        None => return None,
        Some(x) => x,
    };
    match read_text_at(bytes, PREFIX + 24) {
        None => None,
        Some((host, end)) => Some(
            (Frame::Done { chunks, bytes: count, final_epoch, final_host: host_id(host) }, end),
        ),
    }
}

/// The whole frame in `payload`, `Ok(None)` when it is not a whole frame, or
/// `Err` when it is not this protocol at all. A chunk's payload is a slice of
/// `payload`, not a copy.
pub fn decode(payload: &Bytes) -> (r: Result<Option<Frame>, HandoffError>)
    ensures
        match r {
            Ok(Some(frame)) => parse(crate::blob::contents(*payload)) == Ok::<
                Option<FrameView>,
                Seq<char>,
            >(Some(frame@)),
            Ok(None) => parse(crate::blob::contents(*payload)) == Ok::<
                Option<FrameView>,
                Seq<char>,
            >(None),
            Err(HandoffError::Protocol(what)) => parse(crate::blob::contents(*payload)) == Err::<
                Option<FrameView>,
                Seq<char>,
            >(what@),
            Err(_) => false,
        },
{
    let bytes: &[u8] = crate::blob::as_slice(payload);
    if bytes.len() < PREFIX {
        return Ok(None);
    }
    if !has_magic(bytes) {
        return Err(HandoffError::Protocol("not a handoff frame"));
    }
    if bytes[4] != VERSION {
        return Err(HandoffError::Protocol("unknown handoff protocol version"));
    }
    let kind: u8 = bytes[5];
    if kind == KIND_CHUNK {
        return Ok(Some(Frame::Chunk(crate::blob::slice_from(payload, PREFIX))));
    }
    let body: Option<(Frame, usize)> = if kind == KIND_REQUEST {
        read_request(bytes)
    } else if kind == KIND_OFFER {
        read_offer(bytes)
    } else if kind == KIND_REFUSE {
        if bytes.len() == PREFIX {
            return Ok(None);
        }
        match RefusalCode::from_code(bytes[6]) {
            None => {
                return Err(HandoffError::Protocol("unknown handoff refusal code"));
            },
            Some(code) => read_refusal(bytes, code),
        }
    } else if kind == KIND_DONE {
        read_done(bytes)
    } else {
        return Err(HandoffError::Protocol("unknown handoff frame kind"));
    };
    match body {
        None => Ok(None),
        Some((frame, end)) => if end == bytes.len() {
            Ok(Some(frame))
        } else {
            Ok(None)
        },
    }
}

/// Whether everything in a frame can be spelled on the wire: lengths fit
/// their prefixes, a host is named, and only a refusal for want of coverage
/// carries a map.
pub open spec fn spellable(frame: Frame) -> bool {
    match frame {
        Frame::Request { group, name, need } => {
            &&& vstd::utf8::encode_utf8(group@).len() <= u32::MAX
            &&& vstd::utf8::encode_utf8(name@).len() <= u32::MAX
            &&& map_spellable(need)
        },
        Frame::Offer { host, covers, .. } => host_spellable(host_name(host)) && map_spellable(
            covers,
        ),
        Frame::Refuse { code, have } => if code == RefusalCode::NotCovered {
            map_spellable(have)
        } else {
            have@ == Map::<Seq<char>, WriteToken>::empty()
        },
        Frame::Chunk(_) => true,
        Frame::Done { final_host, .. } => host_spellable(host_name(final_host)),
    }
}

/// Whether a watermark map is in node order and its lengths fit.
pub open spec fn map_spellable(marks: Watermarks) -> bool {
    crate::idmap::ascending(marks.records()) && crate::hosted::ledger::records_fit(marks.records())
}

/// Whether a host can be told from no host, and its name fits.
pub open spec fn host_spellable(host: Option<Seq<char>>) -> bool {
    host matches Some(name) ==> name.len() > 0 && vstd::utf8::encode_utf8(name).len() <= u32::MAX
}

proof fn lemma_prefix_stands(kind: u8, body: Seq<u8>)
    ensures
        ({
            let b = prefix(kind) + body;
            &&& b.len() == 6 + body.len()
            &&& b.subrange(0, 4) == prefix(0).subrange(0, 4)
            &&& b[4] == VERSION
            &&& b[5] == kind
            &&& crate::codec::holds_at(b, 6, body)
        }),
{
    let b = prefix(kind) + body;
    assert(b.subrange(0, 4) =~= prefix(0).subrange(0, 4));
    assert(b.subrange(6, b.len() as int) =~= body);
}

proof fn lemma_text_reads_back(b: Seq<u8>, at: int, s: Seq<char>)
    requires
        crate::codec::holds_at(b, at, text_bytes(s)),
        vstd::utf8::encode_utf8(s).len() <= u32::MAX,
    ensures
        get_text(b, at) == Some((s, at + text_bytes(s).len())),
{
    let e = vstd::utf8::encode_utf8(s);
    vstd::utf8::encode_utf8_valid_utf8(s);
    vstd::utf8::encode_utf8_decode_utf8(s);
    crate::codec::lemma_get_block(b, at, e);
    crate::codec::lemma_block_len(e);
}

proof fn lemma_host_reads_back(b: Seq<u8>, at: int, host: Option<Seq<char>>)
    requires
        crate::codec::holds_at(b, at, host_bytes(host)),
        host_spellable(host),
    ensures
        get_text(b, at) matches Some((name, end)) && host_named(name) == host && end == at
            + host_bytes(host).len(),
{
    match host {
        None => {
            lemma_text_reads_back(b, at, Seq::empty());
        },
        Some(name) => {
            lemma_text_reads_back(b, at, name);
        },
    }
}

/// The body of a frame that is not a chunk, and where it ends.
spec fn get_body(b: Seq<u8>) -> Option<(FrameView, int)> {
    if b[5] == KIND_REQUEST {
        get_request(b)
    } else if b[5] == KIND_OFFER {
        get_offer(b)
    } else if b[5] == KIND_REFUSE {
        if b.len() <= 6 {
            None
        } else {
            match RefusalCode::of(b[6]) {
                None => None,
                Some(code) => get_refusal(b, code),
            }
        }
    } else if b[5] == KIND_DONE {
        get_done(b)
    } else {
        None
    }
}

proof fn lemma_request_reads_back(b: Seq<u8>, group: Seq<char>, name: Seq<char>, need: Watermarks)
    requires
        crate::codec::holds_at(b, 6, request_body(group, name, need.records())),
        vstd::utf8::encode_utf8(group).len() <= u32::MAX,
        vstd::utf8::encode_utf8(name).len() <= u32::MAX,
        map_spellable(need),
    ensures
        get_request(b) == Some(
            (
                FrameView::Request { group, name, need: need@ },
                6int + request_body(group, name, need.records()).len(),
            ),
        ),
{
    let g = text_bytes(group);
    let n = text_bytes(name);
    let m = crate::hosted::ledger::counted_bytes(need.records());
    crate::codec::lemma_holds_concat(b, 6, g, n + m);
    crate::codec::lemma_holds_concat(b, 6int + g.len(), n, m);
    lemma_text_reads_back(b, 6, group);
    lemma_text_reads_back(b, 6int + g.len(), name);
    crate::hosted::ledger::lemma_counted_reads_back(b, 6int + g.len() + n.len(), need.records());
}

proof fn lemma_offer_reads_back(
    b: Seq<u8>,
    fence_epoch: u64,
    host: Option<Seq<char>>,
    covers: Watermarks,
)
    requires
        crate::codec::holds_at(b, 6, offer_body(fence_epoch, host, covers.records())),
        host_spellable(host),
        map_spellable(covers),
    ensures
        get_offer(b) == Some(
            (
                FrameView::Offer { fence_epoch, host, covers: covers@ },
                6int + offer_body(fence_epoch, host, covers.records()).len(),
            ),
        ),
{
    let e = crate::codec::le64(fence_epoch);
    let h = host_bytes(host);
    let m = crate::hosted::ledger::counted_bytes(covers.records());
    crate::codec::lemma_le64_reads_back(fence_epoch);
    crate::codec::lemma_holds_concat(b, 6, e, h + m);
    crate::codec::lemma_holds_concat(b, 14, h, m);
    crate::codec::lemma_get_u64(b, 6, fence_epoch);
    lemma_host_reads_back(b, 14, host);
    crate::hosted::ledger::lemma_counted_reads_back(b, 14int + h.len(), covers.records());
}

proof fn lemma_refusal_reads_back(b: Seq<u8>, code: RefusalCode, have: Watermarks)
    requires
        crate::codec::holds_at(b, 6, refusal_body(code, have.records())),
        code == RefusalCode::NotCovered ==> map_spellable(have),
        code != RefusalCode::NotCovered ==> have@ == Map::<Seq<char>, WriteToken>::empty(),
    ensures
        RefusalCode::of(b[6]) == Some(code),
        get_refusal(b, code) == Some(
            (
                FrameView::Refuse { code, have: have@ },
                6int + refusal_body(code, have.records()).len(),
            ),
        ),
{
    let rest = if code == RefusalCode::NotCovered {
        crate::hosted::ledger::counted_bytes(have.records())
    } else {
        Seq::<u8>::empty()
    };
    crate::codec::lemma_holds_concat(b, 6, seq![code.byte()], rest);
    assert(b[6] == b.subrange(6, 7)[0]);
    if code == RefusalCode::NotCovered {
        crate::hosted::ledger::lemma_counted_reads_back(b, 7, have.records());
    }
}

proof fn lemma_done_reads_back(
    b: Seq<u8>,
    chunks: u64,
    bytes: u64,
    final_epoch: u64,
    final_host: Option<Seq<char>>,
)
    requires
        crate::codec::holds_at(b, 6, done_body(chunks, bytes, final_epoch, final_host)),
        host_spellable(final_host),
    ensures
        get_done(b) == Some(
            (
                FrameView::Done { chunks, bytes, final_epoch, final_host },
                6int + done_body(chunks, bytes, final_epoch, final_host).len(),
            ),
        ),
{
    let c = crate::codec::le64(chunks);
    let n = crate::codec::le64(bytes);
    let e = crate::codec::le64(final_epoch);
    let h = host_bytes(final_host);
    crate::codec::lemma_le64_reads_back(chunks);
    crate::codec::lemma_le64_reads_back(bytes);
    crate::codec::lemma_le64_reads_back(final_epoch);
    crate::codec::lemma_holds_concat(b, 6, c, n + (e + h));
    crate::codec::lemma_holds_concat(b, 14, n, e + h);
    crate::codec::lemma_holds_concat(b, 22, e, h);
    crate::codec::lemma_get_u64(b, 6, chunks);
    crate::codec::lemma_get_u64(b, 14, bytes);
    crate::codec::lemma_get_u64(b, 22, final_epoch);
    lemma_host_reads_back(b, 30, final_host);
}

proof fn lemma_body_reads_back(frame: Frame)
    requires
        spellable(frame),
        !(frame is Chunk),
    ensures
        get_body(frame_bytes(frame)) == Some((frame@, frame_bytes(frame).len() as int)),
        frame is Refuse ==> frame_bytes(frame).len() >= 7 && RefusalCode::of(frame_bytes(frame)[6])
            == Some(frame->Refuse_code),
{
    let b = frame_bytes(frame);
    lemma_prefix_stands(kind_of(frame), body_bytes(frame));
    match frame {
        Frame::Request { group, name, need } => {
            lemma_request_reads_back(b, group@, name@, need);
        },
        Frame::Offer { fence_epoch, host, covers } => {
            lemma_offer_reads_back(b, fence_epoch, host_name(host), covers);
        },
        Frame::Refuse { code, have } => {
            lemma_refusal_reads_back(b, code, have);
        },
        Frame::Chunk(_) => {},
        Frame::Done { chunks, bytes, final_epoch, final_host } => {
            lemma_done_reads_back(b, chunks, bytes, final_epoch, host_name(final_host));
        },
    }
}

/// A frame reads back as itself, whichever it is.
pub proof fn frames_read_back(frame: Frame)
    requires
        spellable(frame),
    ensures
        parse(frame_bytes(frame)) == Ok::<Option<FrameView>, Seq<char>>(Some(frame@)),
{
    let b = frame_bytes(frame);
    lemma_prefix_stands(kind_of(frame), body_bytes(frame));
    match frame {
        Frame::Chunk(data) => {
            assert(b.subrange(6, b.len() as int) =~= crate::blob::contents(data));
        },
        _ => {
            lemma_body_reads_back(frame);
        },
    }
}

proof fn lemma_text_extends(short: Seq<u8>, b: Seq<u8>, at: int)
    requires
        0 <= at,
        short.len() <= b.len(),
        short == b.subrange(0, short.len() as int),
        get_text(short, at) is Some,
    ensures
        get_text(b, at) == get_text(short, at),
        at + 4 <= (get_text(short, at)->0).1 <= short.len(),
{
    assert(short.subrange(at, at + 4) =~= b.subrange(at, at + 4));
    let n = crate::codec::get_u32(short, at)->0;
    assert(short.subrange(at + 4, at + 4 + n) =~= b.subrange(at + 4, at + 4 + n));
}

proof fn lemma_u64_extends(short: Seq<u8>, b: Seq<u8>, at: int)
    requires
        0 <= at,
        short.len() <= b.len(),
        short == b.subrange(0, short.len() as int),
        crate::codec::get_u64(short, at) is Some,
    ensures
        crate::codec::get_u64(b, at) == crate::codec::get_u64(short, at),
{
    assert(short.subrange(at, at + 8) =~= b.subrange(at, at + 8));
}

proof fn lemma_body_extends(short: Seq<u8>, b: Seq<u8>)
    requires
        6 <= short.len() <= b.len(),
        short == b.subrange(0, short.len() as int),
        get_body(short) is Some,
    ensures
        get_body(b) == get_body(short),
        (get_body(short)->0).1 <= short.len(),
{
    assert(short[5] == b[5]);
    if short[5] == KIND_REQUEST {
        lemma_text_extends(short, b, 6);
        let at = (get_text(short, 6)->0).1;
        lemma_text_extends(short, b, at);
        crate::hosted::ledger::lemma_counted_extends(short, b, (get_text(short, at)->0).1);
    } else if short[5] == KIND_OFFER {
        lemma_u64_extends(short, b, 6);
        lemma_text_extends(short, b, 14);
        crate::hosted::ledger::lemma_counted_extends(short, b, (get_text(short, 14)->0).1);
    } else if short[5] == KIND_REFUSE {
        assert(short[6] == b[6]);
        if RefusalCode::of(short[6]) == Some(RefusalCode::NotCovered) {
            crate::hosted::ledger::lemma_counted_extends(short, b, 7);
        }
    } else {
        lemma_u64_extends(short, b, 6);
        lemma_u64_extends(short, b, 14);
        lemma_u64_extends(short, b, 22);
        lemma_text_extends(short, b, 30);
    }
}

/// A frame that is not a chunk is whole or it is nothing: no proper prefix of
/// it is a frame, and neither is the frame with anything behind it. Neither
/// is taken for another protocol.
pub proof fn partial_frames_are_no_frames(frame: Frame, cut: int, tail: Seq<u8>)
    requires
        spellable(frame),
        !(frame is Chunk),
        0 <= cut < frame_bytes(frame).len(),
        tail.len() > 0,
    ensures
        parse(frame_bytes(frame).subrange(0, cut)) == Ok::<Option<FrameView>, Seq<char>>(None),
        parse(frame_bytes(frame) + tail) == Ok::<Option<FrameView>, Seq<char>>(None),
{
    let b = frame_bytes(frame);
    let short = b.subrange(0, cut);
    let long = b + tail;
    lemma_prefix_stands(kind_of(frame), body_bytes(frame));
    lemma_body_reads_back(frame);
    if cut >= 6 {
        assert(short.subrange(0, 4) =~= b.subrange(0, 4));
        assert(short[4] == b[4] && short[5] == b[5]);
        if cut > 6 {
            assert(short[6] == b[6]);
        }
        if get_body(short) is Some {
            lemma_body_extends(short, b);
        }
    }
    assert(long.subrange(0, b.len() as int) =~= b);
    assert(long.subrange(0, 4) =~= b.subrange(0, 4));
    assert(long[4] == b[4] && long[5] == b[5]);
    if b.len() > 6 {
        assert(long[6] == b[6]);
    }
    lemma_body_extends(b, long);
}

/// A frame opens with the four letters of the protocol, its version and its
/// kind; a terminator then holds the chunks, the bytes and the epoch, and an
/// offer its epoch.
pub proof fn a_frame_opens_with_its_kind(frame: Frame)
    ensures
        ({
            let b = frame_bytes(frame);
            &&& b.len() >= 6
            &&& b[0] == 71 && b[1] == 78 && b[2] == 72 && b[3] == 79
            &&& b[4] == VERSION
            &&& b[5] == kind_of(frame)
            &&& frame matches Frame::Done { chunks, bytes, final_epoch, .. } ==> {
                &&& b.len() >= 30
                &&& b.subrange(6, 14) == crate::codec::le64(chunks)
                &&& b.subrange(14, 22) == crate::codec::le64(bytes)
                &&& b.subrange(22, 30) == crate::codec::le64(final_epoch)
            }
            &&& frame matches Frame::Offer { fence_epoch, .. } ==> b.len() >= 14 && b.subrange(
                6,
                14,
            ) == crate::codec::le64(fence_epoch)
            &&& frame matches Frame::Chunk(data) ==> b.subrange(6, b.len() as int)
                == crate::blob::contents(data)
        }),
{
    let b = frame_bytes(frame);
    match frame {
        Frame::Done { chunks, bytes, final_epoch, final_host } => {
            crate::codec::lemma_le64_reads_back(chunks);
            crate::codec::lemma_le64_reads_back(bytes);
            crate::codec::lemma_le64_reads_back(final_epoch);
            assert(b.subrange(6, 14) =~= crate::codec::le64(chunks));
            assert(b.subrange(14, 22) =~= crate::codec::le64(bytes));
            assert(b.subrange(22, 30) =~= crate::codec::le64(final_epoch));
        },
        Frame::Offer { fence_epoch, host, covers } => {
            crate::codec::lemma_le64_reads_back(fence_epoch);
            assert(b.subrange(6, 14) =~= crate::codec::le64(fence_epoch));
        },
        Frame::Chunk(data) => {
            assert(b.subrange(6, b.len() as int) =~= crate::blob::contents(data));
        },
        _ => {},
    }
}

/// A payload that reads as a request opens like one, so what does not open
/// like a request is none.
pub proof fn only_requests_open_as_requests(b: Seq<u8>)
    ensures
        parse(b) matches Ok(Some(FrameView::Request { .. })) ==> opens_request(b),
{
    if b.len() >= 6 && b.subrange(0, 4) == prefix(0).subrange(0, 4) && b[4] == VERSION && b[5]
        == KIND_REQUEST {
        assert(b.subrange(0, 6) =~= b.subrange(0, 4) + seq![b[4], b[5]]);
        assert(prefix(KIND_REQUEST) =~= prefix(0).subrange(0, 4) + seq![VERSION, KIND_REQUEST]);
    }
}

} // verus!
