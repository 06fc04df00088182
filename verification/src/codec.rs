//! The binary layout of a patch record: one frame per operation, each made of
//! an operation code, big-endian path references and a length-prefixed value.

use vstd::prelude::*;

verus! {

/// The largest value that a frame can carry, in bytes.
pub const MAX_VALUE_LEN: usize = 65535;

/// A frame as plain data.
pub struct FrameModel {
    pub code: u8,
    pub refs: Seq<u16>,
    pub payload: Seq<u8>,
}

/// One operation as it stands on the wire: code, path references, value bytes
/// (empty where the operation carries none).
#[derive(Debug)]
pub struct Frame {
    pub op_code: u8,
    pub refs: Vec<u16>,
    pub value: Vec<u8>,
}

impl View for Frame {
    type V = FrameModel;

    open spec fn view(&self) -> FrameModel {
        FrameModel { code: self.op_code, refs: self.refs@, payload: self.value@ }
    }
}

/// How many path references follow an operation code.
pub open spec fn ref_count(code: u8) -> int {
    if code == 3 || code == 4 {
        2
    } else if code == 6 {
        0
    } else {
        1
    }
}

/// Whether an operation code is followed by a value.
pub open spec fn carries_value(code: u8) -> bool {
    code == 0 || code == 2 || code == 5 || code == 6
}

/// The frames that the layout admits.
pub open spec fn frame_ok(f: FrameModel) -> bool {
    &&& f.code <= 6
    &&& f.refs.len() == ref_count(f.code)
    &&& f.payload.len() <= MAX_VALUE_LEN
    &&& (carries_value(f.code) || f.payload.len() == 0)
}

/// The two bytes of a 16-bit number, high byte first.
pub open spec fn be16(n: int) -> Seq<u8> {
    seq![(n / 256) as u8, (n % 256) as u8]
}

/// The 16-bit number that stands at `at` in `bytes`, high byte first.
pub open spec fn u16_at(bytes: Seq<u8>, at: int) -> int {
    bytes[at] as int * 256 + bytes[at + 1] as int
}

/// The path references of a frame, two bytes each.
pub open spec fn refs_field(refs: Seq<u16>) -> Seq<u8> {
    Seq::new(
        2 * refs.len(),
        |i: int| if i % 2 == 0 { (refs[i / 2] / 256) as u8 } else { (refs[i / 2] % 256) as u8 },
    )
}

/// The bytes of one frame.
pub open spec fn frame_bytes(f: FrameModel) -> Seq<u8> {
    seq![f.code] + refs_field(f.refs) + be16(f.payload.len() as int) + f.payload
}

/// The bytes of a record: its frames one after the other, with no terminator.
pub open spec fn record_bytes(frames: Seq<FrameModel>) -> Seq<u8>
    decreases frames.len(),
{
    if frames.len() == 0 {
        Seq::empty()
    } else {
        frame_bytes(frames[0]) + record_bytes(frames.skip(1))
    }
}

/// The frame that `bytes` begins with and its length, or `None` where the
/// bytes begin with no whole frame.
pub open spec fn parse_frame(bytes: Seq<u8>) -> Option<(FrameModel, int)> {
    if bytes.len() < 1 || bytes[0] > 6 {
        None
    } else {
        let k = ref_count(bytes[0]);
        if bytes.len() < 3 + 2 * k {
            None
        } else {
            let len = u16_at(bytes, 1 + 2 * k);
            if bytes.len() < 3 + 2 * k + len || (!carries_value(bytes[0]) && len != 0) {
                None
            } else {
                Some(
                    (
                        FrameModel {
                            code: bytes[0],
                            refs: Seq::new(k as nat, |j: int| u16_at(bytes, 1 + 2 * j) as u16),
                            payload: bytes.subrange(3 + 2 * k, 3 + 2 * k + len),
                        },
                        3 + 2 * k + len,
                    ),
                )
            }
        }
    }
}

/// The frames that make up `bytes`, or `None` where the bytes are no record.
pub open spec fn parse_frames(bytes: Seq<u8>) -> Option<Seq<FrameModel>>
    decreases bytes.len(),
{
    if bytes.len() == 0 {
        Some(Seq::empty())
    } else {
        match parse_frame(bytes) {
            None => None,
            Some((f, n)) => match parse_frames(bytes.skip(n)) {
                None => None,
                Some(rest) => Some(seq![f] + rest),
            },
        }
    }
}

/// `done` followed by what the rest of a record parses to.
pub open spec fn after(done: Seq<FrameModel>, rest: Option<Seq<FrameModel>>) -> Option<
    Seq<FrameModel>,
> {
    match rest {
        None => None,
        Some(r) => Some(done + r),
    }
}

/// The views of a list of frames.
pub open spec fn frames_model(frames: Seq<Frame>) -> Seq<FrameModel> {
    Seq::new(frames.len(), |i: int| frames[i]@)
}

/// A written frame, followed by anything, parses back to itself.
pub proof fn lemma_parse_frame_written(f: FrameModel, tail: Seq<u8>)
    requires
        frame_ok(f),
    ensures
        parse_frame(frame_bytes(f) + tail) == Some((f, frame_bytes(f).len() as int)),
        (frame_bytes(f) + tail).skip(frame_bytes(f).len() as int) == tail,
        frame_bytes(f).len() >= 3,
{
    let b = frame_bytes(f) + tail;
    let k = ref_count(f.code);
    assert(b[0] == f.code);
    assert(forall|i: int| 0 <= i < 2 * k ==> b[1 + i] == refs_field(f.refs)[i]);
    assert(b[1 + 2 * k] == be16(f.payload.len() as int)[0]);
    assert(b[2 + 2 * k] == be16(f.payload.len() as int)[1]);
    assert(u16_at(b, 1 + 2 * k) == f.payload.len());
    let got = parse_frame(b).unwrap().0;
    assert forall|j: int| 0 <= j < k implies got.refs[j] == f.refs[j] by {
        assert(b[1 + 2 * j] == refs_field(f.refs)[2 * j]);
        assert(b[1 + 2 * j + 1] == refs_field(f.refs)[2 * j + 1]);
    }
    assert(got.refs =~= f.refs);
    assert(got.payload =~= f.payload);
    assert(b.skip(frame_bytes(f).len() as int) =~= tail);
}

/// Reading a record back gives the frames that were written: the layout loses
/// nothing, though it marks no boundary between frames.
pub proof fn lemma_parse_written(frames: Seq<FrameModel>)
    requires
        forall|i: int| 0 <= i < frames.len() ==> frame_ok(#[trigger] frames[i]),
    ensures
        parse_frames(record_bytes(frames)) == Some(frames),
    decreases frames.len(),
{
    if frames.len() > 0 {
        let rest = frames.skip(1);
        lemma_parse_written(rest);
        lemma_parse_frame_written(frames[0], record_bytes(rest));
        assert(seq![frames[0]] + rest =~= frames);
    }
}

/// Appends the two bytes of `n`, high byte first.
fn push_be16(out: &mut Vec<u8>, n: u16)
    ensures
        final(out)@ == old(out)@ + be16(n as int),
{
    out.push((n / 256) as u8);
    out.push((n % 256) as u8);
    assert(final(out)@ =~= old(out)@ + be16(n as int));
}

/// Writes one frame. A value too long for the 16-bit length field is refused,
/// since its length would wrap.
pub fn write_frame(frame: &Frame) -> (out: Option<Vec<u8>>)
    ensures
        match out {
            Some(bytes) => frame.value.len() <= MAX_VALUE_LEN && bytes@ == frame_bytes(frame@),
            None => frame.value.len() > MAX_VALUE_LEN,
        },
{
    if frame.value.len() > MAX_VALUE_LEN {
        return None;
    }
    let mut out: Vec<u8> = Vec::new();
    out.push(frame.op_code);
    let mut j: usize = 0;
    while j < frame.refs.len()
        invariant
            j <= frame.refs.len(),
            out@ == seq![frame.op_code] + refs_field(frame.refs@.take(j as int)),
        decreases frame.refs.len() - j,
    {
        push_be16(&mut out, frame.refs[j]);
        assert(refs_field(frame.refs@.take(j as int)) + be16(frame.refs[j as int] as int)
            =~= refs_field(frame.refs@.take(j + 1)));
        j += 1;
    }
    assert(frame.refs@.take(j as int) =~= frame.refs@);
    push_be16(&mut out, frame.value.len() as u16);
    let mut i: usize = 0;
    while i < frame.value.len()
        invariant
            i <= frame.value.len() <= MAX_VALUE_LEN,
            out@ == seq![frame.op_code] + refs_field(frame.refs@) + be16(
                frame.value.len() as int,
            ) + frame.value@.take(i as int),
        decreases frame.value.len() - i,
    {
        out.push(frame.value[i]);
        assert(frame.value@.take(i as int).push(frame.value[i as int]) =~= frame.value@.take(
            i + 1,
        ));
        i += 1;
    }
    assert(frame.value@.take(i as int) =~= frame.value@);
    Some(out)
}

/// Joins the frames of a record into its byte string.
pub fn join_record(parts: &Vec<Vec<u8>>) -> (out: Vec<u8>)
    ensures
        out@ == joined(parts@, parts.len() as int),
{
    let mut out: Vec<u8> = Vec::new();
    let mut k: usize = 0;
    while k < parts.len()
        invariant
            k <= parts.len(),
            out@ == joined(parts@, k as int),
        decreases parts.len() - k,
    {
        let part = &parts[k];
        let mut i: usize = 0;
        while i < part.len()
            invariant
                i <= part.len(),
                k < parts.len(),
                part == &parts[k as int],
                out@ == joined(parts@, k as int) + part@.take(i as int),
            decreases part.len() - i,
        {
            out.push(part[i]);
            assert(part@.take(i as int).push(part[i as int]) =~= part@.take(i + 1));
            i += 1;
        }
        assert(part@.take(i as int) =~= part@);
        k += 1;
    }
    out
}

/// The first `n` of `parts`, one after the other.
pub open spec fn joined(parts: Seq<Vec<u8>>, n: int) -> Seq<u8>
    decreases n,
{
    if n <= 0 {
        Seq::empty()
    } else {
        joined(parts, n - 1) + parts[n - 1]@
    }
}

/// Reads the frames of a record. The record ends where the bytes end; bytes
/// that stop inside a frame, an unknown code, or a value behind an operation
/// that carries none make the whole record malformed.
pub fn parse_record(bytes: &[u8]) -> (out: Option<Vec<Frame>>)
    ensures
        match out {
            Some(frames) => parse_frames(bytes@) == Some(frames_model(frames@)),
            None => parse_frames(bytes@).is_none(),
        },
{
    let mut frames: Vec<Frame> = Vec::new();
    let mut pos: usize = 0;
    proof {
        assert(bytes@.skip(0) =~= bytes@);
        if let Some(r) = parse_frames(bytes@) {
            assert(frames_model(frames@) + r =~= r);
        }
    }
    while pos < bytes.len()
        invariant
            pos <= bytes.len(),
            parse_frames(bytes@) == after(frames_model(frames@), parse_frames(bytes@.skip(pos as int))),
        decreases bytes.len() - pos,
    {
        let ghost rest = bytes@.skip(pos as int);
        let code = bytes[pos];
        if code > 6 {
            return None;
        }
        let k: usize = if code == 3 || code == 4 { 2 } else if code == 6 { 0 } else { 1 };
        if bytes.len() - pos < 3 + 2 * k {
            return None;
        }
        let mut refs: Vec<u16> = Vec::new();
        let mut j: usize = 0;
        while j < k
            invariant
                j <= k <= 2,
                pos + 3 + 2 * k <= bytes.len(),
                rest == bytes@.skip(pos as int),
                refs@ == Seq::new(j as nat, |t: int| u16_at(rest, 1 + 2 * t) as u16),
            decreases k - j,
        {
            let hi = bytes[pos + 1 + 2 * j];
            let lo = bytes[pos + 2 + 2 * j];
            refs.push((hi as u16) * 256 + (lo as u16));
            assert(refs@ =~= Seq::new((j + 1) as nat, |t: int| u16_at(rest, 1 + 2 * t) as u16));
            j += 1;
        }
        let len: usize = (bytes[pos + 1 + 2 * k] as usize) * 256 + (bytes[pos + 2 + 2 * k] as usize);
        assert(len == u16_at(rest, 1 + 2 * k));
        let carries = code == 0 || code == 2 || code == 5 || code == 6;
        if bytes.len() - pos - 3 - 2 * k < len || (!carries && len != 0) {
            return None;
        }
        let start: usize = pos + 3 + 2 * k;
        let mut value: Vec<u8> = Vec::new();
        let mut i: usize = 0;
        while i < len
            invariant
                i <= len,
                start + len <= bytes.len(),
                value@ == bytes@.subrange(start as int, start + i),
            decreases len - i,
        {
            value.push(bytes[start + i]);
            assert(value@ =~= bytes@.subrange(start as int, start + i + 1));
            i += 1;
        }
        let frame = Frame { op_code: code, refs, value };
        proof {
            let n = 3 + 2 * k + len;
            assert(frame@.payload =~= rest.subrange(3 + 2 * k, n));
            assert(parse_frame(rest) == Some((frame@, n)));
            assert(rest.skip(n) =~= bytes@.skip(pos + n));
            let tail = parse_frames(bytes@.skip(pos + n));
            if let Some(r) = tail {
                assert(frames_model(frames@.push(frame)) + r =~= frames_model(frames@) + (
                seq![frame@] + r));
            }
            assert(frames_model(frames@.push(frame)) =~= frames_model(frames@).push(frame@));
        }
        frames.push(frame);
        pos = start + len;
    }
    proof {
        assert(bytes@.skip(pos as int).len() == 0);
        assert(frames_model(frames@) + Seq::<FrameModel>::empty() =~= frames_model(frames@));
    }
    Some(frames)
}

} // verus!
