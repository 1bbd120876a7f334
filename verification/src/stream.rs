//! Chunked / streaming encode for large payloads.
//!
//! Framed `encode` needs the full payload length up front. For large data the
//! payload is **split** into independent framed chunks, each fitting in at most a
//! given number of glyphs. Reassemble with [`decode_chunked`].
//!
//! This is multi-frame messaging, not a single long frame split mid-header.

use vstd::prelude::*;
use crate::check::Integrity;
use crate::codec::{
    lemma_within_capacity,
    capacity_payload_bytes_opts, capacity_payload_bytes_with, capacity_spec, decode, decode_spec, encode_spec, encode_with, frame_fits,
    glyphs_needed, glyphs_needed_result, EncodeOptions,
};
use crate::ecc::Ecc;
use crate::error::{message, GlyphixError, Result, bytes_agree};
use crate::grid::{Grid, GridView, views};
use crate::profile::GlyphProfile;
use crate::text::decimal;

verus! {

broadcast use crate::error::lemma_message;

/// Payload bytes of one chunk of `mg` glyphs: the largest payload whose frame,
/// with its integrity trailer and ECC parity, fits `mg` glyphs.
pub open spec fn chunk_cap(p: GlyphProfile, mg: nat, o: EncodeOptions) -> nat {
    capacity_spec(p, mg, o)
}

/// Number of chunks a payload of `len` bytes is cut into (one for an empty payload).
pub open spec fn chunk_count(len: nat, cap: nat) -> nat {
    if len == 0 {
        1
    } else {
        ((len - 1) as nat / cap + 1) as nat
    }
}

/// Chunk `i`: bytes `i*cap .. (i+1)*cap` of the payload, cut at its end.
pub open spec fn chunk_of(payload: Seq<u8>, cap: nat, i: nat) -> Seq<u8> {
    let lo = if i * cap <= payload.len() { i * cap } else { payload.len() };
    let hi = if i * cap + cap <= payload.len() { i * cap + cap } else { payload.len() };
    payload.subrange(lo as int, hi as int)
}

/// The chunks of a payload, in order.
pub open spec fn chunks_spec(payload: Seq<u8>, cap: nat) -> Seq<Seq<u8>> {
    Seq::new(chunk_count(payload.len(), cap), |i: int| chunk_of(payload, cap, i as nat))
}

/// Frames of the first `k` chunks, stopping at the first error.
pub open spec fn encode_chunks_prefix(p: GlyphProfile, cs: Seq<Seq<u8>>, o: EncodeOptions, k: nat) -> Result<Seq<Seq<GridView>>>
    decreases k,
{
    if k == 0 {
        Ok(Seq::empty())
    } else {
        match encode_chunks_prefix(p, cs, o, (k - 1) as nat) {
            Err(e) => Err(e),
            Ok(v) => match encode_spec(p, cs[k - 1], o) {
                Err(e) => Err(e),
                Ok(g) => Ok(v.push(g)),
            },
        }
    }
}

/// The error for a chunk budget that holds no payload byte.
pub open spec fn zero_capacity_error() -> GlyphixError {
    GlyphixError::InvalidProfile(message("chunk capacity is 0 bytes"@))
}

/// Frames of a chunked encode.
pub open spec fn encode_chunked_spec(p: GlyphProfile, payload: Seq<u8>, o: EncodeOptions, mg: nat) -> Result<Seq<Seq<GridView>>> {
    if mg == 0 {
        Err(GlyphixError::InvalidProfile(message("max_glyphs_per_chunk must be ≥ 1"@)))
    } else if mg > p.max_glyphs {
        Err(GlyphixError::GlyphCountExceeded { count: mg as usize, cap: p.max_glyphs })
    } else if chunk_cap(p, mg, o) == 0 {
        Err(GlyphixError::InvalidProfile(message(
            "max_glyphs_per_chunk="@ + decimal(mg) + " cannot hold any payload bytes with "@
                + o.integrity.message_name_spec()@,
        )))
    } else {
        let cs = chunks_spec(payload, chunk_cap(p, mg, o));
        encode_chunks_prefix(p, cs, o, cs.len())
    }
}

/// The arithmetic of every chunk's frame fits the machine word.
pub open spec fn chunked_fits(p: GlyphProfile, payload: Seq<u8>, o: EncodeOptions, mg: nat) -> bool {
    let cap = chunk_cap(p, mg, o);
    let cs = chunks_spec(payload, cap);
    1 <= mg <= p.max_glyphs && cap >= 1 ==> forall|i: int| 0 <= i < cs.len()
        ==> ((#[trigger] cs[i]).len() <= u32::MAX ==> frame_fits(p, cs[i].len(), o))
}

/// Computed frames agree with specified ones.
pub open spec fn frames_agree(r: Result<Vec<Vec<Grid>>>, s: Result<Seq<Seq<GridView>>>) -> bool {
    match (r, s) {
        (Ok(a), Ok(b)) => frame_views(a@) == b,
        (Err(e1), Err(e2)) => e1.agrees(e2),
        _ => false,
    }
}

/// Views of frames.
pub open spec fn frame_views(fs: Seq<Vec<Grid>>) -> Seq<Seq<GridView>> {
    Seq::new(fs.len(), |i: int| views(fs[i]@))
}

/// Every grid of every frame is well formed.
pub open spec fn frames_wf(fs: Seq<Vec<Grid>>) -> bool {
    forall|i: int, j: int| 0 <= i < fs.len() && 0 <= j < fs[i]@.len() ==> (#[trigger] fs[i]@[j])@.wf()
}

pub proof fn lemma_encode_chunks_error_sticks(p: GlyphProfile, cs: Seq<Seq<u8>>, o: EncodeOptions, k: nat, j: nat)
    requires
        k <= j,
        encode_chunks_prefix(p, cs, o, k) is Err,
    ensures
        encode_chunks_prefix(p, cs, o, j) == encode_chunks_prefix(p, cs, o, k),
    decreases j - k,
{
    if k < j {
        lemma_encode_chunks_error_sticks(p, cs, o, k, (j - 1) as nat);
    }
}

/// Chunk `i` is the slice the encoder cuts.
proof fn lemma_chunk_bounds(len: nat, cap: nat, i: nat)
    requires
        cap >= 1,
        len >= 1,
        i < chunk_count(len, cap),
    ensures
        i * cap < len,
        i * cap + cap <= len || i + 1 == chunk_count(len, cap),
{
    let q = ((len - 1) as nat / cap) as int;
    vstd::arithmetic::div_mod::lemma_fundamental_div_mod((len - 1) as int, cap as int);
    assert(i * cap <= q * cap) by (nonlinear_arith)
        requires
            i <= q,
            cap >= 1,
    ;
    if i + 1 < chunk_count(len, cap) {
        assert(i * cap + cap <= q * cap) by (nonlinear_arith)
            requires
                i + 1 <= q,
                cap >= 1,
        ;
    }
}

/// Where chunk `i` starts, compared with the chunk count.
proof fn lemma_count_position(len: nat, cap: nat, i: nat)
    requires
        cap >= 1,
        len >= 1,
        i >= 1,
        (i - 1) * cap < len,
    ensures
        i * cap < len ==> i < chunk_count(len, cap),
        i * cap >= len ==> i == chunk_count(len, cap),
{
    let q = ((len - 1) as nat / cap) as int;
    let r = ((len - 1) as nat % cap) as int;
    vstd::arithmetic::div_mod::lemma_fundamental_div_mod((len - 1) as int, cap as int);
    assert(len - 1 == cap * q + r);
    if i * cap < len {
        assert(i <= q) by (nonlinear_arith)
            requires
                i * cap < len,
                len - 1 == cap * q + r,
                0 <= r < cap,
                cap >= 1,
        ;
    } else {
        assert(i - 1 <= q) by (nonlinear_arith)
            requires
                (i - 1) * cap < len,
                len - 1 == cap * q + r,
                0 <= r < cap,
                cap >= 1,
        ;
        assert(i >= q + 1) by (nonlinear_arith)
            requires
                i * cap >= len,
                len - 1 == cap * q + r,
                0 <= r < cap,
                cap >= 1,
        ;
    }
}

/// A chunk of at most the chunk capacity encodes into at most `mg` glyphs.
pub proof fn lemma_chunk_frame_fits(p: GlyphProfile, chunk: Seq<u8>, o: EncodeOptions, mg: nat)
    requires
        p.wf(),
        chunk_cap(p, mg, o) >= 1,
        chunk.len() <= chunk_cap(p, mg, o),
        encode_spec(p, chunk, o) is Ok,
    ensures
        encode_spec(p, chunk, o)->Ok_0.len() <= mg,
{
    lemma_within_capacity(p, mg, o, chunk.len());
}

/// Encode `payload` as a sequence of independent framed glyph frames.
///
/// Each frame holds at most `max_glyphs_per_chunk` glyphs (including its own
/// header, trailer and ECC parity). An empty payload yields a single empty frame.
#[verifier::rlimit(80)]
#[verifier::spinoff_prover]
pub fn encode_chunked(profile: &GlyphProfile, payload: &[u8], opts: EncodeOptions, max_glyphs_per_chunk: usize) -> (r: Result<Vec<Vec<Grid>>>)
    requires
        profile.wf(),
        chunked_fits(*profile, payload@, opts, max_glyphs_per_chunk as nat),
    ensures
        frames_agree(r, encode_chunked_spec(*profile, payload@, opts, max_glyphs_per_chunk as nat)),
        r matches Ok(fs) ==> frames_wf(fs@),
        r matches Ok(fs) ==> (forall|i: int| 0 <= i < fs@.len() ==> (#[trigger] fs@[i])@.len() <= max_glyphs_per_chunk),
{
    if max_glyphs_per_chunk == 0 {
        return Err(GlyphixError::InvalidProfile("max_glyphs_per_chunk must be ≥ 1".to_string()));
    }
    if max_glyphs_per_chunk > profile.max_glyphs {
        return Err(GlyphixError::GlyphCountExceeded { count: max_glyphs_per_chunk, cap: profile.max_glyphs });
    }
    let cap = capacity_payload_bytes_opts(profile, max_glyphs_per_chunk, opts);
    if cap == 0 {
        let mut msg = "max_glyphs_per_chunk=".to_string();
        crate::text::push_decimal(&mut msg, max_glyphs_per_chunk as u64);
        msg.append(" cannot hold any payload bytes with ");
        msg.append(opts.integrity.message_name());
        return Err(GlyphixError::InvalidProfile(msg));
    }
    let ghost cs = chunks_spec(payload@, cap as nat);
    let ghost mg = max_glyphs_per_chunk as nat;
    if payload.len() == 0 {
        let empty: Vec<u8> = Vec::new();
        proof {
            assert(cs.len() == 1);
            assert(cs[0] =~= empty@);
            assert(encode_chunks_prefix(*profile, cs, opts, 0) == Ok::<Seq<Seq<GridView>>, GlyphixError>(Seq::empty()));
        }
        let g = encode_with(profile, empty.as_slice(), opts)?;
        proof {
            lemma_chunk_frame_fits(*profile, empty@, opts, mg);
            assert(views(g@) == encode_spec(*profile, empty@, opts)->Ok_0);
        }
        let mut frames: Vec<Vec<Grid>> = Vec::new();
        frames.push(g);
        proof {
            assert(frame_views(frames@) =~= seq![views(frames@[0]@)]);
            assert(Seq::<Seq<GridView>>::empty().push(views(frames@[0]@)) =~= seq![views(frames@[0]@)]);
        }
        return Ok(frames);
    }
    let mut frames: Vec<Vec<Grid>> = Vec::new();
    let mut pos: usize = 0;
    let mut i: usize = 0;
    let len = payload.len();
    let ghost count = cs.len();
    assert(frame_views(frames@) =~= Seq::<Seq<GridView>>::empty());
    while pos < len
        invariant
            profile.wf(),
            len == payload@.len(),
            len >= 1,
            cap >= 1,
            cap == chunk_cap(*profile, mg, opts),
            1 <= mg <= profile.max_glyphs,
            mg == max_glyphs_per_chunk,
            chunked_fits(*profile, payload@, opts, mg),
            cs == chunks_spec(payload@, cap as nat),
            count == cs.len(),
            count == chunk_count(len as nat, cap as nat),
            pos == if i * cap <= len { i * cap } else { len as int },
            pos < len ==> i < count,
            i <= count,
            pos == len ==> i == count,
            encode_chunks_prefix(*profile, cs, opts, i as nat) == Ok::<Seq<Seq<GridView>>, GlyphixError>(frame_views(frames@)),
            frames_wf(frames@),
            frames@.len() == i,
            forall|j: int| 0 <= j < frames@.len() ==> (#[trigger] frames@[j])@.len() <= mg,
        decreases len - pos,
    {
        proof {
            lemma_chunk_bounds(len as nat, cap as nat, i as nat);
        }
        let end = if len - pos >= cap { pos + cap } else { len };
        proof {
            assert(payload@.subrange(pos as int, end as int) == cs[i as int]);
        }
        let g = match encode_with(profile, &payload[pos..end], opts) {
            Ok(g) => g,
            Err(e) => {
                proof {
                    let prev = frame_views(frames@);
                    assert(encode_chunks_prefix(*profile, cs, opts, (i + 1) as nat) == Err::<Seq<Seq<GridView>>, GlyphixError>(
                        encode_spec(*profile, cs[i as int], opts)->Err_0));
                    lemma_encode_chunks_error_sticks(*profile, cs, opts, (i + 1) as nat, count);
                }
                return Err(e);
            },
        };
        proof {
            lemma_chunk_frame_fits(*profile, cs[i as int], opts, mg);
            assert(views(g@) == encode_spec(*profile, cs[i as int], opts)->Ok_0);
        }
        let ghost before = frame_views(frames@);
        frames.push(g);
        proof {
            assert(frame_views(frames@) =~= before.push(views(g@)));
            assert(frames_wf(frames@));
            lemma_chunk_bounds(len as nat, cap as nat, i as nat);
            assert((i + 1) * cap == i * cap + cap) by (nonlinear_arith);
        }
        pos = end;
        i = i + 1;
        proof {
            lemma_count_position(len as nat, cap as nat, i as nat);
        }
    }
    Ok(frames)
}

/// Payload bytes of the first `k` frames, stopping at the first error.
pub open spec fn decode_frames_prefix(p: GlyphProfile, fs: Seq<Seq<GridView>>, k: nat) -> Result<Seq<u8>>
    decreases k,
{
    if k == 0 {
        Ok(Seq::empty())
    } else {
        match decode_frames_prefix(p, fs, (k - 1) as nat) {
            Err(e) => Err(e),
            Ok(v) => match decode_spec(p, fs[k - 1]) {
                Err(e) => Err(e),
                Ok(b) => Ok(v + b),
            },
        }
    }
}

/// Payload of a chunked decode.
pub open spec fn decode_chunked_spec(p: GlyphProfile, fs: Seq<Seq<GridView>>) -> Result<Seq<u8>> {
    if fs.len() == 0 {
        Err(GlyphixError::EmptyGlyphSequence)
    } else {
        decode_frames_prefix(p, fs, fs.len())
    }
}

pub proof fn lemma_decode_frames_error_sticks(p: GlyphProfile, fs: Seq<Seq<GridView>>, k: nat, j: nat)
    requires
        k <= j,
        decode_frames_prefix(p, fs, k) is Err,
    ensures
        decode_frames_prefix(p, fs, j) == decode_frames_prefix(p, fs, k),
    decreases j - k,
{
    if k < j {
        lemma_decode_frames_error_sticks(p, fs, k, (j - 1) as nat);
    }
}

/// Frames of the first `k` chunks are the first `k` frames.
proof fn lemma_encode_chunks_prefix_index(p: GlyphProfile, cs: Seq<Seq<u8>>, o: EncodeOptions, k: nat, fs: Seq<Seq<GridView>>, i: int)
    requires
        encode_chunks_prefix(p, cs, o, k) == Ok::<Seq<Seq<GridView>>, GlyphixError>(fs),
        0 <= i < k,
    ensures
        fs.len() == k,
        encode_spec(p, cs[i], o) == Ok::<Seq<GridView>, GlyphixError>(fs[i]),
    decreases k,
{
    let prev = encode_chunks_prefix(p, cs, o, (k - 1) as nat);
    assert(prev is Ok);
    let pv = prev->Ok_0;
    if k > 1 {
        lemma_encode_chunks_prefix_len(p, cs, o, (k - 1) as nat, pv);
    } else {
        assert(pv.len() == 0);
    }
    if i < k - 1 {
        lemma_encode_chunks_prefix_index(p, cs, o, (k - 1) as nat, pv, i);
    }
}

proof fn lemma_encode_chunks_prefix_len(p: GlyphProfile, cs: Seq<Seq<u8>>, o: EncodeOptions, k: nat, fs: Seq<Seq<GridView>>)
    requires
        encode_chunks_prefix(p, cs, o, k) == Ok::<Seq<Seq<GridView>>, GlyphixError>(fs),
    ensures
        fs.len() == k,
    decreases k,
{
    if k > 0 {
        let prev = encode_chunks_prefix(p, cs, o, (k - 1) as nat);
        lemma_encode_chunks_prefix_len(p, cs, o, (k - 1) as nat, prev->Ok_0);
    }
}

/// The chunks of a payload put back together give the payload.
pub proof fn lemma_chunks_concat(payload: Seq<u8>, cap: nat, k: nat)
    requires
        cap >= 1,
        k <= chunk_count(payload.len(), cap),
    ensures
        chunks_prefix_bytes(payload, cap, k) == payload.subrange(0, if k * cap <= payload.len() { (k * cap) as int } else { payload.len() as int }),
    decreases k,
{
    if k > 0 {
        lemma_chunks_concat(payload, cap, (k - 1) as nat);
        assert((k - 1) * cap + cap == k * cap) by (nonlinear_arith);
        let a = if (k - 1) * cap <= payload.len() { ((k - 1) * cap) as int } else { payload.len() as int };
        let b = if k * cap <= payload.len() { (k * cap) as int } else { payload.len() as int };
        assert(chunk_of(payload, cap, (k - 1) as nat) == payload.subrange(a, b));
        assert(chunks_prefix_bytes(payload, cap, k) == chunks_prefix_bytes(payload, cap, (k - 1) as nat) + chunk_of(payload, cap, (k - 1) as nat));
        assert(payload.subrange(0, a) + payload.subrange(a, b) =~= payload.subrange(0, b));
    } else {
        assert(payload.subrange(0, 0) =~= Seq::<u8>::empty());
    }
}

/// Bytes of the first `k` chunks, concatenated.
pub open spec fn chunks_prefix_bytes(payload: Seq<u8>, cap: nat, k: nat) -> Seq<u8>
    decreases k,
{
    if k == 0 {
        Seq::empty()
    } else {
        chunks_prefix_bytes(payload, cap, (k - 1) as nat) + chunk_of(payload, cap, (k - 1) as nat)
    }
}

/// Byte strings concatenated in order.
pub open spec fn concat_parts(parts: Seq<Seq<u8>>) -> Seq<u8>
    decreases parts.len(),
{
    if parts.len() == 0 {
        Seq::empty()
    } else {
        concat_parts(parts.drop_last()) + parts.last()
    }
}

/// `part` is what frame `fv` decodes to whenever `fv` is the encoding of some payload.
pub open spec fn decodes_as(p: GlyphProfile, fv: Seq<GridView>, part: Seq<u8>) -> bool {
    forall|payload: Seq<u8>, o: EncodeOptions|
        o.wf() && #[trigger] encode_spec(p, payload, o) == Ok::<Seq<GridView>, GlyphixError>(fv) ==> part == payload
}

/// Decoding the frames of a chunked encode gives the payload back.
proof fn lemma_chunked_parts(p: GlyphProfile, payload: Seq<u8>, o: EncodeOptions, mg: nat, fv: Seq<Seq<GridView>>, parts: Seq<Seq<u8>>)
    requires
        o.wf(),
        encode_chunked_spec(p, payload, o, mg) == Ok::<Seq<Seq<GridView>>, GlyphixError>(fv),
        parts.len() == fv.len(),
        forall|j: int| 0 <= j < fv.len() ==> decodes_as(p, #[trigger] fv[j], parts[j]),
    ensures
        concat_parts(parts) == payload,
{
    let cap = chunk_cap(p, mg, o);
    let cs = chunks_spec(payload, cap);
    lemma_encode_chunks_prefix_len(p, cs, o, cs.len(), fv);
    assert forall|j: int| 0 <= j < cs.len() implies parts[j] == cs[j] by {
        lemma_encode_chunks_prefix_index(p, cs, o, cs.len(), fv, j);
        assert(decodes_as(p, fv[j], parts[j]));
        assert(encode_spec(p, cs[j], o) == Ok::<Seq<GridView>, GlyphixError>(fv[j]));
    }
    lemma_concat_chunks(payload, cap, parts, cs.len());
    assert(parts.take(cs.len() as int) =~= parts);
    lemma_chunks_concat(payload, cap, cs.len());
    if payload.len() > 0 {
        let q = ((payload.len() - 1) as nat / cap) as int;
        vstd::arithmetic::div_mod::lemma_fundamental_div_mod((payload.len() - 1) as int, cap as int);
        assert(cs.len() * cap >= payload.len()) by (nonlinear_arith)
            requires
                cs.len() == q + 1,
                payload.len() - 1 == cap * q + (payload.len() - 1) as nat % cap,
                (payload.len() - 1) as nat % cap < cap,
                cap >= 1,
        ;
    }
    assert(payload.subrange(0, payload.len() as int) =~= payload);
}

proof fn lemma_concat_chunks(payload: Seq<u8>, cap: nat, parts: Seq<Seq<u8>>, k: nat)
    requires
        k <= parts.len(),
        k <= chunk_count(payload.len(), cap),
        forall|j: int| 0 <= j < k ==> parts[j] == chunks_spec(payload, cap)[j],
    ensures
        concat_parts(parts.take(k as int)) == chunks_prefix_bytes(payload, cap, k),
    decreases k,
{
    if k > 0 {
        lemma_concat_chunks(payload, cap, parts, (k - 1) as nat);
        assert(parts.take(k as int).drop_last() =~= parts.take(k - 1));
        assert(parts[k - 1] == chunk_of(payload, cap, (k - 1) as nat));
    } else {
        assert(parts.take(0) =~= Seq::<Seq<u8>>::empty());
    }
}

/// Frames one of which is no encoding of anything are no chunked encoding either.
proof fn lemma_no_chunked_source(p: GlyphProfile, fv: Seq<Seq<GridView>>, i: int)
    requires
        0 <= i < fv.len(),
        forall|payload: Seq<u8>, o: EncodeOptions|
            o.wf() && #[trigger] encode_spec(p, payload, o) == Ok::<Seq<GridView>, GlyphixError>(fv[i]) ==> false,
    ensures
        forall|payload: Seq<u8>, o: EncodeOptions, mg: nat|
            o.wf() && #[trigger] encode_chunked_spec(p, payload, o, mg) == Ok::<Seq<Seq<GridView>>, GlyphixError>(fv) ==> false,
{
    assert forall|payload: Seq<u8>, o: EncodeOptions, mg: nat|
        o.wf() && #[trigger] encode_chunked_spec(p, payload, o, mg) == Ok::<Seq<Seq<GridView>>, GlyphixError>(fv) implies false by {
        let cap = chunk_cap(p, mg, o);
        let cs = chunks_spec(payload, cap);
        lemma_encode_chunks_prefix_len(p, cs, o, cs.len(), fv);
        lemma_encode_chunks_prefix_index(p, cs, o, cs.len(), fv, i);
    }
}

/// `fv` is the frame that encoding `part` with some valid options gives.
pub open spec fn encodes_frame(p: GlyphProfile, fv: Seq<GridView>, part: Seq<u8>) -> bool {
    exists|o: EncodeOptions| o.wf() && #[trigger] encode_spec(p, part, o) == Ok::<Seq<GridView>, GlyphixError>(fv)
}

/// Each frame is the encoding of the matching part.
pub open spec fn frames_encode(p: GlyphProfile, fv: Seq<Seq<GridView>>, parts: Seq<Seq<u8>>) -> bool {
    &&& parts.len() == fv.len()
    &&& forall|j: int| 0 <= j < fv.len() ==> #[trigger] encodes_frame(p, fv[j], parts[j])
}

/// Decode independently framed chunks and concatenate payloads in order.
pub fn decode_chunked(profile: &GlyphProfile, frames: &[Vec<Grid>]) -> (r: Result<Vec<u8>>)
    requires
        profile.wf(),
        frames_wf(frames@),
    ensures
        bytes_agree(r, decode_chunked_spec(*profile, frame_views(frames@))),
        forall|payload: Seq<u8>, o: EncodeOptions, mg: nat|
            o.wf() && #[trigger] encode_chunked_spec(*profile, payload, o, mg) == Ok::<Seq<Seq<GridView>>, GlyphixError>(frame_views(frames@))
                ==> (r is Ok && r->Ok_0@ == payload),
        forall|ps: Seq<Seq<u8>>| frames@.len() >= 1 && #[trigger] frames_encode(*profile, frame_views(frames@), ps)
            ==> (r is Ok && r->Ok_0@ == concat_parts(ps)),
{
    let ghost fv = frame_views(frames@);
    if frames.len() == 0 {
        proof {
            assert forall|payload: Seq<u8>, o: EncodeOptions, mg: nat|
                o.wf() && #[trigger] encode_chunked_spec(*profile, payload, o, mg) == Ok::<Seq<Seq<GridView>>, GlyphixError>(fv)
                implies false by {
                let cap = chunk_cap(*profile, mg, o);
                let cs = chunks_spec(payload, cap);
                lemma_encode_chunks_prefix_len(*profile, cs, o, cs.len(), fv);
            }
        }
        return Err(GlyphixError::EmptyGlyphSequence);
    }
    let mut out: Vec<u8> = Vec::new();
    let ghost mut parts: Seq<Seq<u8>> = Seq::empty();
    let mut i: usize = 0;
    while i < frames.len()
        invariant
            profile.wf(),
            frames_wf(frames@),
            fv == frame_views(frames@),
            frames@.len() >= 1,
            i <= frames@.len(),
            decode_frames_prefix(*profile, fv, i as nat) == Ok::<Seq<u8>, GlyphixError>(out@),
            parts.len() == i,
            out@ == concat_parts(parts),
            forall|j: int| 0 <= j < i ==> decodes_as(*profile, #[trigger] fv[j], parts[j]),
        decreases frames@.len() - i,
    {
        assert forall|j: int| 0 <= j < frames@[i as int]@.len() implies (#[trigger] frames@[i as int]@[j])@.wf() by {
        }
        let part = match decode(profile, frames[i].as_slice()) {
            Ok(b) => b,
            Err(e) => {
                proof {
                    assert(views(frames@[i as int]@) == fv[i as int]);
                    assert(decode_frames_prefix(*profile, fv, (i + 1) as nat) == Err::<Seq<u8>, GlyphixError>(
                        decode_spec(*profile, fv[i as int])->Err_0));
                    lemma_decode_frames_error_sticks(*profile, fv, (i + 1) as nat, fv.len());
                    lemma_no_chunked_source(*profile, fv, i as int);
                    assert forall|ps: Seq<Seq<u8>>| #[trigger] frames_encode(*profile, fv, ps) implies false by {
                        assert(encodes_frame(*profile, fv[i as int], ps[i as int]));
                        let o = choose|o: EncodeOptions| o.wf() && #[trigger] encode_spec(*profile, ps[i as int], o)
                            == Ok::<Seq<GridView>, GlyphixError>(fv[i as int]);
                    }
                }
                return Err(e);
            },
        };
        proof {
            assert(views(frames@[i as int]@) == fv[i as int]);
            assert(decodes_as(*profile, fv[i as int], part@));
        }
        let ghost before = out@;
        let mut k: usize = 0;
        while k < part.len()
            invariant
                k <= part@.len(),
                out@ == before + part@.take(k as int),
            decreases part@.len() - k,
        {
            out.push(part[k]);
            k = k + 1;
            assert(out@ =~= before + part@.take(k as int));
        }
        proof {
            assert(part@.take(part@.len() as int) =~= part@);
            let np = parts.push(part@);
            assert(np.drop_last() =~= parts);
            parts = np;
        }
        i = i + 1;
    }
    proof {
        assert forall|payload: Seq<u8>, o: EncodeOptions, mg: nat|
            o.wf() && #[trigger] encode_chunked_spec(*profile, payload, o, mg) == Ok::<Seq<Seq<GridView>>, GlyphixError>(fv)
            implies out@ == payload by {
            lemma_chunked_parts(*profile, payload, o, mg, fv, parts);
        }
        assert forall|ps: Seq<Seq<u8>>| #[trigger] frames_encode(*profile, fv, ps) implies out@ == concat_parts(ps) by {
            assert forall|j: int| 0 <= j < ps.len() implies ps[j] == parts[j] by {
                assert(encodes_frame(*profile, fv[j], ps[j]));
                let o = choose|o: EncodeOptions| o.wf() && #[trigger] encode_spec(*profile, ps[j], o)
                    == Ok::<Seq<GridView>, GlyphixError>(fv[j]);
                assert(decodes_as(*profile, fv[j], parts[j]));
            }
            assert(ps =~= parts);
        }
    }
    Ok(out)
}


/// Batch `i` of a glyph list cut into batches of `b`.
pub open spec fn batch_of(gs: Seq<Grid>, b: nat, i: nat) -> Seq<Grid> {
    let lo = i * b;
    let hi = if i * b + b <= gs.len() { i * b + b } else { gs.len() };
    gs.subrange(lo as int, hi as int)
}

/// Split an already-encoded glyph list into batches of at most `batch_size`
/// (for multi-page render). Batches are not re-framed, so they are not
/// independently decodable unless they happen to be full messages.
pub fn glyph_batches(glyphs: &[Grid], batch_size: usize) -> (r: Result<Vec<&[Grid]>>)
    ensures
        r is Ok <==> batch_size >= 1 && glyphs@.len() >= 1,
        r matches Err(e) ==> if batch_size == 0 {
            e.agrees(GlyphixError::InvalidProfile(message("batch_size must be ≥ 1"@)))
        } else {
            e is EmptyGlyphSequence
        },
        r matches Ok(bs) ==> {
            &&& bs@.len() == chunk_count(glyphs@.len(), batch_size as nat)
            &&& forall|i: int| 0 <= i < bs@.len() ==> (#[trigger] bs@[i])@ == batch_of(glyphs@, batch_size as nat, i as nat)
        },
{
    if batch_size == 0 {
        return Err(GlyphixError::InvalidProfile("batch_size must be ≥ 1".to_string()));
    }
    if glyphs.len() == 0 {
        return Err(GlyphixError::EmptyGlyphSequence);
    }
    let len = glyphs.len();
    let mut out: Vec<&[Grid]> = Vec::new();
    let mut pos: usize = 0;
    let mut i: usize = 0;
    while pos < len
        invariant
            len == glyphs@.len(),
            len >= 1,
            batch_size >= 1,
            pos == if i * batch_size <= len { i * batch_size } else { len as int },
            pos < len ==> i < chunk_count(len as nat, batch_size as nat),
            pos == len ==> i == chunk_count(len as nat, batch_size as nat),
            out@.len() == i,
            forall|k: int| 0 <= k < i ==> (#[trigger] out@[k])@ == batch_of(glyphs@, batch_size as nat, k as nat),
        decreases len - pos,
    {
        let end = if len - pos >= batch_size { pos + batch_size } else { len };
        proof {
            lemma_chunk_bounds(len as nat, batch_size as nat, i as nat);
            assert((i + 1) * batch_size == i * batch_size + batch_size) by (nonlinear_arith);
        }
        let batch = &glyphs[pos..end];
        out.push(batch);
        pos = end;
        i = i + 1;
        proof {
            lemma_count_position(len as nat, batch_size as nat, i as nat);
        }
    }
    Ok(out)
}

/// How many payload bytes fit in one chunk of `max_glyphs` under `integrity`.
pub fn chunk_payload_capacity(profile: &GlyphProfile, max_glyphs: usize, integrity: Integrity) -> (n: usize)
    requires
        profile.wf(),
    ensures
        n == capacity_spec(*profile, max_glyphs as nat, EncodeOptions { integrity, ecc: Ecc::Off }),
{
    capacity_payload_bytes_with(profile, max_glyphs, integrity)
}

/// Number of chunks needed for `payload_len` bytes with the given chunk glyph budget.
pub fn chunks_needed(profile: &GlyphProfile, payload_len: usize, max_glyphs_per_chunk: usize, integrity: Integrity) -> (r: Result<usize>)
    requires
        profile.wf(),
    ensures
        r is Ok <==> capacity_spec(*profile, max_glyphs_per_chunk as nat, EncodeOptions { integrity, ecc: Ecc::Off }) >= 1,
        r matches Ok(n) ==> n == chunk_count(payload_len as nat, capacity_spec(*profile, max_glyphs_per_chunk as nat, EncodeOptions { integrity, ecc: Ecc::Off })),
        r matches Err(e) ==> e.agrees(zero_capacity_error()),
{
    let cap = chunk_payload_capacity(profile, max_glyphs_per_chunk, integrity);
    if cap == 0 {
        return Err(GlyphixError::InvalidProfile("chunk capacity is 0 bytes".to_string()));
    }
    if payload_len == 0 {
        return Ok(1);
    }
    proof {
        assert((payload_len - 1) as nat / cap as nat + 1 <= payload_len) by (nonlinear_arith)
            requires
                payload_len >= 1,
                cap >= 1,
        {
            vstd::arithmetic::div_mod::lemma_div_is_ordered_by_denominator((payload_len - 1) as int, 1, cap as int);
        }
    }
    Ok((payload_len - 1) / cap + 1)
}

/// Max payload bytes for a given glyph budget.
pub fn max_payload_for_glyphs(profile: &GlyphProfile, glyph_count: usize, integrity: Integrity) -> (n: usize)
    requires
        profile.wf(),
    ensures
        n == capacity_spec(*profile, glyph_count as nat, EncodeOptions { integrity, ecc: Ecc::Off }),
{
    capacity_payload_bytes_with(profile, glyph_count, integrity)
}

/// Glyphs required for a payload (single frame).
pub fn glyphs_for_payload(profile: &GlyphProfile, payload_len: usize, integrity: Integrity) -> (r: Result<usize>)
    requires
        profile.wf(),
        frame_fits(*profile, payload_len as nat, EncodeOptions { integrity, ecc: Ecc::Off }),
    ensures
        r == glyphs_needed_result(*profile, payload_len as nat, EncodeOptions { integrity, ecc: Ecc::Off }),
{
    glyphs_needed(profile, payload_len, integrity)
}


/// Incremental encoder: push payload bytes, flush full chunks as glyph frames.
///
/// Useful when the full payload is not in memory at once.
#[derive(Debug, Clone)]
pub struct ChunkEncoder {
    profile: GlyphProfile,
    opts: EncodeOptions,
    max_glyphs: usize,
    capacity: usize,
    buf: Vec<u8>,
    pushed: bool,
}

/// Full chunks of `bytes` at capacity `cap`, encoded in order, stopping at the first error.
pub open spec fn full_chunks(bytes: Seq<u8>, cap: nat) -> Seq<Seq<u8>> {
    Seq::new(bytes.len() / cap, |i: int| bytes.subrange(i * cap, i * cap + cap))
}

impl ChunkEncoder {
    /// The profile frames are encoded with.
    pub closed spec fn profile_spec(self) -> GlyphProfile {
        self.profile
    }

    /// The encode options.
    pub closed spec fn opts_spec(self) -> EncodeOptions {
        self.opts
    }

    /// The glyph budget per chunk.
    pub closed spec fn max_glyphs_spec(self) -> nat {
        self.max_glyphs as nat
    }

    /// Payload bytes per full chunk.
    pub closed spec fn capacity_spec(self) -> nat {
        self.capacity as nat
    }

    /// Bytes pushed but not yet encoded.
    pub closed spec fn buffered(self) -> Seq<u8> {
        self.buf@
    }

    /// Something was pushed since the encoder started or last finished.
    pub closed spec fn pushed_spec(self) -> bool {
        self.pushed
    }

    /// The capacity is that of the glyph budget, and both are positive.
    pub open spec fn wf(self) -> bool {
        &&& self.profile_spec().wf()
        &&& self.max_glyphs_spec() >= 1
        &&& self.capacity_spec() >= 1
        &&& self.capacity_spec() == chunk_cap(self.profile_spec(), self.max_glyphs_spec(), self.opts_spec())
        &&& self.buffered().len() > 0 ==> self.pushed_spec()
    }

    /// The arithmetic of a full chunk's frame fits the machine word.
    pub open spec fn chunk_fits(self) -> bool {
        self.capacity_spec() <= u32::MAX ==> frame_fits(self.profile_spec(), self.capacity_spec(), self.opts_spec())
    }

    /// Start a streaming encoder.
    pub fn new(profile: GlyphProfile, opts: EncodeOptions, max_glyphs_per_chunk: usize) -> (r: Result<Self>)
        requires
            profile.wf(),
    ensures
            r is Ok <==> max_glyphs_per_chunk >= 1 && chunk_cap(profile, max_glyphs_per_chunk as nat, opts) >= 1,
            r matches Ok(e) ==> {
                &&& e.wf()
                &&& e.profile_spec() == profile
                &&& e.opts_spec() == opts
                &&& e.max_glyphs_spec() == max_glyphs_per_chunk
                &&& e.buffered() == Seq::<u8>::empty()
                &&& !e.pushed_spec()
            },
            r matches Err(e) ==> e.agrees(GlyphixError::InvalidProfile(message("invalid chunk encoder capacity"@))),
    {
        let capacity = capacity_payload_bytes_opts(&profile, max_glyphs_per_chunk, opts);
        if capacity == 0 || max_glyphs_per_chunk == 0 {
            return Err(GlyphixError::InvalidProfile("invalid chunk encoder capacity".to_string()));
        }
        Ok(ChunkEncoder { profile, opts, max_glyphs: max_glyphs_per_chunk, capacity, buf: Vec::new(), pushed: false })
    }

    /// Bytes still buffered (not yet a full chunk).
    pub fn buffered_len(&self) -> (n: usize)
        ensures
            n == self.buffered().len(),
    {
        self.buf.len()
    }

    /// Payload bytes per full chunk.
    pub fn chunk_capacity(&self) -> (n: usize)
        ensures
            n == self.capacity_spec(),
    {
        self.capacity
    }

    /// Append payload bytes; returns the frames of every chunk that became full.
    pub fn push(&mut self, data: &[u8]) -> (r: Result<Vec<Vec<Grid>>>)
        requires
            old(self).wf(),
            old(self).buffered().len() + data@.len() >= old(self).capacity_spec() ==> old(self).chunk_fits(),
        ensures
            final(self).wf(),
            final(self).profile_spec() == old(self).profile_spec(),
            final(self).opts_spec() == old(self).opts_spec(),
            final(self).max_glyphs_spec() == old(self).max_glyphs_spec(),
            final(self).pushed_spec(),
            ({
                let all = old(self).buffered() + data@;
                let cap = old(self).capacity_spec();
                let cs = full_chunks(all, cap);
                let p = old(self).profile_spec();
                let o = old(self).opts_spec();
                match r {
                    Ok(fs) => {
                        &&& encode_chunks_prefix(p, cs, o, cs.len()) == Ok::<Seq<Seq<GridView>>, GlyphixError>(frame_views(fs@))
                        &&& frames_wf(fs@)
                        &&& final(self).buffered() == all.skip((cs.len() * cap) as int)
                        &&& (forall|i: int| 0 <= i < fs@.len() ==> (#[trigger] fs@[i])@.len() <= old(self).max_glyphs_spec())
                    },
                    Err(e) => exists|k: nat| {
                        &&& k < cs.len()
                        &&& encode_chunks_prefix(p, cs, o, k) is Ok
                        &&& encode_spec(p, cs[k as int], o) is Err
                        &&& e.agrees(encode_spec(p, cs[k as int], o)->Err_0)
                        &&& final(self).buffered() == all.skip(((k + 1) * cap) as int)
                    },
                }
            }),
    {
        let ghost all = self.buf@ + data@;
        let ghost cap = self.capacity as nat;
        let ghost cs = full_chunks(all, cap);
        let ghost p = self.profile;
        let ghost o = self.opts;
        self.pushed = true;
        let mut k: usize = 0;
        while k < data.len()
            invariant
                self.pushed,
                k <= data@.len(),
                self.buf@ == old(self).buf@ + data@.take(k as int),
                self.profile == old(self).profile,
                self.opts == old(self).opts,
                self.max_glyphs == old(self).max_glyphs,
                self.capacity == old(self).capacity,
            decreases data@.len() - k,
        {
            self.buf.push(data[k]);
            k = k + 1;
            assert(self.buf@ =~= old(self).buf@ + data@.take(k as int));
        }
        assert(data@.take(data@.len() as int) =~= data@);
        assert(all.skip(0) =~= all);
        let mut frames: Vec<Vec<Grid>> = Vec::new();
        let ghost mut done: nat = 0;
        assert(frame_views(frames@) =~= Seq::<Seq<GridView>>::empty());
        while self.buf.len() >= self.capacity
            invariant
                self.wf(),
                self.pushed,
                self.profile == p,
                self.opts == o,
                self.profile == old(self).profile,
                self.opts == old(self).opts,
                self.max_glyphs == old(self).max_glyphs,
                self.capacity == cap,
                cap == old(self).capacity,
                all == old(self).buf@ + data@,
                cs == full_chunks(all, cap),
                all.len() >= cap ==> old(self).chunk_fits(),
                done <= cs.len(),
                done * cap <= all.len(),
                self.buf@ == all.skip((done * cap) as int),
                encode_chunks_prefix(p, cs, o, done) == Ok::<Seq<Seq<GridView>>, GlyphixError>(frame_views(frames@)),
                frames_wf(frames@),
                forall|i: int| 0 <= i < frames@.len() ==> (#[trigger] frames@[i])@.len() <= self.max_glyphs,
            decreases self.buf@.len(),
        {
            proof {
                assert((done + 1) * cap == done * cap + cap) by (nonlinear_arith);
                lemma_full_chunk_index(all, cap, done);
            }
            let mut chunk: Vec<u8> = Vec::new();
            let mut j: usize = 0;
            while j < self.capacity
                invariant
                    self.capacity == cap,
                    cap <= self.buf@.len(),
                    j <= cap,
                    chunk@ == self.buf@.take(j as int),
                decreases cap - j,
            {
                chunk.push(self.buf[j]);
                j = j + 1;
                assert(chunk@ =~= self.buf@.take(j as int));
            }
            let mut rest: Vec<u8> = Vec::new();
            let mut t: usize = self.capacity;
            while t < self.buf.len()
                invariant
                    self.capacity <= t <= self.buf@.len(),
                    rest@ == self.buf@.subrange(self.capacity as int, t as int),
                decreases self.buf@.len() - t,
            {
                rest.push(self.buf[t]);
                t = t + 1;
                assert(rest@ =~= self.buf@.subrange(self.capacity as int, t as int));
            }
            proof {
                assert((done + 1) * cap == done * cap + cap) by (nonlinear_arith);
                assert(chunk@ =~= cs[done as int]);
                assert(rest@ =~= all.skip(((done + 1) * cap) as int));
            }
            self.buf = rest;
            let g = match encode_with(&self.profile, chunk.as_slice(), self.opts) {
                Ok(g) => g,
                Err(e) => {
                    proof {
                        assert(encode_chunks_prefix(p, cs, o, done) is Ok);
                    }
                    return Err(e);
                },
            };
            proof {
                lemma_chunk_frame_fits(p, chunk@, o, self.max_glyphs as nat);
                assert(views(g@) == encode_spec(p, chunk@, o)->Ok_0);
            }
            let ghost before = frame_views(frames@);
            frames.push(g);
            proof {
                assert(frame_views(frames@) =~= before.push(views(g@)));
                assert((done + 1) * cap == done * cap + cap) by (nonlinear_arith);
                done = done + 1;
            }
        }
        proof {
            assert(done == cs.len()) by {
                lemma_full_chunks_done(all, cap, done);
            }
        }
        Ok(frames)
    }

    /// Finish: once anything was pushed, encode the remaining buffered bytes
    /// (possibly none) as a final frame; with nothing pushed, there is no frame.
    pub fn finish(&mut self) -> (r: Result<Option<Vec<Grid>>>)
        requires
            old(self).wf(),
            old(self).buffered().len() <= u32::MAX ==> frame_fits(old(self).profile_spec(), old(self).buffered().len(), old(self).opts_spec()),
        ensures
            final(self).wf(),
            final(self).buffered() == Seq::<u8>::empty(),
            !final(self).pushed_spec(),
            final(self).profile_spec() == old(self).profile_spec(),
            final(self).opts_spec() == old(self).opts_spec(),
            final(self).max_glyphs_spec() == old(self).max_glyphs_spec(),
            !old(self).pushed_spec() ==> r == Ok::<Option<Vec<Grid>>, GlyphixError>(None),
            old(self).pushed_spec() ==> match (r, encode_spec(old(self).profile_spec(), old(self).buffered(), old(self).opts_spec())) {
                (Ok(Some(g)), Ok(gs)) => views(g@) == gs && forall|j: int| 0 <= j < g@.len() ==> (#[trigger] g@[j])@.wf(),
                (Err(e1), Err(e2)) => e1.agrees(e2),
                _ => false,
            },
    {
        if !self.pushed {
            return Ok(None);
        }
        self.pushed = false;
        let mut chunk: Vec<u8> = Vec::new();
        std::mem::swap(&mut chunk, &mut self.buf);
        Ok(Some(encode_with(&self.profile, chunk.as_slice(), self.opts)?))
    }

    /// Finish, always emitting one frame (the empty payload if nothing is buffered).
    pub fn finish_with_empty(&mut self) -> (r: Result<Vec<Grid>>)
        requires
            old(self).wf(),
            old(self).buffered().len() <= u32::MAX ==> frame_fits(old(self).profile_spec(), old(self).buffered().len(), old(self).opts_spec()),
        ensures
            final(self).wf(),
            final(self).buffered() == Seq::<u8>::empty(),
            !final(self).pushed_spec(),
            final(self).profile_spec() == old(self).profile_spec(),
            final(self).opts_spec() == old(self).opts_spec(),
            final(self).max_glyphs_spec() == old(self).max_glyphs_spec(),
            crate::grid::glyphs_agree(r, encode_spec(old(self).profile_spec(), old(self).buffered(), old(self).opts_spec())),
            r matches Ok(g) ==> forall|j: int| 0 <= j < g@.len() ==> (#[trigger] g@[j])@.wf(),
    {
        self.pushed = false;
        let mut chunk: Vec<u8> = Vec::new();
        std::mem::swap(&mut chunk, &mut self.buf);
        encode_with(&self.profile, chunk.as_slice(), self.opts)
    }
}

/// Chunk `k` of the full chunks, when `k` of them fit.
proof fn lemma_full_chunk_index(all: Seq<u8>, cap: nat, k: nat)
    requires
        cap >= 1,
        (k + 1) * cap <= all.len(),
    ensures
        k < full_chunks(all, cap).len(),
{
    vstd::arithmetic::div_mod::lemma_fundamental_div_mod(all.len() as int, cap as int);
    assert(k < all.len() / cap) by (nonlinear_arith)
        requires
            (k + 1) * cap <= all.len(),
            all.len() == cap * (all.len() / cap) + all.len() % cap,
            all.len() % cap < cap,
            cap >= 1,
    ;
}

/// Once fewer than `cap` bytes remain, every full chunk has been taken.
proof fn lemma_full_chunks_done(all: Seq<u8>, cap: nat, k: nat)
    requires
        cap >= 1,
        k * cap <= all.len(),
        all.len() - k * cap < cap,
    ensures
        k == full_chunks(all, cap).len(),
{
    vstd::arithmetic::div_mod::lemma_fundamental_div_mod_converse(all.len() as int, cap as int, k as int, all.len() - k * cap);
}

/// The first `k` full chunks concatenate to the first `k * cap` bytes.
proof fn lemma_full_chunks_prefix(bytes: Seq<u8>, cap: nat, k: nat)
    requires
        cap >= 1,
        k <= full_chunks(bytes, cap).len(),
    ensures
        k * cap <= bytes.len(),
        concat_parts(full_chunks(bytes, cap).take(k as int)) == bytes.take((k * cap) as int),
    decreases k,
{
    let cs = full_chunks(bytes, cap);
    vstd::arithmetic::div_mod::lemma_fundamental_div_mod(bytes.len() as int, cap as int);
    let bl = bytes.len() as int;
    let ci = cap as int;
    assert(cs.len() == bl / ci);
    assert(k <= bl / ci);
    let q = bl / ci;
    let ki = k as int;
    assert(ki * ci <= q * ci) by (nonlinear_arith)
        requires
            ki <= q,
            ci >= 1,
    ;
    assert(k * cap <= bytes.len());
    if k == 0 {
        assert(cs.take(0) =~= Seq::<Seq<u8>>::empty());
        assert(bytes.take(0) =~= Seq::<u8>::empty());
    } else {
        lemma_full_chunks_prefix(bytes, cap, (k - 1) as nat);
        assert(cs.take(k as int).drop_last() =~= cs.take(k - 1));
        assert((k - 1) * cap + cap == k * cap) by (nonlinear_arith);
        assert(cs[k - 1] == bytes.subrange((k - 1) * cap, (k - 1) * cap + cap));
        assert(bytes.take((k - 1) * cap) + bytes.subrange((k - 1) * cap, (k * cap) as int) =~= bytes.take((k * cap) as int));
    }
}

/// The frames a streaming encoder hands out — the full chunks of everything
/// pushed, then the final frame of what remains (possibly nothing) — encode, in
/// order, pieces of the pushed bytes that concatenate back to them.
pub proof fn lemma_stream_frames(
    p: GlyphProfile,
    o: EncodeOptions,
    cap: nat,
    pushed: Seq<u8>,
    full: Seq<Seq<GridView>>,
    last: Seq<GridView>,
)
    requires
        o.wf(),
        cap >= 1,
        encode_chunks_prefix(p, full_chunks(pushed, cap), o, full_chunks(pushed, cap).len()) == Ok::<Seq<Seq<GridView>>, GlyphixError>(full),
        encode_spec(p, pushed.skip((full_chunks(pushed, cap).len() * cap) as int), o) == Ok::<Seq<GridView>, GlyphixError>(last),
    ensures
        ({
            let cs = full_chunks(pushed, cap);
            let rest = pushed.skip((cs.len() * cap) as int);
            frames_encode(p, full.push(last), cs.push(rest)) && concat_parts(cs.push(rest)) == pushed
        }),
{
    let cs = full_chunks(pushed, cap);
    let k = cs.len();
    let rest = pushed.skip((k * cap) as int);
    lemma_encode_chunks_prefix_len(p, cs, o, k, full);
    lemma_full_chunks_prefix(pushed, cap, k);
    assert(cs.take(k as int) =~= cs);
    assert forall|j: int| 0 <= j < k implies #[trigger] encodes_frame(p, full[j], cs[j]) by {
        lemma_encode_chunks_prefix_index(p, cs, o, k, full, j);
    }
    let fv = full.push(last);
    let parts = cs.push(rest);
    assert forall|j: int| 0 <= j < fv.len() implies #[trigger] encodes_frame(p, fv[j], parts[j]) by {
        if j < k {
            assert(fv[j] == full[j] && parts[j] == cs[j]);
            assert(encodes_frame(p, full[j], cs[j]));
        } else {
            assert(encode_spec(p, parts[j], o) == Ok::<Seq<GridView>, GlyphixError>(fv[j]));
        }
    }
    assert(parts.drop_last() =~= cs);
    assert(pushed.take((k * cap) as int) + rest =~= pushed);
}

/// Frames of the first `k` chunks depend only on those chunks.
proof fn lemma_encode_chunks_prefix_same(p: GlyphProfile, a: Seq<Seq<u8>>, b: Seq<Seq<u8>>, o: EncodeOptions, k: nat)
    requires
        k <= a.len(),
        k <= b.len(),
        forall|i: int| 0 <= i < k ==> a[i] == b[i],
    ensures
        encode_chunks_prefix(p, a, o, k) == encode_chunks_prefix(p, b, o, k),
    decreases k,
{
    if k > 0 {
        lemma_encode_chunks_prefix_same(p, a, b, o, (k - 1) as nat);
        assert(a[k - 1] == b[k - 1]);
    }
}

/// A chunked encode of a non-empty payload gives the frames that pushing it
/// whole into a fresh streaming encoder and finishing gives: the full chunks,
/// then the rest when some remains. (When the payload is a whole number of
/// chunks, the streaming encoder's final frame is the empty payload's, which the
/// chunked encode does not write.)
pub proof fn lemma_stream_matches_chunked(
    p: GlyphProfile,
    o: EncodeOptions,
    mg: nat,
    payload: Seq<u8>,
    full: Seq<Seq<GridView>>,
    last: Seq<GridView>,
)
    requires
        1 <= mg <= p.max_glyphs,
        chunk_cap(p, mg, o) >= 1,
        payload.len() >= 1,
        encode_chunks_prefix(p, full_chunks(payload, chunk_cap(p, mg, o)), o, full_chunks(payload, chunk_cap(p, mg, o)).len())
            == Ok::<Seq<Seq<GridView>>, GlyphixError>(full),
        ({
            let fc = full_chunks(payload, chunk_cap(p, mg, o));
            let rest = payload.skip((fc.len() * chunk_cap(p, mg, o)) as int);
            rest.len() > 0 ==> encode_spec(p, rest, o) == Ok::<Seq<GridView>, GlyphixError>(last)
        }),
    ensures
        ({
            let fc = full_chunks(payload, chunk_cap(p, mg, o));
            let rest = payload.skip((fc.len() * chunk_cap(p, mg, o)) as int);
            encode_chunked_spec(p, payload, o, mg) == Ok::<Seq<Seq<GridView>>, GlyphixError>(
                if rest.len() > 0 { full.push(last) } else { full },
            )
        }),
{
    let cap = chunk_cap(p, mg, o);
    let fc = full_chunks(payload, cap);
    let k = fc.len();
    let cs = chunks_spec(payload, cap);
    let len = payload.len() as int;
    let c = cap as int;
    vstd::arithmetic::div_mod::lemma_fundamental_div_mod(len, c);
    vstd::arithmetic::div_mod::lemma_fundamental_div_mod(len - 1, c);
    let q = len / c;
    let r = len % c;
    assert(k == q);
    lemma_full_chunks_prefix(payload, cap, k);
    let rest = payload.skip((k * cap) as int);
    assert(k * cap == c * q) by (nonlinear_arith)
        requires
            k == q,
            cap == c,
    ;
    assert(rest.len() == r);
    // The count of chunks: one more than the full ones exactly when some bytes remain.
    if r == 0 {
        assert(len - 1 == (q - 1) * c + (c - 1)) by (nonlinear_arith)
            requires
                len == c * q + r,
                r == 0,
        ;
        vstd::arithmetic::div_mod::lemma_fundamental_div_mod_converse(len - 1, c, q - 1, c - 1);
        assert(cs.len() == k);
    } else {
        assert(len - 1 == q * c + (r - 1)) by (nonlinear_arith)
            requires
                len == c * q + r,
        ;
        vstd::arithmetic::div_mod::lemma_fundamental_div_mod_converse(len - 1, c, q, r - 1);
        assert(cs.len() == k + 1);
    }
    assert forall|i: int| 0 <= i < k implies cs[i] == fc[i] by {
        assert((i + 1) * c <= len) by (nonlinear_arith)
            requires
                0 <= i < q,
                len == c * q + r,
                r >= 0,
                c >= 1,
        ;
        assert(i * c + c == (i + 1) * c) by (nonlinear_arith);
        assert(i * cap <= payload.len());
    }
    lemma_encode_chunks_prefix_same(p, cs, fc, o, k);
    if r > 0 {
        assert(cs[k as int] =~= rest);
        assert(encode_chunks_prefix(p, cs, o, k + 1) == Ok::<Seq<Seq<GridView>>, GlyphixError>(full.push(last)));
    }
}

} // verus!
