//! The parameter model and the desync emitter's planning logic: an ordered
//! list of perturbation methods is applied to a classified first payload,
//! yielding the exact segments to write upstream.

use vstd::prelude::*;

use crate::packets::http_anchor;
use crate::packets::is_http;
use crate::packets::is_tls_hello;
use crate::packets::part_tls;
use crate::packets::record_len;
use crate::packets::split_record;
use crate::packets::tls_anchor;

verus! {

/// Reserved anchor-derivation policy of a perturbation anchor.
#[derive(Clone, Copy, Debug)]
pub enum Flag {
    OffsetSni,
    OffsetHost,
}

/// A perturbation anchor: an absolute byte offset into the first payload,
/// with a reserved policy flag.
#[derive(Clone, Copy, Debug)]
pub struct Part {
    pub pos: usize,
    pub flag: Option<Flag>,
}

/// One perturbation method, anchored at a byte offset.
#[derive(Clone, Copy, Debug)]
pub enum Method {
    Split(Part),
    Disorder(Part),
    Oob(Part),
}

/// The process-wide configuration: an optional TLS record split position and
/// the ordered list of perturbation methods.
#[derive(Clone, Debug)]
pub struct Params {
    pub tlsrec: Option<Part>,
    pub methods: Vec<Method>,
}

/// The anchor a method carries.
pub open spec fn method_part_spec(m: Method) -> Part {
    match m {
        Method::Split(p) => p,
        Method::Disorder(p) => p,
        Method::Oob(p) => p,
    }
}

/// The anchor a method carries.
pub fn method_part(m: &Method) -> (p: &Part)
    ensures
        *p == method_part_spec(*m),
{
    match m {
        Method::Split(p) => p,
        Method::Disorder(p) => p,
        Method::Oob(p) => p,
    }
}

/// `m` placed into `s` behind every element whose position is at least as
/// large, so that a run of such insertions sorts by position descending and
/// keeps earlier-inserted methods in front of later ones at equal positions.
pub open spec fn insert_desc(s: Seq<Method>, m: Method) -> Seq<Method>
    decreases s.len(),
{
    if s.len() == 0 {
        seq![m]
    } else if method_part_spec(s[0]).pos >= method_part_spec(m).pos {
        seq![s[0]] + insert_desc(s.drop_first(), m)
    } else {
        seq![m] + s
    }
}

/// Positions never increase along the method list.
pub open spec fn sorted_desc(ms: Seq<Method>) -> bool {
    forall|i: int, j: int|
        0 <= i < j < ms.len() ==> method_part_spec(ms[i]).pos >= method_part_spec(ms[j]).pos
}

/// An upper bound on every position of `s` also bounds every position of `s`
/// with `m` inserted, provided it bounds `m`.
proof fn lemma_insert_desc_bound(s: Seq<Method>, m: Method, x: int)
    requires
        x >= method_part_spec(m).pos,
        forall|j: int| 0 <= j < s.len() ==> x >= method_part_spec(s[j]).pos,
    ensures
        forall|t: int|
            0 <= t < insert_desc(s, m).len() ==> x >= method_part_spec(insert_desc(s, m)[t]).pos,
    decreases s.len(),
{
    if s.len() == 0 {
    } else if method_part_spec(s[0]).pos >= method_part_spec(m).pos {
        assert(forall|j: int|
            0 <= j < s.drop_first().len() ==> x >= method_part_spec(
                #[trigger] s.drop_first()[j],
            ).pos);
        lemma_insert_desc_bound(s.drop_first(), m, x);
        assert(forall|t: int|
            1 <= t < insert_desc(s, m).len() ==> insert_desc(s, m)[t] == insert_desc(
                s.drop_first(),
                m,
            )[t - 1]);
    }
}

/// Inserting into a descending list keeps it descending.
proof fn lemma_insert_desc_sorted(s: Seq<Method>, m: Method)
    requires
        sorted_desc(s),
    ensures
        sorted_desc(insert_desc(s, m)),
    decreases s.len(),
{
    if s.len() == 0 {
    } else if method_part_spec(s[0]).pos >= method_part_spec(m).pos {
        let rest = s.drop_first();
        assert(sorted_desc(rest)) by {
            assert(forall|i: int, j: int|
                0 <= i < j < rest.len() ==> method_part_spec(#[trigger] rest[i]).pos
                    >= method_part_spec(#[trigger] rest[j]).pos) by {
                assert(forall|i: int, j: int|
                    0 <= i < j < rest.len() ==> rest[i] == s[i + 1] && rest[j] == s[j + 1]);
            }
        }
        lemma_insert_desc_sorted(rest, m);
        assert(forall|j: int| 0 <= j < rest.len() ==> method_part_spec(s[0]).pos
            >= method_part_spec(#[trigger] rest[j]).pos);
        lemma_insert_desc_bound(rest, m, method_part_spec(s[0]).pos as int);
        let r = insert_desc(s, m);
        assert(forall|t: int| 1 <= t < r.len() ==> r[t] == insert_desc(rest, m)[t - 1]);
        assert(forall|i: int, j: int|
            0 <= i < j < r.len() ==> method_part_spec(#[trigger] r[i]).pos >= method_part_spec(
                #[trigger] r[j],
            ).pos);
    } else {
        let r = seq![m] + s;
        assert(forall|j: int| 1 <= j < r.len() ==> r[j] == s[j - 1]);
        assert(forall|j: int| 1 <= j < r.len() ==> method_part_spec(r[0]).pos >= method_part_spec(
            #[trigger] r[j],
        ).pos);
    }
}

/// `insert_desc` walks past a bounded prefix untouched.
proof fn lemma_insert_desc_split_at(s: Seq<Method>, m: Method, i: int)
    requires
        0 <= i <= s.len(),
        forall|j: int| 0 <= j < i ==> method_part_spec(s[j]).pos >= method_part_spec(m).pos,
    ensures
        insert_desc(s, m) == s.take(i) + insert_desc(s.skip(i), m),
    decreases i,
{
    if i == 0 {
        assert(s.skip(0) =~= s);
        assert(s.take(0) + insert_desc(s, m) =~= insert_desc(s, m));
    } else {
        let rest = s.drop_first();
        assert(forall|j: int|
            0 <= j < i - 1 ==> method_part_spec(#[trigger] rest[j]).pos >= method_part_spec(
                m,
            ).pos) by {
            assert(forall|j: int| 0 <= j < i - 1 ==> rest[j] == s[j + 1]);
        }
        lemma_insert_desc_split_at(rest, m, i - 1);
        assert(rest.take(i - 1) =~= s.take(i).drop_first());
        assert(rest.skip(i - 1) =~= s.skip(i));
        assert(insert_desc(s, m) == seq![s[0]] + insert_desc(rest, m));
        assert(seq![s[0]] + (rest.take(i - 1) + insert_desc(s.skip(i), m)) =~= s.take(i)
            + insert_desc(s.skip(i), m));
    }
}

/// Place `m` into the position-descending list `v`, behind every method whose
/// position is at least as large.
fn insert_method(v: &mut Vec<Method>, m: Method)
    ensures
        final(v)@ == insert_desc(old(v)@, m),
{
    let mut i: usize = 0;
    while i < v.len() && method_part(&v[i]).pos >= method_part(&m).pos
        invariant
            i <= v@.len(),
            v@ == old(v)@,
            forall|j: int| 0 <= j < i ==> method_part_spec(v@[j]).pos >= method_part_spec(m).pos,
        decreases v@.len() - i,
    {
        i = i + 1;
    }
    proof {
        lemma_insert_desc_split_at(v@, m, i as int);
        if i < v@.len() {
            assert(v@.skip(i as int)[0] == v@[i as int]);
            assert(insert_desc(v@.skip(i as int), m) == seq![m] + v@.skip(i as int));
        }
        assert(old(v)@.insert(i as int, m) =~= v@.take(i as int) + insert_desc(
            v@.skip(i as int),
            m,
        ));
    }
    v.insert(i, m);
}

/// The position option of a CLI flag as the anchor it configures.
pub open spec fn part_of_pos(o: Option<usize>) -> Option<Part> {
    match o {
        Some(pos) => Some(Part { pos, flag: None }),
        None => None,
    }
}

/// The method list the three optional flags yield: each present method,
/// sorted by position descending, ties ordered disorder, split, out-of-band.
pub open spec fn methods_spec(disorder: Option<usize>, split: Option<usize>, oob: Option<
    usize,
>) -> Seq<Method> {
    let s0 = Seq::<Method>::empty();
    let s1 = match disorder {
        Some(pos) => insert_desc(s0, Method::Disorder(Part { pos, flag: None })),
        None => s0,
    };
    let s2 = match split {
        Some(pos) => insert_desc(s1, Method::Split(Part { pos, flag: None })),
        None => s1,
    };
    match oob {
        Some(pos) => insert_desc(s2, Method::Oob(Part { pos, flag: None })),
        None => s2,
    }
}

/// Build the immutable configuration from the optional byte offsets of the
/// disorder, split, out-of-band and TLS-record-split flags. The methods come
/// out sorted by position descending, the order the emitter consumes.
pub fn build_params(
    disorder: Option<usize>,
    split: Option<usize>,
    oob: Option<usize>,
    tlsrec: Option<usize>,
) -> (p: Params)
    ensures
        p.methods@ == methods_spec(disorder, split, oob),
        p.tlsrec == part_of_pos(tlsrec),
{
    let mut methods: Vec<Method> = Vec::new();
    if let Some(pos) = disorder {
        insert_method(&mut methods, Method::Disorder(Part { pos, flag: None }));
    }
    if let Some(pos) = split {
        insert_method(&mut methods, Method::Split(Part { pos, flag: None }));
    }
    if let Some(pos) = oob {
        insert_method(&mut methods, Method::Oob(Part { pos, flag: None }));
    }
    let tlsrec_part = match tlsrec {
        Some(pos) => Some(Part { pos, flag: None }),
        None => None,
    };
    Params { tlsrec: tlsrec_part, methods }
}

/// Law: the method list built from the flags is sorted by position
/// descending, the ordering invariant the emitter relies on.
pub proof fn lemma_methods_spec_sorted(disorder: Option<usize>, split: Option<usize>, oob: Option<
    usize,
>)
    ensures
        sorted_desc(methods_spec(disorder, split, oob)),
{
    let s0 = Seq::<Method>::empty();
    assert(sorted_desc(s0));
    let s1 = match disorder {
        Some(pos) => insert_desc(s0, Method::Disorder(Part { pos, flag: None })),
        None => s0,
    };
    if let Some(pos) = disorder {
        lemma_insert_desc_sorted(s0, Method::Disorder(Part { pos, flag: None }));
    }
    let s2 = match split {
        Some(pos) => insert_desc(s1, Method::Split(Part { pos, flag: None })),
        None => s1,
    };
    if let Some(pos) = split {
        lemma_insert_desc_sorted(s1, Method::Split(Part { pos, flag: None }));
    }
    if let Some(pos) = oob {
        lemma_insert_desc_sorted(s2, Method::Oob(Part { pos, flag: None }));
    }
}

/// How one planned segment is to be written upstream.
#[derive(Clone, Copy, Debug, PartialEq, Eq, Structural)]
pub enum SegKind {
    /// Write the bytes, then flush, so the segment gets its own boundary.
    Split,
    /// Write the bytes and flush with the socket's TTL clamped to 1.
    Disorder,
    /// Send the bytes as TCP urgent data; the last byte is the urgent byte.
    Oob,
    /// Write the bytes with no perturbation.
    Tail,
}

/// One planned segment: the exact bytes to hand to the socket.
#[derive(Clone, Debug)]
pub struct Segment {
    pub kind: SegKind,
    pub data: Vec<u8>,
}

/// The mathematical shape of a segment: its kind and its bytes.
pub open spec fn seg_model(s: Segment) -> (SegKind, Seq<u8>) {
    (s.kind, s.data@)
}

pub open spec fn seg_models(s: Seq<Segment>) -> Seq<(SegKind, Seq<u8>)> {
    s.map_values(|g: Segment| seg_model(g))
}

/// The segment kind a method emits.
pub open spec fn method_kind(m: Method) -> SegKind {
    match m {
        Method::Split(_) => SegKind::Split,
        Method::Disorder(_) => SegKind::Disorder,
        Method::Oob(_) => SegKind::Oob,
    }
}

/// The bytes a method sends for the stretch from `offset` to its own
/// position: the stretch itself, except that an out-of-band method appends
/// one extra byte, `0x61`, in place of the payload byte at its position.
pub open spec fn method_seg_data(buf: Seq<u8>, offset: int, m: Method) -> Seq<u8> {
    let pos = method_part_spec(m).pos as int;
    match m {
        Method::Oob(_) => buf.subrange(offset, pos).push(0x61),
        _ => buf.subrange(offset, pos),
    }
}

/// The unperturbed rest of the payload, absent when nothing is left.
pub open spec fn tail_plan(buf: Seq<u8>, offset: int) -> Seq<(SegKind, Seq<u8>)> {
    if offset < buf.len() {
        seq![(SegKind::Tail, buf.subrange(offset, buf.len() as int))]
    } else {
        Seq::empty()
    }
}

/// The emitter's loop over the method list: each method covers the stretch
/// from the running offset to its own position; a method whose position does
/// not advance the offset, or lies outside the payload, ends the loop, and
/// whatever is left goes out as the tail.
pub open spec fn emit_plan(buf: Seq<u8>, methods: Seq<Method>, offset: int) -> Seq<
    (SegKind, Seq<u8>),
>
    decreases methods.len(),
{
    if methods.len() == 0 {
        tail_plan(buf, offset)
    } else {
        let pos = method_part_spec(methods[0]).pos as int;
        if pos <= offset || pos >= buf.len() {
            tail_plan(buf, offset)
        } else {
            seq![(method_kind(methods[0]), method_seg_data(buf, offset, methods[0]))] + emit_plan(
                buf,
                methods.drop_first(),
                pos,
            )
        }
    }
}

/// The TLS record split applies when a position is configured and lies both
/// inside the record's length field and inside the payload behind the header.
pub open spec fn tlsrec_applies(b: Seq<u8>, tlsrec: Option<Part>) -> bool {
    &&& tlsrec is Some
    &&& b.len() >= 5
    &&& (tlsrec->0.pos as int) < record_len(b)
    &&& tlsrec->0.pos + 5 < b.len()
}

/// The payload as the emitter sees it: re-framed as two TLS records when the
/// payload is a ClientHello and the configured split position is in range,
/// untouched otherwise.
pub open spec fn adjusted_payload(b: Seq<u8>, tlsrec: Option<Part>, is_https: bool) -> Seq<u8> {
    if is_https && tlsrec_applies(b, tlsrec) {
        split_record(b, tlsrec->0.pos as int)
    } else {
        b
    }
}

pub open spec fn desync_spec(
    b: Seq<u8>,
    tlsrec: Option<Part>,
    methods: Seq<Method>,
    is_https: bool,
) -> Seq<(SegKind, Seq<u8>)> {
    emit_plan(adjusted_payload(b, tlsrec, is_https), methods, 0)
}

/// A copy of `src[a..b]`.
fn copy_range(src: &[u8], a: usize, b: usize) -> (r: Vec<u8>)
    requires
        a <= b <= src@.len(),
    ensures
        r@ == src@.subrange(a as int, b as int),
{
    let mut r: Vec<u8> = Vec::new();
    let mut k: usize = a;
    while k < b
        invariant
            a <= k <= b <= src@.len(),
            r@ == src@.subrange(a as int, k as int),
        decreases b - k,
    {
        r.push(src[k]);
        proof {
            assert(src@.subrange(a as int, k + 1 as int) =~= src@.subrange(a as int, k as int).push(
                src@[k as int],
            ));
        }
        k = k + 1;
    }
    r
}

/// Plan how the first payload `bytes` is written upstream: apply the TLS
/// record split when it is configured, in range and the payload is a
/// ClientHello, then walk the method list, planning one segment per method
/// until one fails to advance, and close with the unperturbed tail.
pub fn desync_plan(bytes: &[u8], params: &Params, is_https: bool) -> (segs: Vec<Segment>)
    requires
        bytes@.len() + 5 <= usize::MAX,
    ensures
        seg_models(segs@) == desync_spec(bytes@, params.tlsrec, params.methods@, is_https),
{
    let mut buffer: Vec<u8> = Vec::new();
    let mut c: usize = 0;
    while c < bytes.len()
        invariant
            c <= bytes@.len(),
            buffer@ == bytes@.take(c as int),
        decreases bytes@.len() - c,
    {
        buffer.push(bytes[c]);
        proof {
            assert(bytes@.take(c + 1 as int) =~= bytes@.take(c as int).push(bytes@[c as int]));
        }
        c = c + 1;
    }
    proof {
        assert(buffer@ =~= bytes@);
    }
    if is_https {
        if let Some(part) = &params.tlsrec {
            let pos = part.pos;
            if buffer.len() >= 5 {
                let r: u16 = (buffer[3] as u16) * 256 + (buffer[4] as u16);
                if pos < r as usize && pos + 5 < buffer.len() {
                    part_tls(&mut buffer, pos);
                }
            }
        }
    }
    proof {
        assert(buffer@ == adjusted_payload(bytes@, params.tlsrec, is_https));
    }
    let ghost bufs = buffer@;
    let ghost ms = params.methods@;
    let mut segs: Vec<Segment> = Vec::new();
    let mut offset: usize = 0;
    let mut idx: usize = 0;
    let n_methods = params.methods.len();
    proof {
        assert(ms.skip(0) =~= ms);
        assert(seg_models(segs@) =~= Seq::<(SegKind, Seq<u8>)>::empty());
    }
    while idx < n_methods
        invariant_except_break
            n_methods == ms.len(),
            ms == params.methods@,
            idx <= n_methods,
            buffer@ == bufs,
            offset <= bufs.len(),
            emit_plan(bufs, ms, 0) == seg_models(segs@) + emit_plan(
                bufs,
                ms.skip(idx as int),
                offset as int,
            ),
        ensures
            buffer@ == bufs,
            offset <= bufs.len(),
            emit_plan(bufs, ms, 0) == seg_models(segs@) + tail_plan(bufs, offset as int),
        decreases n_methods - idx,
    {
        let m = params.methods[idx];
        let pos = method_part(&m).pos;
        proof {
            assert(ms.skip(idx as int)[0] == ms[idx as int]);
        }
        if pos <= offset || pos >= buffer.len() {
            break;
        }
        let ghost segs_before = segs@;
        let mut data = copy_range(buffer.as_slice(), offset, pos);
        let kind = match &m {
            Method::Split(_) => SegKind::Split,
            Method::Disorder(_) => SegKind::Disorder,
            Method::Oob(_) => {
                data.push(0x61);
                SegKind::Oob
            },
        };
        segs.push(Segment { kind, data });
        proof {
            let model = (method_kind(m), method_seg_data(bufs, offset as int, m));
            assert(seg_model(segs@[segs@.len() - 1]) == model);
            assert(seg_models(segs@) =~= seg_models(segs_before) + seq![model]);
            assert(ms.skip(idx as int).drop_first() =~= ms.skip(idx + 1 as int));
            assert(emit_plan(bufs, ms.skip(idx as int), offset as int) == seq![model] + emit_plan(
                bufs,
                ms.skip(idx + 1 as int),
                pos as int,
            ));
            assert((seg_models(segs_before) + seq![model]) + emit_plan(
                bufs,
                ms.skip(idx + 1 as int),
                pos as int,
            ) =~= seg_models(segs_before) + (seq![model] + emit_plan(
                bufs,
                ms.skip(idx + 1 as int),
                pos as int,
            )));
        }
        offset = pos;
        idx = idx + 1;
    }
    if offset < buffer.len() {
        let ghost segs_before = segs@;
        let data = copy_range(buffer.as_slice(), offset, buffer.len());
        segs.push(Segment { kind: SegKind::Tail, data });
        proof {
            assert(seg_models(segs@) =~= seg_models(segs_before) + tail_plan(bufs, offset as int));
        }
    } else {
        proof {
            assert(seg_models(segs@) + tail_plan(bufs, offset as int) =~= seg_models(segs@));
        }
    }
    segs
}

/// The first payload calls for desync handling when it classifies as a TLS
/// ClientHello or as an HTTP request.
pub open spec fn classified(b: Seq<u8>) -> bool {
    tls_anchor(b) is Some || http_anchor(b) is Some
}

/// What is written upstream for a first payload: the desync plan when the
/// payload classifies as TLS or HTTP, the payload verbatim otherwise.
pub open spec fn payload_plan(b: Seq<u8>, tlsrec: Option<Part>, methods: Seq<Method>) -> Seq<
    (SegKind, Seq<u8>),
> {
    if classified(b) {
        desync_spec(b, tlsrec, methods, tls_anchor(b) is Some)
    } else {
        seq![(SegKind::Tail, b)]
    }
}

/// Classify the first payload and plan its upstream writes: a payload that is
/// neither a ClientHello nor an HTTP request passes through as one verbatim
/// segment; any other payload goes through the desync plan.
pub fn first_payload_plan(payload: &[u8], params: &Params) -> (segs: Vec<Segment>)
    requires
        payload@.len() + 9 <= usize::MAX,
    ensures
        seg_models(segs@) == payload_plan(payload@, params.tlsrec, params.methods@),
        !classified(payload@) ==> segs@.len() == 1 && segs@[0].kind == SegKind::Tail
            && segs@[0].data@ == payload@,
{
    let is_https = is_tls_hello(payload).is_some();
    let is_http_req = is_http(payload).is_some();
    if is_https || is_http_req {
        desync_plan(payload, params, is_https)
    } else {
        let data = copy_range(payload, 0, payload.len());
        proof {
            assert(payload@.subrange(0, payload@.len() as int) =~= payload@);
        }
        let mut segs: Vec<Segment> = Vec::new();
        segs.push(Segment { kind: SegKind::Tail, data });
        proof {
            assert(seg_models(segs@) =~= seq![(SegKind::Tail, payload@)]);
        }
        segs
    }
}

/// The bytes of a segment that reach the upstream endpoint's stream: urgent
/// data loses its final byte to the receiver, every other segment arrives
/// whole.
pub open spec fn effective_bytes(s: (SegKind, Seq<u8>)) -> Seq<u8> {
    if s.0 is Oob {
        s.1.take(s.1.len() - 1)
    } else {
        s.1
    }
}

pub open spec fn concat_effective(p: Seq<(SegKind, Seq<u8>)>) -> Seq<u8>
    decreases p.len(),
{
    if p.len() == 0 {
        Seq::empty()
    } else {
        effective_bytes(p[0]) + concat_effective(p.drop_first())
    }
}

proof fn lemma_tail_plan_reassembles(buf: Seq<u8>, offset: int)
    requires
        0 <= offset <= buf.len(),
    ensures
        concat_effective(tail_plan(buf, offset)) == buf.subrange(offset, buf.len() as int),
{
    if offset < buf.len() {
        let t = (SegKind::Tail, buf.subrange(offset, buf.len() as int));
        assert(seq![t].drop_first() =~= Seq::<(SegKind, Seq<u8>)>::empty());
        assert(effective_bytes(t) + concat_effective(Seq::empty()) =~= buf.subrange(
            offset,
            buf.len() as int,
        ));
    } else {
        assert(buf.subrange(offset, buf.len() as int) =~= Seq::<u8>::empty());
    }
}

/// Law: the emitter's segments reassemble, on the receiving endpoint, to
/// exactly the stretch of the payload they were planned from — the urgent
/// byte is discarded by the receiver and the disordered prefix is
/// retransmitted, so nothing is lost and nothing is added.
pub proof fn lemma_emit_plan_reassembles(buf: Seq<u8>, methods: Seq<Method>, offset: int)
    requires
        0 <= offset <= buf.len(),
    ensures
        concat_effective(emit_plan(buf, methods, offset)) == buf.subrange(offset, buf.len() as int),
    decreases methods.len(),
{
    if methods.len() == 0 {
        lemma_tail_plan_reassembles(buf, offset);
    } else {
        let pos = method_part_spec(methods[0]).pos as int;
        if pos <= offset || pos >= buf.len() {
            lemma_tail_plan_reassembles(buf, offset);
        } else {
            let first = (method_kind(methods[0]), method_seg_data(buf, offset, methods[0]));
            let rest = emit_plan(buf, methods.drop_first(), pos);
            assert((seq![first] + rest).drop_first() =~= rest);
            assert((seq![first] + rest)[0] == first);
            assert(effective_bytes(first) =~= buf.subrange(offset, pos));
            lemma_emit_plan_reassembles(buf, methods.drop_first(), pos);
            assert(buf.subrange(offset, pos) + buf.subrange(pos, buf.len() as int) =~= buf.subrange(
                offset,
                buf.len() as int,
            ));
        }
    }
}

/// Law: whatever methods are configured, the upstream endpoint reassembles
/// exactly the payload the client sent, re-framed as two TLS records when the
/// record split applied and byte-for-byte otherwise.
pub proof fn lemma_plan_reassembles(b: Seq<u8>, tlsrec: Option<Part>, methods: Seq<Method>)
    ensures
        concat_effective(payload_plan(b, tlsrec, methods)) == adjusted_payload(
            b,
            tlsrec,
            tls_anchor(b) is Some,
        ),
{
    if classified(b) {
        let a = adjusted_payload(b, tlsrec, tls_anchor(b) is Some);
        lemma_emit_plan_reassembles(a, methods, 0);
        assert(a.subrange(0, a.len() as int) =~= a);
    } else {
        let t = (SegKind::Tail, b);
        assert(seq![t].drop_first() =~= Seq::<(SegKind, Seq<u8>)>::empty());
        assert(effective_bytes(t) + concat_effective(Seq::empty()) =~= b);
    }
}

/// Law: with the method list sorted by position descending, the first method
/// that runs leaves the offset at or above every later position, so the loop
/// breaks at once and at most one method segment precedes the tail.
pub proof fn lemma_sorted_desc_plan_len(buf: Seq<u8>, methods: Seq<Method>)
    requires
        sorted_desc(methods),
    ensures
        emit_plan(buf, methods, 0).len() <= 2,
{
    if methods.len() > 0 {
        let pos = method_part_spec(methods[0]).pos as int;
        if 0 < pos < buf.len() {
            let rest = methods.drop_first();
            if rest.len() > 0 {
                assert(method_part_spec(methods[0]).pos >= method_part_spec(methods[1]).pos);
                assert(rest[0] == methods[1]);
                assert(emit_plan(buf, rest, pos) == tail_plan(buf, pos));
            }
        }
    }
}

/// Law: under a configuration built from the three flags, a first payload is
/// never written in more than two segments — one method segment at most, then
/// the tail — because the flags come out sorted by position descending and a
/// method that cannot advance the offset ends the loop.
pub proof fn lemma_payload_plan_len(
    b: Seq<u8>,
    disorder: Option<usize>,
    split: Option<usize>,
    oob: Option<usize>,
    tlsrec: Option<usize>,
)
    ensures
        payload_plan(b, part_of_pos(tlsrec), methods_spec(disorder, split, oob)).len() <= 2,
{
    lemma_methods_spec_sorted(disorder, split, oob);
    if classified(b) {
        lemma_sorted_desc_plan_len(
            adjusted_payload(b, part_of_pos(tlsrec), tls_anchor(b) is Some),
            methods_spec(disorder, split, oob),
        );
    }
}

} // verus!
