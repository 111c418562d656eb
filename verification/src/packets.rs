//! Byte-level inspection of a first payload: TLS ClientHello and HTTP
//! request classification, and in-place re-fragmentation of a TLS record.

use vstd::prelude::*;

verus! {

/// Big-endian record length of a TLS record header: the `u16` at bytes 3..5.
pub open spec fn record_len(b: Seq<u8>) -> int {
    b[3] * 256 + b[4]
}

/// The two bytes of a big-endian 16-bit length field.
pub open spec fn be_bytes(n: int) -> Seq<u8> {
    seq![(n / 256) as u8, (n % 256) as u8]
}

/// One TLS record rewritten as two back-to-back records split at payload
/// offset `pos`: the original 5-byte header with its length field replaced by
/// `pos`, the first `pos` payload bytes, a fresh header carrying the remaining
/// length, and the remaining payload.
pub open spec fn split_record(b: Seq<u8>, pos: int) -> Seq<u8> {
    b.subrange(0, 3) + be_bytes(pos) + b.subrange(5, 5 + pos) + b.subrange(0, 3) + be_bytes(
        record_len(b) - pos,
    ) + b.subrange(5 + pos, b.len() as int)
}

/// Swap the two bytes of a 16-bit value.
pub fn htons(val: u16) -> (r: u16)
    ensures
        r == (val % 256) * 256 + val / 256,
{
    (val % 256) * 256 + val / 256
}

/// The two bytes of a 16-bit value, low byte first.
pub fn convert_u16_to_two_u8s_be(integer: u16) -> (r: [u8; 2])
    ensures
        r@ == seq![(integer % 256) as u8, (integer / 256) as u8],
{
    let lo: u8 = (integer % 256) as u8;
    let hi: u8 = (integer / 256) as u8;
    let r: [u8; 2] = [lo, hi];
    proof {
        assert(r@ =~= seq![(integer % 256) as u8, (integer / 256) as u8]);
    }
    r
}

/// Rewrite the single TLS record in `buffer` into two consecutive records,
/// splitting its payload at offset `pos`. The buffer grows by exactly the 5
/// bytes of the inserted second header; both records carry the original
/// content type and version, and the payload bytes are unchanged.
pub fn part_tls(buffer: &mut Vec<u8>, pos: usize)
    requires
        old(buffer)@.len() >= 5,
        old(buffer)@.len() + 5 <= usize::MAX,
        pos < record_len(old(buffer)@),
        pos + 5 < old(buffer)@.len(),
    ensures
        final(buffer)@ == split_record(old(buffer)@, pos as int),
        final(buffer)@.len() == old(buffer)@.len() + 5,
        final(buffer)@.subrange(0, 3) == old(buffer)@.subrange(0, 3),
        record_len(final(buffer)@) == pos,
        final(buffer)@.subrange(5, 5 + pos) == old(buffer)@.subrange(5, 5 + pos),
        final(buffer)@.subrange(5 + pos, 8 + pos) == old(buffer)@.subrange(0, 3),
        final(buffer)@[8 + pos] * 256 + final(buffer)@[9 + pos] == record_len(old(buffer)@) - pos,
        final(buffer)@.subrange(10 + pos, final(buffer)@.len() as int) == old(buffer)@.subrange(
            5 + pos,
            old(buffer)@.len() as int,
        ),
{
    let ghost orig = buffer@;
    let r: u16 = (buffer[3] as u16) * 256 + (buffer[4] as u16);
    let pos16: u16 = pos as u16;
    let first_hdr = convert_u16_to_two_u8s_be(htons(pos16));
    let second_hdr = convert_u16_to_two_u8s_be(htons(r - pos16));
    proof {
        lemma_htons_convert_be(pos16 as int);
        lemma_htons_convert_be((r - pos16) as int);
        assert(first_hdr@ == be_bytes(pos as int));
        assert(second_hdr@ == be_bytes(record_len(orig) - pos));
    }
    let mut out: Vec<u8> = Vec::new();
    out.push(buffer[0]);
    out.push(buffer[1]);
    out.push(buffer[2]);
    out.push(first_hdr[0]);
    out.push(first_hdr[1]);
    proof {
        assert(out@ =~= orig.subrange(0, 3) + be_bytes(pos as int));
    }
    let end1: usize = 5 + pos;
    let mut i: usize = 5;
    while i < end1
        invariant
            end1 == 5 + pos,
            5 <= i <= 5 + pos,
            pos + 5 < orig.len(),
            buffer@ == orig,
            out@ == orig.subrange(0, 3) + be_bytes(pos as int) + orig.subrange(5, i as int),
        decreases 5 + pos - i,
    {
        out.push(buffer[i]);
        proof {
            assert(out@ =~= orig.subrange(0, 3) + be_bytes(pos as int) + orig.subrange(
                5,
                i + 1 as int,
            ));
        }
        i = i + 1;
    }
    let ghost head = orig.subrange(0, 3) + be_bytes(pos as int) + orig.subrange(5, 5 + pos as int);
    out.push(buffer[0]);
    out.push(buffer[1]);
    out.push(buffer[2]);
    out.push(second_hdr[0]);
    out.push(second_hdr[1]);
    proof {
        assert(out@ =~= head + orig.subrange(0, 3) + be_bytes(record_len(orig) - pos));
    }
    let ghost mid = head + orig.subrange(0, 3) + be_bytes(record_len(orig) - pos);
    let mut j: usize = 5 + pos;
    while j < buffer.len()
        invariant
            5 + pos <= j <= orig.len(),
            buffer@ == orig,
            out@ == mid + orig.subrange(5 + pos as int, j as int),
        decreases orig.len() - j,
    {
        out.push(buffer[j]);
        proof {
            assert(out@ =~= mid + orig.subrange(5 + pos as int, j + 1 as int));
        }
        j = j + 1;
    }
    *buffer = out;
    proof {
        assert(buffer@ =~= split_record(orig, pos as int));
        lemma_split_record_framing(orig, pos as int);
    }
}

/// The byte-swap of a 16-bit value, written out low byte first, is that
/// value's big-endian encoding.
proof fn lemma_htons_convert_be(v: int)
    requires
        0 <= v < 0x10000,
    ensures
        seq![
            (((v % 256) * 256 + v / 256) % 256) as u8,
            (((v % 256) * 256 + v / 256) / 256) as u8,
        ] == be_bytes(v),
{
    let a = v % 256;
    let b = v / 256;
    assert(0 <= a < 256 && 0 <= b < 256);
    assert((a * 256 + b) % 256 == b && (a * 256 + b) / 256 == a) by (nonlinear_arith)
        requires
            0 <= a < 256,
            0 <= b < 256,
    ;
    assert(seq![(((v % 256) * 256 + v / 256) % 256) as u8, (((v % 256) * 256 + v / 256) / 256) as u8]
        =~= be_bytes(v));
}

/// The framing facts behind the splitter's contract: each piece of the split
/// record reads back from the concatenation that defines it.
proof fn lemma_split_record_framing(b: Seq<u8>, pos: int)
    requires
        b.len() >= 5,
        0 <= pos < record_len(b),
        pos + 5 < b.len(),
    ensures
        split_record(b, pos).len() == b.len() + 5,
        split_record(b, pos).subrange(0, 3) == b.subrange(0, 3),
        record_len(split_record(b, pos)) == pos,
        split_record(b, pos).subrange(5, 5 + pos) == b.subrange(5, 5 + pos),
        split_record(b, pos).subrange(5 + pos, 8 + pos) == b.subrange(0, 3),
        split_record(b, pos)[8 + pos] * 256 + split_record(b, pos)[9 + pos] == record_len(b) - pos,
        split_record(b, pos).subrange(10 + pos, split_record(b, pos).len() as int) == b.subrange(
            5 + pos,
            b.len() as int,
        ),
{
    let s = split_record(b, pos);
    assert(s.len() == b.len() + 5);
    assert(s.subrange(0, 3) =~= b.subrange(0, 3));
    assert(s[3] == (pos / 256) as u8 && s[4] == (pos % 256) as u8);
    assert(record_len(s) == pos) by {
        assert(0 <= pos < 0x10000);
        assert((pos / 256) as u8 * 256 + (pos % 256) as u8 == pos) by (nonlinear_arith)
            requires
                0 <= pos < 0x10000,
        ;
    }
    assert(s.subrange(5, 5 + pos) =~= b.subrange(5, 5 + pos));
    assert(s.subrange(5 + pos, 8 + pos) =~= b.subrange(0, 3));
    let rest = record_len(b) - pos;
    assert(s[8 + pos] == (rest / 256) as u8 && s[9 + pos] == (rest % 256) as u8);
    assert(s[8 + pos] * 256 + s[9 + pos] == rest) by {
        assert(0 <= rest < 0x10000);
        assert((rest / 256) as u8 * 256 + (rest % 256) as u8 == rest) by (nonlinear_arith)
            requires
                0 <= rest < 0x10000,
        ;
    }
    assert(s.subrange(10 + pos, s.len() as int) =~= b.subrange(5 + pos, b.len() as int));
}

/// `needle` occurs in `hay` at index `i`.
pub open spec fn subslice_match(hay: Seq<u8>, needle: Seq<u8>, i: int) -> bool {
    0 <= i && i + needle.len() <= hay.len() && hay.subrange(i, i + needle.len()) == needle
}

/// Relies on memchr::memmem::find: the index of the first occurrence of
/// `needle` in `hay`, or `None` when `needle` occurs nowhere in `hay`.
#[verifier::external_body]
fn find_subslice(hay: &[u8], needle: &[u8]) -> (r: Option<usize>)
    ensures
        match r {
            Some(i) => subslice_match(hay@, needle@, i as int) && (forall|j: int|
                0 <= j < i ==> !subslice_match(hay@, needle@, j)),
            None => forall|j: int| !subslice_match(hay@, needle@, j),
        },
{
    memchr::memmem::find(hay, needle)
}

/// The first index at or after `i` where two zero bytes stand next to each
/// other, or `None` when no such pair follows.
pub open spec fn first_zero_pair_from(b: Seq<u8>, i: int) -> Option<int>
    decreases b.len() - i,
{
    if i < 0 || i + 2 > b.len() {
        None
    } else if b[i] == 0 && b[i + 1] == 0 {
        Some(i)
    } else {
        first_zero_pair_from(b, i + 1)
    }
}

/// A zero-byte pair starts at index `i` of `b`.
pub open spec fn zero_pair_at(b: Seq<u8>, i: int) -> bool {
    0 <= i && i + 2 <= b.len() && b[i] == 0 && b[i + 1] == 0
}

/// The first zero pair is the match that nothing earlier precedes.
proof fn lemma_first_zero_pair_some(b: Seq<u8>, k: int, i: int)
    requires
        0 <= k <= i,
        zero_pair_at(b, i),
        forall|j: int| k <= j < i ==> !zero_pair_at(b, j),
    ensures
        first_zero_pair_from(b, k) == Some(i),
    decreases i - k,
{
    if k < i {
        assert(!zero_pair_at(b, k));
        lemma_first_zero_pair_some(b, k + 1, i);
    }
}

/// Without any zero pair at or after `k` the search yields nothing.
proof fn lemma_first_zero_pair_none(b: Seq<u8>, k: int)
    requires
        0 <= k,
        forall|j: int| k <= j ==> !zero_pair_at(b, j),
    ensures
        first_zero_pair_from(b, k) is None,
    decreases b.len() - k,
{
    if k + 2 <= b.len() {
        assert(!zero_pair_at(b, k));
        lemma_first_zero_pair_none(b, k + 1);
    }
}

/// A match of the two-byte needle `[0, 0]` is exactly a zero pair.
proof fn lemma_zero_pair_match(b: Seq<u8>, i: int)
    ensures
        subslice_match(b, seq![0u8, 0u8], i) == zero_pair_at(b, i),
{
    if subslice_match(b, seq![0u8, 0u8], i) {
        assert(b.subrange(i, i + 2)[0] == b[i]);
        assert(b.subrange(i, i + 2)[1] == b[i + 1]);
    }
    if zero_pair_at(b, i) {
        assert(b.subrange(i, i + 2) =~= seq![0u8, 0u8]);
    }
}

/// The buffer opens with a TLS handshake record header whose first handshake
/// byte is a ClientHello.
pub open spec fn tls_hello_header(b: Seq<u8>) -> bool {
    b.len() > 5 && b[0] == 0x16 && b[1] == 0x03 && b[5] == 0x01
}

/// The anchor a ClientHello yields: nine bytes past the first zero pair,
/// which approximates a landing spot inside the SNI string.
pub open spec fn tls_anchor(b: Seq<u8>) -> Option<int> {
    if tls_hello_header(b) {
        match first_zero_pair_from(b, 0) {
            Some(i) => Some(i + 9),
            None => None,
        }
    } else {
        None
    }
}

/// Classify a first payload as a TLS ClientHello: the record header must
/// announce a handshake of protocol major version 3 whose first message is a
/// ClientHello, and the anchor lands nine bytes past the first zero pair.
pub fn is_tls_hello(buffer: &[u8]) -> (r: Option<usize>)
    requires
        buffer@.len() + 9 <= usize::MAX,
    ensures
        r is Some <==> tls_anchor(buffer@) is Some,
        r matches Some(a) ==> tls_anchor(buffer@) == Some(a as int),
{
    if buffer.len() > 5 && buffer[0] == 0x16 && buffer[1] == 0x03 && buffer[5] == 0x01 {
        let needle: [u8; 2] = [0, 0];
        proof {
            assert(needle@ =~= seq![0u8, 0u8]);
        }
        match find_subslice(buffer, &needle) {
            Some(i) => {
                proof {
                    lemma_zero_pair_match(buffer@, i as int);
                    assert forall|j: int| 0 <= j < i implies !zero_pair_at(buffer@, j) by {
                        lemma_zero_pair_match(buffer@, j);
                    }
                    lemma_first_zero_pair_some(buffer@, 0, i as int);
                }
                Some(i + 9)
            },
            None => {
                proof {
                    assert forall|j: int| !zero_pair_at(buffer@, j) by {
                        lemma_zero_pair_match(buffer@, j);
                    }
                    lemma_first_zero_pair_none(buffer@, 0);
                }
                None
            },
        }
    } else {
        None
    }
}

/// `p` is a prefix of `b`.
pub open spec fn starts_with_spec(b: Seq<u8>, p: Seq<u8>) -> bool {
    p.len() <= b.len() && b.subrange(0, p.len() as int) == p
}

/// Whether `prefix` opens `buf`.
fn starts_with(buf: &[u8], prefix: &[u8]) -> (r: bool)
    ensures
        r == starts_with_spec(buf@, prefix@),
{
    if prefix.len() > buf.len() {
        return false;
    }
    let mut k: usize = 0;
    while k < prefix.len()
        invariant
            k <= prefix@.len() <= buf@.len(),
            forall|t: int| 0 <= t < k ==> buf@[t] == prefix@[t],
        decreases prefix@.len() - k,
    {
        if buf[k] != prefix[k] {
            proof {
                if starts_with_spec(buf@, prefix@) {
                    assert(buf@.subrange(0, prefix@.len() as int)[k as int] == buf@[k as int]);
                }
            }
            return false;
        }
        k = k + 1;
    }
    proof {
        assert(buf@.subrange(0, prefix@.len() as int) =~= prefix@);
    }
    true
}

pub open spec fn method_head() -> Seq<u8> {
    seq![0x48u8, 0x45u8, 0x41u8, 0x44u8]
}

pub open spec fn method_get() -> Seq<u8> {
    seq![0x47u8, 0x45u8, 0x54u8]
}

pub open spec fn method_post() -> Seq<u8> {
    seq![0x50u8, 0x4fu8, 0x53u8, 0x54u8]
}

pub open spec fn method_put() -> Seq<u8> {
    seq![0x50u8, 0x55u8, 0x54u8]
}

pub open spec fn method_delete() -> Seq<u8> {
    seq![0x44u8, 0x45u8, 0x4cu8, 0x45u8, 0x54u8, 0x45u8]
}

pub open spec fn method_options() -> Seq<u8> {
    seq![0x4fu8, 0x50u8, 0x54u8, 0x49u8, 0x4fu8, 0x4eu8, 0x53u8]
}

pub open spec fn method_connect() -> Seq<u8> {
    seq![0x43u8, 0x4fu8, 0x4eu8, 0x4eu8, 0x45u8, 0x43u8, 0x54u8]
}

pub open spec fn method_trace() -> Seq<u8> {
    seq![0x54u8, 0x52u8, 0x41u8, 0x43u8, 0x45u8]
}

pub open spec fn method_patch() -> Seq<u8> {
    seq![0x50u8, 0x41u8, 0x54u8, 0x43u8, 0x48u8]
}

/// The buffer opens with one of the nine canonical HTTP request methods.
pub open spec fn starts_with_http_method(b: Seq<u8>) -> bool {
    ||| starts_with_spec(b, method_head())
    ||| starts_with_spec(b, method_get())
    ||| starts_with_spec(b, method_post())
    ||| starts_with_spec(b, method_put())
    ||| starts_with_spec(b, method_delete())
    ||| starts_with_spec(b, method_options())
    ||| starts_with_spec(b, method_connect())
    ||| starts_with_spec(b, method_trace())
    ||| starts_with_spec(b, method_patch())
}

/// Whether one of the nine canonical HTTP request methods opens `buf`.
fn http_method_prefix(buf: &[u8]) -> (r: bool)
    ensures
        r == starts_with_http_method(buf@),
{
    let head: [u8; 4] = [0x48, 0x45, 0x41, 0x44];
    let get: [u8; 3] = [0x47, 0x45, 0x54];
    let post: [u8; 4] = [0x50, 0x4f, 0x53, 0x54];
    let put: [u8; 3] = [0x50, 0x55, 0x54];
    let delete: [u8; 6] = [0x44, 0x45, 0x4c, 0x45, 0x54, 0x45];
    let options: [u8; 7] = [0x4f, 0x50, 0x54, 0x49, 0x4f, 0x4e, 0x53];
    let connect: [u8; 7] = [0x43, 0x4f, 0x4e, 0x4e, 0x45, 0x43, 0x54];
    let trace: [u8; 5] = [0x54, 0x52, 0x41, 0x43, 0x45];
    let patch: [u8; 5] = [0x50, 0x41, 0x54, 0x43, 0x48];
    proof {
        assert(head@ =~= method_head());
        assert(get@ =~= method_get());
        assert(post@ =~= method_post());
        assert(put@ =~= method_put());
        assert(delete@ =~= method_delete());
        assert(options@ =~= method_options());
        assert(connect@ =~= method_connect());
        assert(trace@ =~= method_trace());
        assert(patch@ =~= method_patch());
    }
    starts_with(buf, &head) || starts_with(buf, &get) || starts_with(buf, &post) || starts_with(
        buf,
        &put,
    ) || starts_with(buf, &delete) || starts_with(buf, &options) || starts_with(buf, &connect)
        || starts_with(buf, &trace) || starts_with(buf, &patch)
}

/// The ASCII letters folded to lower case; every other byte kept.
pub open spec fn ascii_lower(c: u8) -> u8 {
    if 0x41 <= c <= 0x5a {
        (c + 0x20) as u8
    } else {
        c
    }
}

/// The six bytes of a line break followed by a lower-case `host:` field name.
pub open spec fn host_tag() -> Seq<u8> {
    seq![0x0au8, 0x68u8, 0x6fu8, 0x73u8, 0x74u8, 0x3au8]
}

/// The Host header name starts at index `i` of `b`, compared with ASCII case
/// folded away.
pub open spec fn host_tag_at(b: Seq<u8>, i: int) -> bool {
    0 <= i && i + 6 <= b.len() && forall|k: int| 0 <= k < 6 ==> ascii_lower(b[i + k]) == host_tag()[k]
}

/// The first index at or after `i` where the Host header name starts.
pub open spec fn first_host_tag_from(b: Seq<u8>, i: int) -> Option<int>
    decreases b.len() - i,
{
    if i < 0 || i + 6 > b.len() {
        None
    } else if host_tag_at(b, i) {
        Some(i)
    } else {
        first_host_tag_from(b, i + 1)
    }
}

/// The first index at or after `i` holding a byte other than a space.
pub open spec fn first_nonspace_from(b: Seq<u8>, i: int) -> Option<int>
    decreases b.len() - i,
{
    if i < 0 || i >= b.len() {
        None
    } else if b[i] != 0x20 {
        Some(i)
    } else {
        first_nonspace_from(b, i + 1)
    }
}

/// The anchor an HTTP request yields: the first non-space byte after the
/// first case-insensitive occurrence of the Host header name, present only
/// when the buffer opens with one of the nine methods.
pub open spec fn http_anchor(b: Seq<u8>) -> Option<int> {
    if starts_with_http_method(b) {
        match first_host_tag_from(b, 0) {
            Some(i) => first_nonspace_from(b, i + 6),
            None => None,
        }
    } else {
        None
    }
}

proof fn lemma_first_host_tag_some(b: Seq<u8>, k: int, i: int)
    requires
        0 <= k <= i,
        host_tag_at(b, i),
        forall|j: int| k <= j < i ==> !host_tag_at(b, j),
    ensures
        first_host_tag_from(b, k) == Some(i),
    decreases i - k,
{
    if k < i {
        lemma_first_host_tag_some(b, k + 1, i);
    }
}

proof fn lemma_first_host_tag_none(b: Seq<u8>, k: int)
    requires
        0 <= k,
        forall|j: int| k <= j ==> !host_tag_at(b, j),
    ensures
        first_host_tag_from(b, k) is None,
    decreases b.len() - k,
{
    if k + 6 <= b.len() {
        lemma_first_host_tag_none(b, k + 1);
    }
}

proof fn lemma_first_nonspace_some(b: Seq<u8>, k: int, i: int)
    requires
        0 <= k <= i < b.len(),
        b[i] != 0x20,
        forall|j: int| k <= j < i ==> b[j] == 0x20,
    ensures
        first_nonspace_from(b, k) == Some(i),
    decreases i - k,
{
    if k < i {
        lemma_first_nonspace_some(b, k + 1, i);
    }
}

proof fn lemma_first_nonspace_none(b: Seq<u8>, k: int)
    requires
        0 <= k,
        forall|j: int| k <= j < b.len() ==> b[j] == 0x20,
    ensures
        first_nonspace_from(b, k) is None,
    decreases b.len() - k,
{
    if k < b.len() {
        lemma_first_nonspace_none(b, k + 1);
    }
}

/// The ASCII case folding of one byte.
fn lower_byte(c: u8) -> (r: u8)
    ensures
        r == ascii_lower(c),
{
    if 0x41 <= c && c <= 0x5a {
        c + 0x20
    } else {
        c
    }
}

/// Whether the Host header name stands at index `i` of `buf`.
fn host_tag_match(buf: &[u8], i: usize) -> (r: bool)
    requires
        i + 6 <= buf@.len(),
    ensures
        r == host_tag_at(buf@, i as int),
{
    let r = lower_byte(buf[i]) == 0x0a && lower_byte(buf[i + 1]) == 0x68 && lower_byte(buf[i + 2])
        == 0x6f && lower_byte(buf[i + 3]) == 0x73 && lower_byte(buf[i + 4]) == 0x74 && lower_byte(
        buf[i + 5],
    ) == 0x3a;
    proof {
        if r {
            assert forall|k: int| 0 <= k < 6 implies ascii_lower(buf@[i + k]) == host_tag()[k] by {
                if k == 0 {
                } else if k == 1 {
                } else if k == 2 {
                } else if k == 3 {
                } else if k == 4 {
                } else {
                    assert(k == 5);
                }
            }
        } else {
            if host_tag_at(buf@, i as int) {
                assert(ascii_lower(buf@[i + 0]) == host_tag()[0]);
                assert(ascii_lower(buf@[i + 1]) == host_tag()[1]);
                assert(ascii_lower(buf@[i + 2]) == host_tag()[2]);
                assert(ascii_lower(buf@[i + 3]) == host_tag()[3]);
                assert(ascii_lower(buf@[i + 4]) == host_tag()[4]);
                assert(ascii_lower(buf@[i + 5]) == host_tag()[5]);
            }
        }
    }
    r
}

/// Classify a first payload as an HTTP request: it must open with one of the
/// nine canonical methods, and the anchor is the first non-space byte after
/// the first case-insensitive `host:` header name that follows a line break.
pub fn is_http(buffer: &[u8]) -> (r: Option<usize>)
    ensures
        r is Some <==> http_anchor(buffer@) is Some,
        r matches Some(a) ==> http_anchor(buffer@) == Some(a as int),
{
    if !http_method_prefix(buffer) {
        return None;
    }
    let n = buffer.len();
    if n < 6 {
        return None;
    }
    let mut i: usize = 0;
    while i <= n - 6
        invariant
            n == buffer@.len(),
            6 <= n,
            i <= n - 6 + 1,
            starts_with_http_method(buffer@),
            forall|j: int| 0 <= j < i ==> !host_tag_at(buffer@, j),
        decreases n - i,
    {
        if host_tag_match(buffer, i) {
            proof {
                lemma_first_host_tag_some(buffer@, 0, i as int);
            }
            let mut j: usize = i + 6;
            while j < n
                invariant
                    n == buffer@.len(),
                    i + 6 <= j <= n,
                    starts_with_http_method(buffer@),
                    first_host_tag_from(buffer@, 0) == Some(i as int),
                    forall|t: int| i + 6 <= t < j ==> buffer@[t] == 0x20,
                decreases n - j,
            {
                if buffer[j] != 0x20 {
                    proof {
                        lemma_first_nonspace_some(buffer@, i + 6, j as int);
                    }
                    return Some(j);
                }
                j = j + 1;
            }
            proof {
                lemma_first_nonspace_none(buffer@, i + 6);
            }
            return None;
        }
        i = i + 1;
    }
    proof {
        assert forall|j: int| !host_tag_at(buffer@, j) by {
            if 0 <= j && j + 6 <= buffer@.len() {
                assert(j < i);
            }
        }
        lemma_first_host_tag_none(buffer@, 0);
    }
    None
}

/// Law: a buffer whose header announces a ClientHello and whose first zero
/// pair starts at `i` is classified as TLS with anchor `i + 9`.
pub proof fn lemma_tls_classifier(b: Seq<u8>, i: int)
    requires
        tls_hello_header(b),
        zero_pair_at(b, i),
        forall|j: int| 0 <= j < i ==> !zero_pair_at(b, j),
    ensures
        tls_anchor(b) == Some(i + 9),
{
    lemma_first_zero_pair_some(b, 0, i);
}

/// Law: a buffer that opens with an HTTP method, holds the Host header name
/// first at `i`, and whose first non-space byte after the name stands at `a`,
/// is classified as HTTP with anchor `a`.
pub proof fn lemma_http_classifier(b: Seq<u8>, i: int, a: int)
    requires
        starts_with_http_method(b),
        host_tag_at(b, i),
        forall|j: int| 0 <= j < i ==> !host_tag_at(b, j),
        i + 6 <= a < b.len(),
        b[a] != 0x20,
        forall|t: int| i + 6 <= t < a ==> b[t] == 0x20,
    ensures
        http_anchor(b) == Some(a),
{
    lemma_first_host_tag_some(b, 0, i);
    lemma_first_nonspace_some(b, i + 6, a);
}

} // verus!
