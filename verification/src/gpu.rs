//! The GPU batch protocol: the bytes of a batch request and the decoding of
//! the service's reply.  Numbers travel little-endian.
use vstd::prelude::*;

use crate::config::collect_chars;

verus! {

/// Tag byte that starts a compact batch request.
pub const TAG_COMPACT: u8 = 2;

/// Result of one GPU batch.
pub struct GpuBatchResult {
    /// Survivor count after each test round.
    pub round_counts: Vec<u32>,
    /// Indices of the candidates that passed every round.
    pub survivor_indices: Vec<u32>,
}

/// Why a reply could not be decoded.
#[derive(PartialEq, Eq, Structural, Clone, Copy, Debug)]
pub enum GpuDecodeError {
    /// The reply is shorter than its 8-byte header.
    ResponseTooShort,
}

/// The two little-endian bytes of `x`.
pub open spec fn u16_le(x: u16) -> Seq<u8> {
    seq![(x & 0xff) as u8, ((x >> 8u16) & 0xff) as u8]
}

/// The four little-endian bytes of `x`.
pub open spec fn u32_le(x: u32) -> Seq<u8> {
    seq![
        (x & 0xff) as u8,
        ((x >> 8u32) & 0xff) as u8,
        ((x >> 16u32) & 0xff) as u8,
        ((x >> 24u32) & 0xff) as u8,
    ]
}

/// The eight little-endian bytes of `x`.
pub open spec fn u64_le(x: u64) -> Seq<u8> {
    seq![
        (x & 0xff) as u8,
        ((x >> 8u64) & 0xff) as u8,
        ((x >> 16u64) & 0xff) as u8,
        ((x >> 24u64) & 0xff) as u8,
        ((x >> 32u64) & 0xff) as u8,
        ((x >> 40u64) & 0xff) as u8,
        ((x >> 48u64) & 0xff) as u8,
        ((x >> 56u64) & 0xff) as u8,
    ]
}

/// The little-endian bytes of every element of `s`, in order.
pub open spec fn u64s_le(s: Seq<u64>) -> Seq<u8>
    decreases s.len(),
{
    if s.len() == 0 {
        seq![]
    } else {
        u64s_le(s.drop_last()) + u64_le(s.last())
    }
}

/// The little-endian bytes of every element of `s`, in order.
pub open spec fn u32s_le(s: Seq<u32>) -> Seq<u8>
    decreases s.len(),
{
    if s.len() == 0 {
        seq![]
    } else {
        u32s_le(s.drop_last()) + u32_le(s.last())
    }
}

/// The four big-endian bytes of `x`.
pub open spec fn u32_be(x: u32) -> Seq<u8> {
    seq![
        ((x >> 24u32) & 0xff) as u8,
        ((x >> 16u32) & 0xff) as u8,
        ((x >> 8u32) & 0xff) as u8,
        (x & 0xff) as u8,
    ]
}

/// The big-endian bytes of every element of `s`, in order.
pub open spec fn u32s_be(s: Seq<u32>) -> Seq<u8>
    decreases s.len(),
{
    if s.len() == 0 {
        seq![]
    } else {
        u32s_be(s.drop_last()) + u32_be(s.last())
    }
}

/// The number whose little-endian bytes are `b0, b1, b2, b3`.
pub open spec fn u32_from_le(b0: u8, b1: u8, b2: u8, b3: u8) -> u32 {
    (b0 as u32) | ((b1 as u32) << 8u32) | ((b2 as u32) << 16u32) | ((b3 as u32) << 24u32)
}

/// The number stored little-endian at `b[pos..pos + 4]`.
pub open spec fn u32_at(b: Seq<u8>, pos: int) -> u32 {
    u32_from_le(b[pos], b[pos + 1], b[pos + 2], b[pos + 3])
}

/// `n` numbers stored one after another from `b[pos]`.
pub open spec fn u32s_at(b: Seq<u8>, pos: int, n: nat) -> Seq<u32> {
    Seq::new(n, |k: int| u32_at(b, pos + 4 * k))
}

/// The smaller of two numbers.
pub open spec fn min_nat(a: nat, b: nat) -> nat {
    if a <= b {
        a
    } else {
        b
    }
}

/// The round counts of a reply: as many as the header announces and the
/// reply holds (a batch id at `0..4`, the announced count at `4..8`).
pub open spec fn reply_rounds(b: Seq<u8>) -> Seq<u32> {
    u32s_at(b, 8, min_nat(u32_at(b, 4) as nat, ((b.len() - 8) / 4) as nat))
}

/// Where the survivor count of a reply starts.
pub open spec fn reply_found_pos(b: Seq<u8>) -> int {
    8 + 4 * (reply_rounds(b).len() as int)
}

/// The survivor indices of a reply: as many as announced after the round
/// counts and the reply holds; none when the announcement is cut off.
pub open spec fn reply_survivors(b: Seq<u8>) -> Seq<u32> {
    let pos = reply_found_pos(b);
    if pos + 4 <= b.len() {
        u32s_at(
            b,
            pos + 4,
            min_nat(u32_at(b, pos) as nat, ((b.len() - (pos + 4)) / 4) as nat),
        )
    } else {
        seq![]
    }
}

/// The bytes of a plain batch request, before the candidate limbs.
pub open spec fn batch_header(
    batch_id: u32,
    pattern: Seq<u64>,
    limb_count: u16,
    num_candidates: u32,
) -> Seq<u8> {
    u32_le(batch_id) + seq![(pattern.len() % 256) as u8] + u64s_le(pattern) + u16_le(limb_count)
        + u32_le(num_candidates)
}

/// `limbs` cut or padded with zeros to `lc` entries.
pub open spec fn padded_limbs(limbs: Seq<u32>, lc: nat) -> Seq<u32> {
    Seq::new(lc, |i: int| if i < limbs.len() { limbs[i] } else { 0u32 })
}

/// The bytes of a compact batch request.
pub open spec fn compact_request(
    batch_id: u32,
    primorial_limbs: Seq<u32>,
    first_cand_limbs: Seq<u32>,
    f_values: Seq<u32>,
    pattern: Seq<u64>,
    limb_count: u16,
) -> Seq<u8> {
    seq![TAG_COMPACT] + u32_le(batch_id) + seq![(pattern.len() % 256) as u8] + u64s_le(pattern)
        + u16_le(limb_count) + u32s_le(padded_limbs(primorial_limbs, limb_count as nat))
        + u32s_le(padded_limbs(first_cand_limbs, limb_count as nat)) + u32_le(
        f_values.len() as u32,
    ) + u32s_le(f_values)
}

/// Reading back the four little-endian bytes of a number gives the number.
pub proof fn lemma_u32_le_roundtrip(x: u32)
    ensures
        u32_from_le(u32_le(x)[0], u32_le(x)[1], u32_le(x)[2], u32_le(x)[3]) == x,
{
    let b0 = (x & 0xff) as u8;
    let b1 = ((x >> 8u32) & 0xff) as u8;
    let b2 = ((x >> 16u32) & 0xff) as u8;
    let b3 = ((x >> 24u32) & 0xff) as u8;
    assert((b0 as u32) | ((b1 as u32) << 8u32) | ((b2 as u32) << 16u32) | ((b3 as u32) << 24u32)
        == x) by (bit_vector)
        requires
            b0 == (x & 0xff) as u8,
            b1 == ((x >> 8u32) & 0xff) as u8,
            b2 == ((x >> 16u32) & 0xff) as u8,
            b3 == ((x >> 24u32) & 0xff) as u8,
    ;
}

proof fn lemma_quarter(x: int, k: int)
    requires
        0 <= k,
        4 * k <= x < 4 * k + 4,
    ensures
        x / 4 == k,
{
    vstd::arithmetic::div_mod::lemma_fundamental_div_mod_converse(x, 4, k, x - 4 * k);
}

proof fn lemma_quarter_lower(x: int, k: int)
    requires
        0 <= k,
        4 * k <= x,
    ensures
        k <= x / 4,
{
    vstd::arithmetic::div_mod::lemma_fundamental_div_mod(x, 4);
    vstd::arithmetic::div_mod::lemma_mod_bound(x, 4);
}

/// The bytes of a reply that reports `rounds` and `survivors` for batch
/// `batch_id`.
pub open spec fn reply_bytes(batch_id: u32, rounds: Seq<u32>, survivors: Seq<u32>) -> Seq<u8> {
    u32_le(batch_id) + u32_le(rounds.len() as u32) + u32s_le(rounds) + u32_le(
        survivors.len() as u32,
    ) + u32s_le(survivors)
}

proof fn lemma_u32s_le_bytes(s: Seq<u32>)
    ensures
        u32s_le(s).len() == 4 * s.len(),
        forall|k: int, j: int|
            0 <= k < s.len() && 0 <= j < 4 ==> #[trigger] u32s_le(s)[4 * k + j] == u32_le(s[k])[j],
    decreases s.len(),
{
    if s.len() > 0 {
        lemma_u32s_le_bytes(s.drop_last());
        let prev = u32s_le(s.drop_last());
        assert forall|k: int, j: int| 0 <= k < s.len() && 0 <= j < 4 implies #[trigger] u32s_le(
            s,
        )[4 * k + j] == u32_le(s[k])[j] by {
            if k < s.len() - 1 {
                assert(u32s_le(s)[4 * k + j] == prev[4 * k + j]);
                assert(s.drop_last()[k] == s[k]);
            } else {
                assert(u32s_le(s)[4 * k + j] == u32_le(s.last())[j]);
            }
        }
    }
}

/// Numbers written one after another little-endian are read back from
/// where they were written.
proof fn lemma_u32s_read_back(before: Seq<u8>, s: Seq<u32>, after: Seq<u8>)
    ensures
        u32s_at(before + u32s_le(s) + after, before.len() as int, s.len()) == s,
{
    lemma_u32s_le_bytes(s);
    let b = before + u32s_le(s) + after;
    let pos = before.len() as int;
    assert forall|k: int| 0 <= k < s.len() implies #[trigger] u32s_at(b, pos, s.len())[k]
        == s[k] by {
        let w = u32s_le(s);
        assert(w[4 * k + 0] == u32_le(s[k])[0]);
        assert(w[4 * k + 1] == u32_le(s[k])[1]);
        assert(w[4 * k + 2] == u32_le(s[k])[2]);
        assert(w[4 * k + 3] == u32_le(s[k])[3]);
        assert(b[pos + 4 * k] == w[4 * k + 0]);
        assert(b[pos + 4 * k + 1] == w[4 * k + 1]);
        assert(b[pos + 4 * k + 2] == w[4 * k + 2]);
        assert(b[pos + 4 * k + 3] == w[4 * k + 3]);
        lemma_u32_le_roundtrip(s[k]);
    }
    assert(u32s_at(b, pos, s.len()) == s);
}

/// Decoding the reply that reports `rounds` and `survivors` gives back
/// exactly those round counts and survivor indices.
pub proof fn lemma_reply_roundtrip(batch_id: u32, rounds: Seq<u32>, survivors: Seq<u32>)
    requires
        rounds.len() <= u32::MAX,
        survivors.len() <= u32::MAX,
    ensures
        reply_bytes(batch_id, rounds, survivors).len() >= 8,
        reply_rounds(reply_bytes(batch_id, rounds, survivors)) == rounds,
        reply_survivors(reply_bytes(batch_id, rounds, survivors)) == survivors,
{
    let b = reply_bytes(batch_id, rounds, survivors);
    lemma_u32s_le_bytes(rounds);
    lemma_u32s_le_bytes(survivors);
    let head = u32_le(batch_id) + u32_le(rounds.len() as u32);
    let mid = u32_le(survivors.len() as u32) + u32s_le(survivors);
    assert(b == head + u32s_le(rounds) + mid);
    lemma_u32s_read_back(head, rounds, mid);
    let nr = rounds.len() as u32;
    lemma_u32_le_roundtrip(nr);
    assert(u32_at(b, 4) == rounds.len());
    let n = rounds.len() as int;
    let ns = survivors.len() as int;
    assert(b.len() == 8 + 4 * n + 4 + 4 * ns);
    lemma_quarter_lower(b.len() - 8, n);
    assert(reply_rounds(b) == rounds);
    let pos = 8 + 4 * n;
    assert(reply_found_pos(b) == pos);
    let head2 = head + u32s_le(rounds) + u32_le(survivors.len() as u32);
    assert(b == head2 + u32s_le(survivors) + Seq::<u8>::empty());
    lemma_u32s_read_back(head2, survivors, Seq::<u8>::empty());
    let nsu = survivors.len() as u32;
    lemma_u32_le_roundtrip(nsu);
    assert(u32_at(b, pos) == survivors.len());
    lemma_quarter_lower(b.len() - (pos + 4), ns);
    assert(reply_survivors(b) == survivors);
}

/// The next batch id: one more, wrapping around after `u32::MAX`.
pub fn next_batch_id(id: u32) -> (r: u32)
    ensures
        r == (id + 1) % 0x1_0000_0000,
{
    id.wrapping_add(1)
}

/// An address with a `':'` is a TCP address (`host:port`); any other is the
/// path of a Unix socket.
pub fn is_tcp_address(addr: &str) -> (r: bool)
    ensures
        r == addr@.contains(':'),
{
    let chars = collect_chars(addr);
    let mut k: usize = 0;
    while k < chars.len()
        invariant
            chars@ == addr@,
            k <= chars@.len(),
            forall|j: int| 0 <= j < k ==> chars@[j] != ':',
        decreases chars@.len() - k,
    {
        if chars[k] == ':' {
            assert(chars@[k as int] == ':');
            return true;
        }
        k = k + 1;
    }
    false
}

fn push_u16_le(buf: &mut Vec<u8>, x: u16)
    ensures
        final(buf)@ == old(buf)@ + u16_le(x),
{
    buf.push((x & 0xff) as u8);
    buf.push(((x >> 8u16) & 0xff) as u8);
}

fn push_u32_le(buf: &mut Vec<u8>, x: u32)
    ensures
        final(buf)@ == old(buf)@ + u32_le(x),
{
    buf.push((x & 0xff) as u8);
    buf.push(((x >> 8u32) & 0xff) as u8);
    buf.push(((x >> 16u32) & 0xff) as u8);
    buf.push(((x >> 24u32) & 0xff) as u8);
}

fn push_u64_le(buf: &mut Vec<u8>, x: u64)
    ensures
        final(buf)@ == old(buf)@ + u64_le(x),
{
    buf.push((x & 0xff) as u8);
    buf.push(((x >> 8u64) & 0xff) as u8);
    buf.push(((x >> 16u64) & 0xff) as u8);
    buf.push(((x >> 24u64) & 0xff) as u8);
    buf.push(((x >> 32u64) & 0xff) as u8);
    buf.push(((x >> 40u64) & 0xff) as u8);
    buf.push(((x >> 48u64) & 0xff) as u8);
    buf.push(((x >> 56u64) & 0xff) as u8);
}

fn push_u64s_le(buf: &mut Vec<u8>, s: &[u64])
    ensures
        final(buf)@ == old(buf)@ + u64s_le(s@),
{
    let mut k: usize = 0;
    while k < s.len()
        invariant
            k <= s@.len(),
            buf@ == old(buf)@ + u64s_le(s@.take(k as int)),
        decreases s@.len() - k,
    {
        let ghost before = buf@;
        push_u64_le(buf, s[k]);
        proof {
            assert(s@.take(k + 1).drop_last() == s@.take(k as int));
            assert(s@.take(k + 1).last() == s@[k as int]);
            assert(buf@ == old(buf)@ + u64s_le(s@.take(k + 1)));
        }
        k = k + 1;
    }
    assert(s@.take(s@.len() as int) == s@);
}

fn push_u32s_le(buf: &mut Vec<u8>, s: &[u32])
    ensures
        final(buf)@ == old(buf)@ + u32s_le(s@),
{
    let mut k: usize = 0;
    while k < s.len()
        invariant
            k <= s@.len(),
            buf@ == old(buf)@ + u32s_le(s@.take(k as int)),
        decreases s@.len() - k,
    {
        push_u32_le(buf, s[k]);
        proof {
            assert(s@.take(k + 1).drop_last() == s@.take(k as int));
            assert(s@.take(k + 1).last() == s@[k as int]);
            assert(buf@ == old(buf)@ + u32s_le(s@.take(k + 1)));
        }
        k = k + 1;
    }
    assert(s@.take(s@.len() as int) == s@);
}

/// Append `limbs[0..lc]` little-endian, reading a missing limb as zero.
fn push_padded_limbs(buf: &mut Vec<u8>, limbs: &[u32], lc: usize)
    ensures
        final(buf)@ == old(buf)@ + u32s_le(padded_limbs(limbs@, lc as nat)),
{
    let mut i: usize = 0;
    while i < lc
        invariant
            i <= lc,
            buf@ == old(buf)@ + u32s_le(padded_limbs(limbs@, i as nat)),
        decreases lc - i,
    {
        let v = if i < limbs.len() {
            limbs[i]
        } else {
            0
        };
        push_u32_le(buf, v);
        proof {
            assert(padded_limbs(limbs@, (i + 1) as nat).drop_last() == padded_limbs(
                limbs@,
                i as nat,
            ));
            assert(padded_limbs(limbs@, (i + 1) as nat).last() == v);
        }
        i = i + 1;
    }
}

/// `bytemuck::cast_slice` from `u32` limbs to bytes, copied into a vector:
/// the limbs' own memory, four bytes per limb in order.  Within a limb the
/// bytes come in the machine's order, little-endian or big-endian; which of
/// the two is not stated, and on either machine every limb has the same.
#[verifier::external_body]
fn limbs_as_bytes(limbs: &[u32]) -> (bytes: Vec<u8>)
    ensures
        bytes@ == u32s_le(limbs@) || bytes@ == u32s_be(limbs@),
{
    bytemuck::cast_slice::<u32, u8>(limbs).to_vec()
}

/// The bytes of a plain batch request: the header (batch id, pattern length
/// as a byte, the pattern, limb count, candidate count), then the
/// pre-expanded candidate limbs, four bytes each in the machine's order
/// (the same order for every limb: little-endian or big-endian).
pub fn encode_batch_request(
    batch_id: u32,
    limbs: &[u32],
    pattern: &[u64],
    limb_count: u16,
    num_candidates: u32,
) -> (buf: Vec<u8>)
    ensures
        buf@ == batch_header(batch_id, pattern@, limb_count, num_candidates) + u32s_le(limbs@)
            || buf@ == batch_header(batch_id, pattern@, limb_count, num_candidates) + u32s_be(
            limbs@,
        ),
{
    let mut buf: Vec<u8> = Vec::new();
    push_u32_le(&mut buf, batch_id);
    buf.push((pattern.len() % 256) as u8);
    push_u64s_le(&mut buf, pattern);
    push_u16_le(&mut buf, limb_count);
    push_u32_le(&mut buf, num_candidates);
    let ghost header = buf@;
    assert(header == batch_header(batch_id, pattern@, limb_count, num_candidates));
    let mut bytes = limbs_as_bytes(limbs);
    let ghost tail = bytes@;
    buf.append(&mut bytes);
    assert(buf@ == header + tail);
    buf
}

/// The bytes of a compact batch request: the tag, batch id, pattern length
/// as a byte, the pattern, the limb count, the primorial and the first
/// candidate as `limb_count` limbs each (cut or zero-padded), the number of
/// sieve positions, then the positions themselves.
pub fn encode_compact_request(
    batch_id: u32,
    primorial_limbs: &[u32],
    first_cand_limbs: &[u32],
    f_values: &[u32],
    pattern: &[u64],
    limb_count: u16,
) -> (buf: Vec<u8>)
    ensures
        buf@ == compact_request(
            batch_id,
            primorial_limbs@,
            first_cand_limbs@,
            f_values@,
            pattern@,
            limb_count,
        ),
{
    let lc = limb_count as usize;
    let mut buf: Vec<u8> = Vec::new();
    buf.push(TAG_COMPACT);
    push_u32_le(&mut buf, batch_id);
    buf.push((pattern.len() % 256) as u8);
    push_u64s_le(&mut buf, pattern);
    push_u16_le(&mut buf, limb_count);
    push_padded_limbs(&mut buf, primorial_limbs, lc);
    push_padded_limbs(&mut buf, first_cand_limbs, lc);
    push_u32_le(&mut buf, #[verifier::truncate] (f_values.len() as u32));
    push_u32s_le(&mut buf, f_values);
    buf
}

/// The number stored little-endian at `b[pos..pos + 4]`.
pub fn read_u32_le(b: &[u8], pos: usize) -> (r: u32)
    requires
        pos + 4 <= b@.len(),
    ensures
        r == u32_at(b@, pos as int),
{
    (b[pos] as u32) | ((b[pos + 1] as u32) << 8u32) | ((b[pos + 2] as u32) << 16u32) | ((b[pos
        + 3] as u32) << 24u32)
}

/// Decode a batch reply: a batch id (skipped), the number of rounds, that
/// many round counts, the number of survivors, that many survivor indices;
/// lists that the reply cuts short are kept as far as they go.
pub fn decode_batch_result(resp: &[u8]) -> (r: Result<GpuBatchResult, GpuDecodeError>)
    ensures
        resp@.len() < 8 <==> r is Err,
        r matches Ok(res) ==> res.round_counts@ == reply_rounds(resp@)
            && res.survivor_indices@ == reply_survivors(resp@),
{
    let len = resp.len();
    if len < 8 {
        return Err(GpuDecodeError::ResponseTooShort);
    }
    let mut pos: usize = 4;
    let num_rounds = read_u32_le(resp, pos);
    pos = pos + 4;
    let ghost n_rounds = min_nat(num_rounds as nat, ((len - 8) / 4) as nat);
    let mut round_counts: Vec<u32> = Vec::new();
    let mut k: u32 = 0;
    while k < num_rounds
        invariant_except_break
            len == resp@.len(),
            8 <= len,
            num_rounds == u32_at(resp@, 4),
            n_rounds == min_nat(num_rounds as nat, ((len - 8) / 4) as nat),
            k <= num_rounds,
            pos == 8 + 4 * k,
            pos <= len,
            round_counts@ == u32s_at(resp@, 8, k as nat),
        ensures
            len == resp@.len(),
            8 <= len,
            pos == 8 + 4 * round_counts@.len(),
            pos <= len,
            round_counts@ == u32s_at(resp@, 8, n_rounds),
        decreases num_rounds - k,
    {
        if len - pos < 4 {
            proof {
                lemma_quarter(len - 8, k as int);
            }
            break;
        }
        let v = read_u32_le(resp, pos);
        round_counts.push(v);
        assert(round_counts@ == u32s_at(resp@, 8, (k + 1) as nat));
        pos = pos + 4;
        k = k + 1;
    }
    proof {
        if round_counts@.len() == num_rounds {
            lemma_quarter_lower(len - 8, num_rounds as int);
        }
        assert(round_counts@ == reply_rounds(resp@));
    }
    let mut survivor_indices: Vec<u32> = Vec::new();
    if len - pos >= 4 {
        let num_found = read_u32_le(resp, pos);
        let found_pos = pos + 4;
        let ghost n_found: nat = min_nat(num_found as nat, ((len - found_pos) / 4) as nat);
        let mut pos2 = found_pos;
        let mut k: u32 = 0;
        while k < num_found
            invariant_except_break
                len == resp@.len(),
                found_pos <= len,
                n_found == min_nat(num_found as nat, ((len - found_pos) / 4) as nat),
                k <= num_found,
                pos2 == found_pos + 4 * k,
                pos2 <= len,
                survivor_indices@ == u32s_at(resp@, found_pos as int, k as nat),
            ensures
                survivor_indices@ == u32s_at(resp@, found_pos as int, n_found),
            decreases num_found - k,
        {
            if len - pos2 < 4 {
                proof {
                    lemma_quarter(len - found_pos, k as int);
                }
                break;
            }
            let v = read_u32_le(resp, pos2);
            survivor_indices.push(v);
            assert(survivor_indices@ == u32s_at(resp@, found_pos as int, (k + 1) as nat));
            pos2 = pos2 + 4;
            k = k + 1;
        }
        proof {
            if survivor_indices@.len() == num_found {
                lemma_quarter_lower(len - found_pos, num_found as int);
            }
            assert(survivor_indices@ == reply_survivors(resp@));
        }
    } else {
        assert(survivor_indices@ == reply_survivors(resp@));
    }
    Ok(GpuBatchResult { round_counts, survivor_indices })
}

/// The number stored big-endian at `b[pos..pos + 4]`.
pub open spec fn u32_at_be(b: Seq<u8>, pos: int) -> u32 {
    u32_from_le(b[pos + 3], b[pos + 2], b[pos + 1], b[pos])
}

/// The number stored little-endian at `b[pos..pos + 2]`.
pub open spec fn u16_at(b: Seq<u8>, pos: int) -> int {
    b[pos] + 256 * b[pos + 1]
}

/// The number stored little-endian at `b[pos..pos + 8]`.
pub open spec fn u64_at(b: Seq<u8>, pos: int) -> int {
    u32_at(b, pos) + 0x1_0000_0000 * u32_at(b, pos + 4)
}

proof fn lemma_u32_at_le(before: Seq<u8>, x: u32, after: Seq<u8>)
    ensures
        u32_at(before + u32_le(x) + after, before.len() as int) == x,
{
    let b = before + u32_le(x) + after;
    let pos = before.len() as int;
    assert(b[pos] == u32_le(x)[0]);
    assert(b[pos + 1] == u32_le(x)[1]);
    assert(b[pos + 2] == u32_le(x)[2]);
    assert(b[pos + 3] == u32_le(x)[3]);
    lemma_u32_le_roundtrip(x);
}

proof fn lemma_u16_at_le(before: Seq<u8>, x: u16, after: Seq<u8>)
    ensures
        u16_at(before + u16_le(x) + after, before.len() as int) == x,
{
    let b = before + u16_le(x) + after;
    let pos = before.len() as int;
    let b0 = (x & 0xff) as u8;
    let b1 = ((x >> 8u16) & 0xff) as u8;
    assert(b[pos] == b0);
    assert(b[pos + 1] == b1);
    assert((b0 as u32) + 256 * (b1 as u32) == (x as u32)) by (bit_vector)
        requires
            b0 == (x & 0xff) as u8,
            b1 == ((x >> 8u16) & 0xff) as u8,
    ;
}

proof fn lemma_u64_le_value(x: u64)
    ensures
        u32_from_le(u64_le(x)[0], u64_le(x)[1], u64_le(x)[2], u64_le(x)[3]) + 0x1_0000_0000
            * u32_from_le(u64_le(x)[4], u64_le(x)[5], u64_le(x)[6], u64_le(x)[7]) == x,
{
    let b0 = (x & 0xff) as u8;
    let b1 = ((x >> 8u64) & 0xff) as u8;
    let b2 = ((x >> 16u64) & 0xff) as u8;
    let b3 = ((x >> 24u64) & 0xff) as u8;
    let b4 = ((x >> 32u64) & 0xff) as u8;
    let b5 = ((x >> 40u64) & 0xff) as u8;
    let b6 = ((x >> 48u64) & 0xff) as u8;
    let b7 = ((x >> 56u64) & 0xff) as u8;
    let lo = u32_from_le(b0, b1, b2, b3);
    let hi = u32_from_le(b4, b5, b6, b7);
    assert(lo == (x & 0xffff_ffff) as u32) by (bit_vector)
        requires
            b0 == (x & 0xff) as u8,
            b1 == ((x >> 8u64) & 0xff) as u8,
            b2 == ((x >> 16u64) & 0xff) as u8,
            b3 == ((x >> 24u64) & 0xff) as u8,
            lo == (b0 as u32) | ((b1 as u32) << 8u32) | ((b2 as u32) << 16u32) | ((b3 as u32)
                << 24u32),
    ;
    assert(hi == (x >> 32u64) as u32) by (bit_vector)
        requires
            b4 == ((x >> 32u64) & 0xff) as u8,
            b5 == ((x >> 40u64) & 0xff) as u8,
            b6 == ((x >> 48u64) & 0xff) as u8,
            b7 == ((x >> 56u64) & 0xff) as u8,
            hi == (b4 as u32) | ((b5 as u32) << 8u32) | ((b6 as u32) << 16u32) | ((b7 as u32)
                << 24u32),
    ;
    assert(((x & 0xffff_ffff) as u32) as u64 + 0x1_0000_0000u64 * (((x >> 32u64) as u32) as u64)
        == x) by (bit_vector);
}

proof fn lemma_u64s_le_bytes(s: Seq<u64>)
    ensures
        u64s_le(s).len() == 8 * s.len(),
        forall|k: int, j: int|
            0 <= k < s.len() && 0 <= j < 8 ==> #[trigger] u64s_le(s)[8 * k + j] == u64_le(s[k])[j],
    decreases s.len(),
{
    if s.len() > 0 {
        lemma_u64s_le_bytes(s.drop_last());
        let prev = u64s_le(s.drop_last());
        assert forall|k: int, j: int| 0 <= k < s.len() && 0 <= j < 8 implies #[trigger] u64s_le(
            s,
        )[8 * k + j] == u64_le(s[k])[j] by {
            if k < s.len() - 1 {
                assert(u64s_le(s)[8 * k + j] == prev[8 * k + j]);
                assert(s.drop_last()[k] == s[k]);
            } else {
                assert(u64s_le(s)[8 * k + j] == u64_le(s.last())[j]);
            }
        }
    }
}

proof fn lemma_u64s_at_le(before: Seq<u8>, s: Seq<u64>, after: Seq<u8>)
    ensures
        forall|a: int|
            0 <= a < s.len() ==> #[trigger] u64_at(before + u64s_le(s) + after, before.len() + 8 * a)
                == s[a],
{
    lemma_u64s_le_bytes(s);
    let b = before + u64s_le(s) + after;
    let pos = before.len() as int;
    let w = u64s_le(s);
    assert forall|a: int| 0 <= a < s.len() implies #[trigger] u64_at(b, pos + 8 * a) == s[a] by {
        assert forall|j: int| 0 <= j < 8 implies b[pos + 8 * a + j] == #[trigger] u64_le(s[a])[j] by {
            assert(w[8 * a + j] == u64_le(s[a])[j]);
        }
        assert(b[pos + 8 * a + 0] == u64_le(s[a])[0]);
        assert(b[pos + 8 * a + 1] == u64_le(s[a])[1]);
        assert(b[pos + 8 * a + 2] == u64_le(s[a])[2]);
        assert(b[pos + 8 * a + 3] == u64_le(s[a])[3]);
        assert(b[pos + 8 * a + 4] == u64_le(s[a])[4]);
        assert(b[pos + 8 * a + 5] == u64_le(s[a])[5]);
        assert(b[pos + 8 * a + 6] == u64_le(s[a])[6]);
        assert(b[pos + 8 * a + 7] == u64_le(s[a])[7]);
        lemma_u64_le_value(s[a]);
    }
}

proof fn lemma_u32s_at_le(before: Seq<u8>, s: Seq<u32>, after: Seq<u8>)
    ensures
        u32s_le(s).len() == 4 * s.len(),
        forall|k: int|
            0 <= k < s.len() ==> #[trigger] u32_at(before + u32s_le(s) + after, before.len() + 4 * k)
                == s[k],
{
    lemma_u32s_le_bytes(s);
    lemma_u32s_read_back(before, s, after);
    assert forall|k: int| 0 <= k < s.len() implies #[trigger] u32_at(
        before + u32s_le(s) + after,
        before.len() + 4 * k,
    ) == s[k] by {
        assert(u32s_at(before + u32s_le(s) + after, before.len() as int, s.len())[k] == s[k]);
    }
}

proof fn lemma_u32s_be_bytes(s: Seq<u32>)
    ensures
        u32s_be(s).len() == 4 * s.len(),
        forall|k: int, j: int|
            0 <= k < s.len() && 0 <= j < 4 ==> #[trigger] u32s_be(s)[4 * k + j] == u32_be(s[k])[j],
    decreases s.len(),
{
    if s.len() > 0 {
        lemma_u32s_be_bytes(s.drop_last());
        let prev = u32s_be(s.drop_last());
        assert forall|k: int, j: int| 0 <= k < s.len() && 0 <= j < 4 implies #[trigger] u32s_be(
            s,
        )[4 * k + j] == u32_be(s[k])[j] by {
            if k < s.len() - 1 {
                assert(u32s_be(s)[4 * k + j] == prev[4 * k + j]);
                assert(s.drop_last()[k] == s[k]);
            } else {
                assert(u32s_be(s)[4 * k + j] == u32_be(s.last())[j]);
            }
        }
    }
}

proof fn lemma_u32s_at_be(before: Seq<u8>, s: Seq<u32>, after: Seq<u8>)
    ensures
        u32s_be(s).len() == 4 * s.len(),
        forall|k: int|
            0 <= k < s.len() ==> #[trigger] u32_at_be(
                before + u32s_be(s) + after,
                before.len() + 4 * k,
            ) == s[k],
{
    lemma_u32s_be_bytes(s);
    let b = before + u32s_be(s) + after;
    let pos = before.len() as int;
    let w = u32s_be(s);
    assert forall|k: int| 0 <= k < s.len() implies #[trigger] u32_at_be(b, pos + 4 * k) == s[k] by {
        let x = s[k];
        assert(w[4 * k + 0] == u32_be(x)[0]);
        assert(w[4 * k + 1] == u32_be(x)[1]);
        assert(w[4 * k + 2] == u32_be(x)[2]);
        assert(w[4 * k + 3] == u32_be(x)[3]);
        assert(b[pos + 4 * k] == w[4 * k + 0]);
        assert(b[pos + 4 * k + 1] == w[4 * k + 1]);
        assert(b[pos + 4 * k + 2] == w[4 * k + 2]);
        assert(b[pos + 4 * k + 3] == w[4 * k + 3]);
        lemma_u32_le_roundtrip(x);
    }
}

/// Reading a plain batch request back field by field gives what was
/// encoded: the batch id at byte 0, the pattern length (as a byte) at 4, the
/// pattern elements at `5 + 8a`, the limb count at `5 + 8P`, the candidate
/// count at `7 + 8P` (`P` the pattern length), then the limbs from
/// `11 + 8P`, all in one byte order.
pub proof fn lemma_batch_request_fields(
    batch_id: u32,
    limbs: Seq<u32>,
    pattern: Seq<u64>,
    limb_count: u16,
    num_candidates: u32,
    buf: Seq<u8>,
)
    requires
        buf == batch_header(batch_id, pattern, limb_count, num_candidates) + u32s_le(limbs)
            || buf == batch_header(batch_id, pattern, limb_count, num_candidates) + u32s_be(limbs),
    ensures
        buf.len() == 11 + 8 * pattern.len() + 4 * limbs.len(),
        u32_at(buf, 0) == batch_id,
        buf[4] == pattern.len() % 256,
        forall|a: int| 0 <= a < pattern.len() ==> #[trigger] u64_at(buf, 5 + 8 * a) == pattern[a],
        u16_at(buf, (5 + 8 * pattern.len()) as int) == limb_count,
        u32_at(buf, (7 + 8 * pattern.len()) as int) == num_candidates,
        (forall|k: int|
            0 <= k < limbs.len() ==> #[trigger] u32_at(buf, 11 + 8 * pattern.len() + 4 * k)
                == limbs[k]) || (forall|k: int|
            0 <= k < limbs.len() ==> #[trigger] u32_at_be(buf, 11 + 8 * pattern.len() + 4 * k)
                == limbs[k]),
{
    let plen = pattern.len() as int;
    let id = u32_le(batch_id);
    let pl = seq![(pattern.len() % 256) as u8];
    let pat = u64s_le(pattern);
    let lc = u16_le(limb_count);
    let nc = u32_le(num_candidates);
    let header = batch_header(batch_id, pattern, limb_count, num_candidates);
    let tail = if buf == header + u32s_le(limbs) {
        u32s_le(limbs)
    } else {
        u32s_be(limbs)
    };
    lemma_u64s_le_bytes(pattern);
    lemma_u32s_le_bytes(limbs);
    lemma_u32s_be_bytes(limbs);
    assert(buf =~= id + (pl + pat + lc + nc + tail));
    lemma_u32_at_le(Seq::<u8>::empty(), batch_id, pl + pat + lc + nc + tail);
    assert(Seq::<u8>::empty() + id + (pl + pat + lc + nc + tail) =~= buf);
    assert(buf[4] == pl[0]);
    assert(buf =~= (id + pl) + pat + (lc + nc + tail));
    lemma_u64s_at_le(id + pl, pattern, lc + nc + tail);
    assert(buf =~= (id + pl + pat) + lc + (nc + tail));
    lemma_u16_at_le(id + pl + pat, limb_count, nc + tail);
    assert(buf =~= (id + pl + pat + lc) + nc + tail);
    lemma_u32_at_le(id + pl + pat + lc, num_candidates, tail);
    let head = id + pl + pat + lc + nc;
    assert(head.len() == 11 + 8 * plen);
    if buf == header + u32s_le(limbs) {
        assert(buf =~= head + u32s_le(limbs) + Seq::<u8>::empty());
        lemma_u32s_at_le(head, limbs, Seq::<u8>::empty());
    } else {
        assert(buf =~= head + u32s_be(limbs) + Seq::<u8>::empty());
        lemma_u32s_at_be(head, limbs, Seq::<u8>::empty());
    }
}

/// Reading a compact request back field by field gives what was encoded:
/// the tag at byte 0, the batch id at 1, the pattern length (as a byte) at
/// 5, the pattern elements at `6 + 8a`, the limb count `L` at `6 + 8P`, the
/// primorial and the first candidate as `L` limbs each (cut or padded with
/// zeros) from `8 + 8P`, the number of sieve positions at `8 + 8P + 8L`,
/// and exactly those positions after it.
pub proof fn lemma_compact_request_fields(
    batch_id: u32,
    primorial_limbs: Seq<u32>,
    first_cand_limbs: Seq<u32>,
    f_values: Seq<u32>,
    pattern: Seq<u64>,
    limb_count: u16,
)
    requires
        f_values.len() <= u32::MAX,
    ensures
        compact_request(batch_id, primorial_limbs, first_cand_limbs, f_values, pattern, limb_count).len()
            == 12 + 8 * pattern.len() + 8 * limb_count + 4 * f_values.len(),
        compact_request(batch_id, primorial_limbs, first_cand_limbs, f_values, pattern, limb_count)[0]
            == TAG_COMPACT,
        u32_at(
            compact_request(batch_id, primorial_limbs, first_cand_limbs, f_values, pattern, limb_count),
            1,
        ) == batch_id,
        compact_request(batch_id, primorial_limbs, first_cand_limbs, f_values, pattern, limb_count)[5]
            == pattern.len() % 256,
        forall|a: int|
            0 <= a < pattern.len() ==> #[trigger] u64_at(
                compact_request(
                    batch_id,
                    primorial_limbs,
                    first_cand_limbs,
                    f_values,
                    pattern,
                    limb_count,
                ),
                6 + 8 * a,
            ) == pattern[a],
        u16_at(
            compact_request(batch_id, primorial_limbs, first_cand_limbs, f_values, pattern, limb_count),
            (6 + 8 * pattern.len()) as int,
        ) == limb_count,
        forall|k: int|
            0 <= k < limb_count ==> #[trigger] u32_at(
                compact_request(
                    batch_id,
                    primorial_limbs,
                    first_cand_limbs,
                    f_values,
                    pattern,
                    limb_count,
                ),
                8 + 8 * pattern.len() + 4 * k,
            ) == if k < primorial_limbs.len() {
                primorial_limbs[k]
            } else {
                0u32
            },
        forall|k: int|
            0 <= k < limb_count ==> #[trigger] u32_at(
                compact_request(
                    batch_id,
                    primorial_limbs,
                    first_cand_limbs,
                    f_values,
                    pattern,
                    limb_count,
                ),
                8 + 8 * pattern.len() + 4 * limb_count + 4 * k,
            ) == if k < first_cand_limbs.len() {
                first_cand_limbs[k]
            } else {
                0u32
            },
        u32_at(
            compact_request(batch_id, primorial_limbs, first_cand_limbs, f_values, pattern, limb_count),
            8 + 8 * pattern.len() + 8 * limb_count,
        ) == f_values.len(),
        forall|k: int|
            0 <= k < f_values.len() ==> #[trigger] u32_at(
                compact_request(
                    batch_id,
                    primorial_limbs,
                    first_cand_limbs,
                    f_values,
                    pattern,
                    limb_count,
                ),
                12 + 8 * pattern.len() + 8 * limb_count + 4 * k,
            ) == f_values[k],
{
    let b = compact_request(
        batch_id,
        primorial_limbs,
        first_cand_limbs,
        f_values,
        pattern,
        limb_count,
    );
    let lcn = limb_count as nat;
    let tag = seq![TAG_COMPACT];
    let id = u32_le(batch_id);
    let pl = seq![(pattern.len() % 256) as u8];
    let pat = u64s_le(pattern);
    let lc = u16_le(limb_count);
    let pa = padded_limbs(primorial_limbs, lcn);
    let fa = padded_limbs(first_cand_limbs, lcn);
    let ta = u32s_le(pa);
    let tb = u32s_le(fa);
    let cnt = u32_le(f_values.len() as u32);
    let fv = u32s_le(f_values);
    lemma_u64s_le_bytes(pattern);
    lemma_u32s_le_bytes(pa);
    lemma_u32s_le_bytes(fa);
    lemma_u32s_le_bytes(f_values);
    assert(b =~= tag + id + (pl + pat + lc + ta + tb + cnt + fv));
    lemma_u32_at_le(tag, batch_id, pl + pat + lc + ta + tb + cnt + fv);
    assert(b[5] == pl[0]);
    assert(b =~= (tag + id + pl) + pat + (lc + ta + tb + cnt + fv));
    lemma_u64s_at_le(tag + id + pl, pattern, lc + ta + tb + cnt + fv);
    assert(b =~= (tag + id + pl + pat) + lc + (ta + tb + cnt + fv));
    lemma_u16_at_le(tag + id + pl + pat, limb_count, ta + tb + cnt + fv);
    let h1 = tag + id + pl + pat + lc;
    assert(h1.len() == 8 + 8 * pattern.len());
    assert(b =~= h1 + ta + (tb + cnt + fv));
    lemma_u32s_at_le(h1, pa, tb + cnt + fv);
    let h2 = h1 + ta;
    assert(b =~= h2 + tb + (cnt + fv));
    lemma_u32s_at_le(h2, fa, cnt + fv);
    let h3 = h2 + tb;
    assert(b =~= h3 + cnt + fv);
    lemma_u32_at_le(h3, f_values.len() as u32, fv);
    let h4 = h3 + cnt;
    assert(b =~= h4 + fv + Seq::<u8>::empty());
    lemma_u32s_at_le(h4, f_values, Seq::<u8>::empty());
}

} // verus!
