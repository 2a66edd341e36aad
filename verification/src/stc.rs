//! Syndrome coding of a message into the least significant bits of a cover.
use vstd::prelude::*;
use vstd::arithmetic::div_mod::{
    lemma_fundamental_div_mod,
    lemma_mod_add_multiples_vanish,
    lemma_small_mod,
};
use vstd::slice::slice_to_vec;
use crate::text::{decimal, push_decimal};
use vstd::arithmetic::power2::pow2;
use vstd::bits::{lemma_usize_pow2_no_overflow, lemma_usize_shl_is_mul};

verus! {

/// Bit `i` (0 = most significant) of byte `b`, as 0 or 1.
pub open spec fn bit_at(b: u8, i: int) -> u8 {
    (b >> ((7 - i) as u8)) & 1u8
}

/// The bits of `bytes`, most significant bit of each byte first.
pub open spec fn bits_of_bytes(bytes: Seq<u8>) -> Seq<u8> {
    Seq::new(bytes.len() * 8, |t: int| bit_at(bytes[t / 8], t % 8))
}

proof fn lemma_div_mod_8(i: int, s: int)
    requires
        0 <= i,
        0 <= s < 8,
    ensures
        (8 * i + s) / 8 == i,
        (8 * i + s) % 8 == s,
{
    assert((8 * i + s) / 8 == i && (8 * i + s) % 8 == s) by (nonlinear_arith)
        requires
            0 <= i,
            0 <= s < 8,
    ;
}

/// Converts bytes to bits, most significant bit first.
pub fn bytes_to_bits(bytes: &[u8]) -> (bits: Vec<u8>)
    requires
        bytes.len() * 8 <= usize::MAX,
    ensures
        bits@ == bits_of_bytes(bytes@),
{
    let mut bits: Vec<u8> = Vec::new();
    let mut i: usize = 0;
    while i < bytes.len()
        invariant
            i <= bytes.len(),
            bits.len() == 8 * i,
            forall|t: int| 0 <= t < 8 * i ==> #[trigger] bits@[t] == bit_at(bytes@[t / 8], t % 8),
        decreases bytes.len() - i,
    {
        let b = bytes[i];
        let mut s: usize = 0;
        while s < 8
            invariant
                i < bytes.len(),
                b == bytes@[i as int],
                s <= 8,
                bits.len() == 8 * i + s,
                forall|t: int| 0 <= t < 8 * i + s ==> #[trigger] bits@[t] == bit_at(bytes@[t / 8], t % 8),
            decreases 8 - s,
        {
            let shift: u8 = (7 - s) as u8;
            bits.push((b >> shift) & 1);
            proof {
                lemma_div_mod_8(i as int, s as int);
            }
            s = s + 1;
        }
        i = i + 1;
    }
    proof {
        assert(bits@ =~= bits_of_bytes(bytes@));
    }
    bits
}


/// The byte packed from `chunk` (at most 8 bits): bit `t` of the chunk is
/// shifted to position `7 - t` and the results are or-ed together.
pub open spec fn pack_chunk(chunk: Seq<u8>) -> u8
    decreases chunk.len(),
{
    if chunk.len() == 0 {
        0u8
    } else {
        pack_chunk(chunk.drop_last()) | (chunk.last() << ((7 - (chunk.len() - 1)) as u8))
    }
}

/// Number of bytes that `n` bits occupy (the last one possibly partial).
pub open spec fn n_chunks(n: nat) -> nat {
    if n % 8 == 0 { n / 8 } else { n / 8 + 1 }
}

/// The bits `8 * i ..` of `bits`, at most eight of them.
pub open spec fn chunk_of(bits: Seq<u8>, i: int) -> Seq<u8> {
    let end = if 8 * i + 8 <= bits.len() { 8 * i + 8 } else { bits.len() as int };
    bits.subrange(8 * i, end)
}

/// The bytes packed from `bits`, eight bits per byte, most significant bit first;
/// a final partial chunk fills the high bits of the last byte.
pub open spec fn bytes_of_bits(bits: Seq<u8>) -> Seq<u8> {
    Seq::new(n_chunks(bits.len()), |i: int| pack_chunk(chunk_of(bits, i)))
}

/// Converts bits to bytes (MSB first).
pub fn bits_to_bytes(bits: &[u8]) -> (bytes: Vec<u8>)
    ensures
        bytes@ == bytes_of_bits(bits@),
{
    let n = bits.len();
    let n_bytes: usize = if n % 8 == 0 { n / 8 } else { n / 8 + 1 };
    let mut bytes: Vec<u8> = Vec::new();
    let mut i: usize = 0;
    while i < n_bytes
        invariant
            n == bits.len(),
            n_bytes == n_chunks(n as nat),
            i <= n_bytes,
            bytes.len() == i,
            forall|q: int| 0 <= q < i ==> #[trigger] bytes@[q] == pack_chunk(chunk_of(bits@, q)),
        decreases n_bytes - i,
    {
        let start: usize = 8 * i;
        let end: usize = if n - start >= 8 { start + 8 } else { n };
        let mut acc: u8 = 0;
        let mut t: usize = 0;
        while t < end - start
            invariant
                n == bits.len(),
                start == 8 * i,
                start < end <= n,
                end - start <= 8,
                t <= end - start,
                acc == pack_chunk(bits@.subrange(start as int, (start + t) as int)),
            decreases end - start - t,
        {
            let b = bits[start + t];
            let shift: u8 = (7 - t) as u8;
            acc = acc | (b << shift);
            proof {
                let c = bits@.subrange(start as int, (start + t + 1) as int);
                assert(c.drop_last() =~= bits@.subrange(start as int, (start + t) as int));
            }
            t = t + 1;
        }
        proof {
            assert(bits@.subrange(start as int, (start + t) as int) =~= chunk_of(bits@, i as int));
        }
        bytes.push(acc);
        i = i + 1;
    }
    proof {
        assert(bytes@ =~= bytes_of_bits(bits@));
    }
    bytes
}


proof fn lemma_pack_step(c: Seq<u8>, t: int)
    requires
        0 <= t < c.len(),
    ensures
        pack_chunk(c.take(t + 1)) == pack_chunk(c.take(t)) | (c[t] << ((7 - t) as u8)),
{
    assert(c.take(t + 1).drop_last() =~= c.take(t));
}

/// A chunk of eight bits packs into the byte whose bit `7 - t` is the chunk's bit `t`.
proof fn lemma_pack_eight(c: Seq<u8>)
    requires
        c.len() == 8,
    ensures
        pack_chunk(c) == (c[0] << 7u8) | (c[1] << 6u8) | (c[2] << 5u8) | (c[3] << 4u8) | (c[4]
            << 3u8) | (c[5] << 2u8) | (c[6] << 1u8) | (c[7] << 0u8),
{
    assert(pack_chunk(c.take(0)) == 0u8);
    lemma_pack_step(c, 0);
    let a0 = c[0] << 7u8;
    assert(0u8 | a0 == a0) by (bit_vector);
    lemma_pack_step(c, 1);
    lemma_pack_step(c, 2);
    lemma_pack_step(c, 3);
    lemma_pack_step(c, 4);
    lemma_pack_step(c, 5);
    lemma_pack_step(c, 6);
    lemma_pack_step(c, 7);
    assert(c.take(8) =~= c);
}

proof fn lemma_byte_from_bits(b: u8)
    ensures
        b == (((b >> 7u8) & 1u8) << 7u8) | (((b >> 6u8) & 1u8) << 6u8) | (((b >> 5u8) & 1u8)
            << 5u8) | (((b >> 4u8) & 1u8) << 4u8) | (((b >> 3u8) & 1u8) << 3u8) | (((b >> 2u8)
            & 1u8) << 2u8) | (((b >> 1u8) & 1u8) << 1u8) | (((b >> 0u8) & 1u8) << 0u8),
{
    assert(b == (((b >> 7u8) & 1u8) << 7u8) | (((b >> 6u8) & 1u8) << 6u8) | (((b >> 5u8) & 1u8)
        << 5u8) | (((b >> 4u8) & 1u8) << 4u8) | (((b >> 3u8) & 1u8) << 3u8) | (((b >> 2u8)
        & 1u8) << 2u8) | (((b >> 1u8) & 1u8) << 1u8) | (((b >> 0u8) & 1u8) << 0u8))
        by (bit_vector);
}

/// Packing the bits of a message gives the message back: `bits_to_bytes`
/// undoes `bytes_to_bits`.
pub proof fn lemma_bytes_bits_roundtrip(bytes: Seq<u8>)
    ensures
        bytes_of_bits(bits_of_bytes(bytes)) == bytes,
{
    let bits = bits_of_bytes(bytes);
    assert(bits.len() % 8 == 0 && bits.len() / 8 == bytes.len()) by (nonlinear_arith)
        requires
            bits.len() == bytes.len() * 8,
    ;
    assert forall|i: int| 0 <= i < bytes.len() implies #[trigger] pack_chunk(chunk_of(bits, i))
        == bytes[i] by {
        let c = chunk_of(bits, i);
        assert(8 * i + 8 <= bits.len()) by (nonlinear_arith)
            requires
                bits.len() == bytes.len() * 8,
                0 <= i < bytes.len(),
        ;
        assert forall|t: int| 0 <= t < 8 implies #[trigger] c[t] == bit_at(bytes[i], t) by {
            lemma_div_mod_8(i, t);
        }
        lemma_pack_eight(c);
        lemma_byte_from_bits(bytes[i]);
    }
    assert(bytes_of_bits(bits) =~= bytes);
}


proof fn lemma_bits_from_byte(c0: u8, c1: u8, c2: u8, c3: u8, c4: u8, c5: u8, c6: u8, c7: u8)
    requires
        c0 <= 1 && c1 <= 1 && c2 <= 1 && c3 <= 1 && c4 <= 1 && c5 <= 1 && c6 <= 1 && c7 <= 1,
    ensures
        ({
            let x = (c0 << 7u8) | (c1 << 6u8) | (c2 << 5u8) | (c3 << 4u8) | (c4 << 3u8) | (c5
                << 2u8) | (c6 << 1u8) | (c7 << 0u8);
            &&& (x >> 7u8) & 1u8 == c0
            &&& (x >> 6u8) & 1u8 == c1
            &&& (x >> 5u8) & 1u8 == c2
            &&& (x >> 4u8) & 1u8 == c3
            &&& (x >> 3u8) & 1u8 == c4
            &&& (x >> 2u8) & 1u8 == c5
            &&& (x >> 1u8) & 1u8 == c6
            &&& (x >> 0u8) & 1u8 == c7
        }),
{
    assert({
        let x = (c0 << 7u8) | (c1 << 6u8) | (c2 << 5u8) | (c3 << 4u8) | (c4 << 3u8) | (c5 << 2u8)
            | (c6 << 1u8) | (c7 << 0u8);
        &&& (x >> 7u8) & 1u8 == c0
        &&& (x >> 6u8) & 1u8 == c1
        &&& (x >> 5u8) & 1u8 == c2
        &&& (x >> 4u8) & 1u8 == c3
        &&& (x >> 3u8) & 1u8 == c4
        &&& (x >> 2u8) & 1u8 == c5
        &&& (x >> 1u8) & 1u8 == c6
        &&& (x >> 0u8) & 1u8 == c7
    }) by (bit_vector)
        requires
            c0 <= 1 && c1 <= 1 && c2 <= 1 && c3 <= 1 && c4 <= 1 && c5 <= 1 && c6 <= 1 && c7 <= 1,
    ;
}

/// Unpacking packed bits gives the bits back: `bytes_to_bits` undoes
/// `bits_to_bytes` on whole bytes of bits that are each 0 or 1.
pub proof fn lemma_bits_bytes_roundtrip(bits: Seq<u8>)
    requires
        bits.len() % 8 == 0,
        forall|t: int| 0 <= t < bits.len() ==> #[trigger] bits[t] <= 1,
    ensures
        bits_of_bytes(bytes_of_bits(bits)) == bits,
{
    let bytes = bytes_of_bits(bits);
    let nb = bits.len() / 8;
    assert(bytes.len() * 8 == bits.len());
    assert forall|t: int| 0 <= t < bits.len() implies #[trigger] bits_of_bytes(bytes)[t] == bits[t] by {
        let i = t / 8;
        let r = t % 8;
        assert(t == 8 * i + r && 0 <= r < 8 && 0 <= i < nb && 8 * i + 8 <= bits.len()) by {
            vstd::arithmetic::div_mod::lemma_fundamental_div_mod(t, 8);
        }
        let c = chunk_of(bits, i);
        assert(c.len() == 8);
        lemma_pack_eight(c);
        lemma_bits_from_byte(c[0], c[1], c[2], c[3], c[4], c[5], c[6], c[7]);
        assert(c[r] == bits[t]);
    }
    assert(bits_of_bytes(bytes) =~= bits);
}

/// XOR of `bits[start]`, `bits[start + k]`, `bits[start + 2k]`, ... (the
/// members of the interleaved group that `start` belongs to, from `start` on).
pub open spec fn group_parity(bits: Seq<u8>, start: int, k: int) -> u8
    decreases bits.len() + k - start,
{
    if k <= 0 || start < 0 || start >= bits.len() {
        0u8
    } else {
        bits[start] ^ group_parity(bits, start + k, k)
    }
}

/// The message read out of `bits` for `k` message bits: bit `j` is the parity
/// of group `j = { j, j + k, j + 2k, ... }`.
pub open spec fn extracted_bits(bits: Seq<u8>, k: nat) -> Seq<u8> {
    Seq::new(k, |j: int| group_parity(bits, j, k as int))
}

proof fn lemma_xor_assoc(a: u8, b: u8, c: u8)
    ensures
        (a ^ b) ^ c == a ^ (b ^ c),
        a ^ 0u8 == a,
        0u8 ^ a == a,
{
    assert(0u8 ^ a == a) by (bit_vector);
    assert((a ^ b) ^ c == a ^ (b ^ c)) by (bit_vector);
    assert(a ^ 0u8 == a) by (bit_vector);
}

/// Computes the parity of the group of `bits` that starts at `j`, stride `k`.
fn parity_of_group(bits: &[u8], j: usize, k: usize) -> (parity: u8)
    requires
        0 < k,
    ensures
        parity == group_parity(bits@, j as int, k as int),
{
    let n = bits.len();
    let mut parity: u8 = 0;
    let mut idx = j;
    proof {
        lemma_xor_assoc(group_parity(bits@, j as int, k as int), 0u8, 0u8);
    }
    while idx < n
        invariant
            n == bits.len(),
            0 < k,
            parity ^ group_parity(bits@, idx as int, k as int) == group_parity(
                bits@,
                j as int,
                k as int,
            ),
        decreases n - idx,
    {
        proof {
            lemma_xor_assoc(parity, bits@[idx as int], group_parity(bits@, idx + k, k as int));
        }
        parity = parity ^ bits[idx];
        if n - idx <= k {
            idx = n;
        } else {
            idx = idx + k;
        }
    }
    proof {
        lemma_xor_assoc(parity, 0u8, 0u8);
    }
    parity
}

/// Decodes `k` message bits from the stego bits: bit `j` is the parity of the
/// bits at positions `j, j + k, j + 2k, ...` (the same groups the embedding used).
pub fn stc_extract(stego_bits: &[u8], k: usize, _params: &StcParams) -> (message: Vec<u8>)
    ensures
        message@ == extracted_bits(stego_bits@, k as nat),
{
    let mut message: Vec<u8> = Vec::new();
    let mut j: usize = 0;
    while j < k
        invariant
            j <= k,
            message.len() == j,
            forall|q: int| 0 <= q < j ==> #[trigger] message@[q] == group_parity(
                stego_bits@,
                q,
                k as int,
            ),
        decreases k - j,
    {
        let parity = parity_of_group(stego_bits, j, k);
        message.push(parity);
        j = j + 1;
    }
    proof {
        assert(message@ =~= extracted_bits(stego_bits@, k as nat));
    }
    message
}

/// Parameters of the syndrome code: the generator columns `h_hat` of the
/// parity-check matrix and the trellis height (log2 of the number of states).
pub struct StcParams {
    pub h_hat: Vec<u64>,
    pub h_height: usize,
}

/// The generator words that `StcParams::new` uses.
pub open spec fn standard_h_hat() -> Seq<u64> {
    seq![0b1011011u64, 0b1111001u64, 0b1010011u64]
}

/// Column `i` of the parity-check matrix as a bit mask: generator word
/// `i mod |h_hat|`, shifted left by `(i / |h_hat|) mod h` with the bits that
/// leave the top of the `h`-bit window brought back at the bottom, and masked to
/// the low `h` bits.
pub open spec fn h_column_value(h_hat: Seq<u64>, h: usize, i: usize) -> usize {
    let len = h_hat.len() as usize;
    let base = h_hat[(i % len) as int] as usize;
    let shift = ((i / len) % h) as usize;
    let mask = ((1usize << h) - 1) as usize;
    ((base << shift) | (base >> ((h - shift) as usize))) & mask
}

/// The trellis state after choosing bit `y` for coefficient `i` in `state`.
pub open spec fn next_state_value(h_hat: Seq<u64>, h: usize, state: usize, i: usize, y: u8) -> usize {
    if y == 0 {
        state
    } else {
        state ^ h_column_value(h_hat, h, i)
    }
}

impl StcParams {
    /// Parameters with the standard generator words and trellis height `h_height`.
    pub fn new(h_height: usize) -> (params: Self)
        ensures
            params.h_hat@ == standard_h_hat(),
            params.h_height == h_height,
    {
        let mut h_hat: Vec<u64> = Vec::new();
        h_hat.push(0b1011011u64);
        h_hat.push(0b1111001u64);
        h_hat.push(0b1010011u64);
        proof {
            assert(h_hat@ =~= standard_h_hat());
        }
        StcParams { h_hat, h_height }
    }

    /// Number of trellis states, `2^h_height`.
    pub fn num_states(&self) -> (n: usize)
        requires
            self.h_height < usize::BITS,
        ensures
            n as nat == pow2(self.h_height as nat),
    {
        proof {
            lemma_usize_pow2_no_overflow(self.h_height as nat);
            lemma_usize_shl_is_mul(1, self.h_height);
        }
        1usize << self.h_height
    }

    /// State transition when bit `y_bit` is chosen for coefficient `coeff_idx`:
    /// the state is unchanged for 0 and XOR-ed with column `coeff_idx` otherwise.
    pub fn next_state(&self, state: usize, coeff_idx: usize, y_bit: u8) -> (next: usize)
        requires
            y_bit != 0 ==> self.h_hat.len() > 0 && 0 < self.h_height < usize::BITS,
        ensures
            next == next_state_value(self.h_hat@, self.h_height, state, coeff_idx, y_bit),
    {
        if y_bit == 0 {
            state
        } else {
            let col = self.h_column(coeff_idx);
            state ^ col
        }
    }

    /// Column `i` of the parity-check matrix as a bit mask.
    fn h_column(&self, i: usize) -> (col: usize)
        requires
            self.h_hat.len() > 0,
            0 < self.h_height < usize::BITS,
        ensures
            col == h_column_value(self.h_hat@, self.h_height, i),
    {
        let len = self.h_hat.len();
        let base = self.h_hat[i % len] as usize;
        let shift = (i / len) % self.h_height;
        proof {
            lemma_usize_pow2_no_overflow(self.h_height as nat);
            lemma_usize_shl_is_mul(1, self.h_height);
        }
        let mask = (1usize << self.h_height) - 1;
        ((base << shift) | (base >> (self.h_height - shift))) & mask
    }
}

/// Every column of the parity-check matrix lies in `[0, 2^h)`, so a transition
/// from a state in `[0, 2^h)` stays in `[0, 2^h)`.
pub proof fn lemma_next_state_in_range(h_hat: Seq<u64>, h: usize, state: usize, i: usize, y: u8)
    requires
        h_hat.len() > 0,
        0 < h < usize::BITS,
        state < pow2(h as nat),
    ensures
        h_column_value(h_hat, h, i) < pow2(h as nat),
        next_state_value(h_hat, h, state, i, y) < pow2(h as nat),
{
    lemma_usize_pow2_no_overflow(h as nat);
    lemma_usize_shl_is_mul(1, h);
    let one_h = 1usize << h;
    let len = h_hat.len() as usize;
    let base = h_hat[(i % len) as int] as usize;
    let shift = ((i / len) % h) as usize;
    let x = (base << shift) | (base >> ((h - shift) as usize));
    let m = (one_h - 1) as usize;
    assert(x & m <= m) by (bit_vector);
    let c = x & m;
    assert(h < usize::BITS && state < (1usize << h) && c < (1usize << h) ==> (state ^ c) < (1usize << h))
        by (bit_vector);
}

/// Choosing bit 1 twice for the same coefficient returns to the starting state.
pub proof fn lemma_next_state_involution(h_hat: Seq<u64>, h: usize, state: usize, i: usize)
    ensures
        next_state_value(h_hat, h, next_state_value(h_hat, h, state, i, 1), i, 1) == state,
{
    let c = h_column_value(h_hat, h, i);
    assert((state ^ c) ^ c == state) by (bit_vector);
}


/// The cost that marks a coefficient as not to be changed: no flip is ever
/// placed on a position of this cost.
pub const INF_COST: u64 = 0xffff_ffff_ffff_ffffu64;

/// Errors of the syndrome coder.
#[derive(Clone, Copy, Debug, PartialEq, Eq, Structural)]
pub enum StcError {
    /// The message has more bits than the cover.
    PayloadTooLarge { payload: usize, capacity: usize },
    /// A group whose parity must change has no position of finite cost.
    EmbeddingFailed,
}

/// The text of an error of the syndrome coder.
pub open spec fn stc_error_text(e: StcError) -> Seq<char> {
    match e {
        StcError::PayloadTooLarge { payload, capacity } => "Payload ("@ + decimal(payload as nat)
            + " bit) supera capacità ("@ + decimal(capacity as nat) + " bit)"@,
        StcError::EmbeddingFailed => "STC embedding fallito: nessun percorso valido nel trellis"@,
    }
}

impl StcError {
    /// The error as text.
    pub fn describe(&self) -> (text: String)
        ensures
            text@ == stc_error_text(*self),
    {
        match self {
            StcError::PayloadTooLarge { payload, capacity } => {
                let mut text = String::from_str("Payload (");
                push_decimal(&mut text, *payload);
                text.append(" bit) supera capacità (");
                push_decimal(&mut text, *capacity);
                text.append(" bit)");
                text
            },
            StcError::EmbeddingFailed => String::from_str(
                "STC embedding fallito: nessun percorso valido nel trellis",
            ),
        }
    }
}

/// `p` is the position the coder flips in its group (stride `k`, first `n`
/// positions): the first position of least finite cost in the group.
pub open spec fn is_flip_choice(costs: Seq<u64>, n: int, k: int, p: int) -> bool {
    &&& 0 < k
    &&& 0 <= p < n
    &&& costs[p] < INF_COST
    &&& forall|i: int| 0 <= i < n && i % k == p % k ==> costs[p] <= #[trigger] costs[i]
    &&& forall|i: int| 0 <= i < p && i % k == p % k ==> costs[p] < #[trigger] costs[i]
}

/// The parity of group `j` of the cover differs from message bit `j`.
pub open spec fn group_mismatch(cover: Seq<u8>, msg: Seq<u8>, j: int) -> bool {
    group_parity(cover, j, msg.len() as int) != msg[j]
}

/// Group `j` must change its parity but every position of it has cost `INF_COST`.
pub open spec fn group_unfixable(cover: Seq<u8>, costs: Seq<u64>, msg: Seq<u8>, j: int) -> bool {
    &&& group_mismatch(cover, msg, j)
    &&& forall|i: int|
        0 <= i < cover.len() && i % (msg.len() as int) == j ==> #[trigger] costs[i] == INF_COST
}

/// Position `p` of the cover is flipped by the embedding.
pub open spec fn is_flipped(cover: Seq<u8>, costs: Seq<u64>, msg: Seq<u8>, p: int) -> bool {
    let k = msg.len() as int;
    &&& k > 0
    &&& group_mismatch(cover, msg, p % k)
    &&& is_flip_choice(costs, cover.len() as int, k, p)
}

/// The stego bits: the cover with the flip of each mismatching group applied.
pub open spec fn embedded_bits(cover: Seq<u8>, costs: Seq<u64>, msg: Seq<u8>) -> Seq<u8> {
    Seq::new(
        cover.len(),
        |p: int|
            if is_flipped(cover, costs, msg, p) {
                cover[p] ^ 1u8
            } else {
                cover[p]
            },
    )
}

/// What `stc_embed` returns for the given cover, costs and message bits.
pub open spec fn stc_embed_result(cover: Seq<u8>, costs: Seq<u64>, msg: Seq<u8>) -> Result<
    Seq<u8>,
    StcError,
> {
    if msg.len() > cover.len() {
        Err(StcError::PayloadTooLarge { payload: msg.len() as usize, capacity: cover.len() as usize })
    } else if exists|j: int| 0 <= j < msg.len() && #[trigger] group_unfixable(cover, costs, msg, j) {
        Err(StcError::EmbeddingFailed)
    } else {
        Ok(embedded_bits(cover, costs, msg))
    }
}

/// Group `j` (stride `k`, first `n` positions) has a position of finite cost.
pub open spec fn group_has_finite_cost(costs: Seq<u64>, n: int, k: int, j: int) -> bool {
    exists|i: int| 0 <= i < n && i % k == j && #[trigger] costs[i] < INF_COST
}

/// The coder refuses a message as too large exactly when it has more bits than
/// the cover, and succeeds on every message that fits when each group has a
/// position of finite cost.
pub proof fn lemma_stc_embed_succeeds(cover: Seq<u8>, costs: Seq<u64>, msg: Seq<u8>)
    ensures
        (stc_embed_result(cover, costs, msg) matches Err(StcError::PayloadTooLarge { payload, capacity }))
            <==> msg.len() > cover.len(),
        msg.len() <= cover.len() && (forall|j: int|
            0 <= j < msg.len() ==> #[trigger] group_has_finite_cost(
                costs,
                cover.len() as int,
                msg.len() as int,
                j,
            )) ==> stc_embed_result(cover, costs, msg) is Ok,
{
    let n = cover.len() as int;
    let k = msg.len() as int;
    if msg.len() <= cover.len() && (forall|j: int|
        0 <= j < msg.len() ==> #[trigger] group_has_finite_cost(costs, n, k, j)) {
        assert forall|j: int| 0 <= j < msg.len() implies !#[trigger] group_unfixable(
            cover,
            costs,
            msg,
            j,
        ) by {
            assert(group_has_finite_cost(costs, n, k, j));
            let i = choose|i: int| 0 <= i < n && i % k == j && #[trigger] costs[i] < INF_COST;
            assert(costs[i] != INF_COST);
        }
    }
}

/// Two positions of one group that lie less than a stride apart are equal.
proof fn lemma_same_group_apart(a: int, b: int, k: int)
    requires
        0 < k,
        0 <= a <= b < a + k,
        a % k == b % k,
    ensures
        a == b,
{
    lemma_fundamental_div_mod(a, k);
    lemma_fundamental_div_mod(b, k);
    let qa = a / k;
    let qb = b / k;
    assert(a == b) by (nonlinear_arith)
        requires
            0 < k,
            a <= b < a + k,
            a == k * qa + a % k,
            b == k * qb + b % k,
            a % k == b % k,
    ;
}

/// Embeds `message` bits into `cover_bits` by parity interleaving.
///
/// The positions are split into `k = message.len()` groups,
/// group `j = { j, j + k, j + 2k, ... }`. Where the parity of a group differs
/// from message bit `j`, the first position of least finite cost in the group
/// is flipped; a group with no position of finite cost makes the embedding fail.
pub fn stc_embed(cover_bits: &[u8], costs: &[u64], message: &[u8], _params: &StcParams) -> (r:
    Result<Vec<u8>, StcError>)
    requires
        message.len() == 0 || message.len() > cover_bits.len() || costs.len() >= cover_bits.len(),
    ensures
        match r {
            Ok(v) => stc_embed_result(cover_bits@, costs@, message@) == Ok::<Seq<u8>, StcError>(
                v@,
            ),
            Err(e) => stc_embed_result(cover_bits@, costs@, message@) == Err::<Seq<u8>, StcError>(
                e,
            ),
        },
        (r matches Err(StcError::PayloadTooLarge { payload, capacity })) <==> message.len()
            > cover_bits.len(),
        r matches Err(StcError::PayloadTooLarge { payload, capacity }) ==> payload == message.len()
            && capacity == cover_bits.len(),
        message.len() <= cover_bits.len() && (forall|j: int|
            0 <= j < message.len() ==> #[trigger] group_has_finite_cost(
                costs@,
                cover_bits.len() as int,
                message.len() as int,
                j,
            )) ==> r is Ok,
{
    proof {
        lemma_stc_embed_succeeds(cover_bits@, costs@, message@);
    }
    let n = cover_bits.len();
    let k = message.len();
    if k > n {
        return Err(StcError::PayloadTooLarge { payload: k, capacity: n });
    }
    let ghost cover = cover_bits@;
    let ghost cs = costs@;
    let ghost msg = message@;
    let mut stego_bits = slice_to_vec(cover_bits);
    let mut j: usize = 0;
    while j < k
        invariant
            n == cover.len(),
            cover == cover_bits@,
            cs == costs@,
            msg == message@,
            k == msg.len(),
            k <= n,
            k == 0 || cs.len() >= n,
            j <= k,
            stego_bits@ == Seq::new(
                n as nat,
                |p: int|
                    if p % (k as int) < j && is_flipped(cover, cs, msg, p) {
                        cover[p] ^ 1u8
                    } else {
                        cover[p]
                    },
            ),
            forall|q: int| 0 <= q < j ==> !#[trigger] group_unfixable(cover, cs, msg, q),
        decreases k - j,
    {
        let mut parity: u8 = 0;
        let mut min_cost: u64 = INF_COST;
        let mut min_idx: usize = j;
        let mut idx: usize = j;
        proof {
            lemma_xor_assoc(group_parity(cover, j as int, k as int), 0u8, 0u8);
            lemma_small_mod(j as nat, k as nat);
            assert forall|i: int| #![trigger cs[i]] 0 <= i < j implies i % (k as int) != j by {
                lemma_small_mod(i as nat, k as nat);
            }
        }
        while idx < n
            invariant
                n == cover.len(),
                cover == cover_bits@,
                cs == costs@,
                0 < k <= n,
                cs.len() >= n,
                j < k,
                j <= idx <= n,
                idx < n ==> idx % k == j,
                parity ^ group_parity(cover, idx as int, k as int) == group_parity(
                    cover,
                    j as int,
                    k as int,
                ),
                min_cost == INF_COST ==> forall|i: int|
                    0 <= i < idx && i % (k as int) == j ==> #[trigger] cs[i] == INF_COST,
                min_cost < INF_COST ==> {
                    &&& min_idx < idx
                    &&& min_idx % k == j
                    &&& cs[min_idx as int] == min_cost
                    &&& forall|i: int|
                        0 <= i < idx && i % (k as int) == j ==> min_cost <= #[trigger] cs[i]
                    &&& forall|i: int|
                        0 <= i < min_idx && i % (k as int) == j ==> min_cost < #[trigger] cs[i]
                },
            decreases n - idx,
        {
            proof {
                lemma_xor_assoc(parity, cover[idx as int], group_parity(cover, idx + k, k as int));
            }
            parity = parity ^ cover_bits[idx];
            if costs[idx] < min_cost {
                min_cost = costs[idx];
                min_idx = idx;
            }
            let ghost old_idx = idx;
            if n - idx <= k {
                idx = n;
            } else {
                idx = idx + k;
                proof {
                    lemma_mod_add_multiples_vanish(old_idx as int, k as int);
                }
            }
            proof {
                assert forall|i: int| #![trigger cs[i]] old_idx < i < idx && 0 <= i implies i % (k as int) != j by {
                    if i % (k as int) == j {
                        lemma_same_group_apart(old_idx as int, i, k as int);
                    }
                }
            }
        }
        proof {
            lemma_xor_assoc(parity, 0u8, 0u8);
        }
        if parity != message[j] {
            if min_cost == INF_COST {
                proof {
                    assert(group_unfixable(cover, cs, msg, j as int));
                    lemma_stc_embed_succeeds(cover, cs, msg);
                }
                return Err(StcError::EmbeddingFailed);
            }
            let ghost before = stego_bits@;
            let flipped = stego_bits[min_idx] ^ 1;
            stego_bits.set(min_idx, flipped);
            proof {
                assert(is_flip_choice(cs, n as int, k as int, min_idx as int));
                assert forall|p: int|
                    0 <= p < n && p % (k as int) == j && is_flipped(cover, cs, msg, p) implies p
                    == min_idx by {
                    if p < min_idx {
                    } else if min_idx < p {
                    }
                }
            }
        }
        proof {
            assert(!group_unfixable(cover, cs, msg, j as int));
            assert(stego_bits@ =~= Seq::new(
                n as nat,
                |p: int|
                    if p % (k as int) < j + 1 && is_flipped(cover, cs, msg, p) {
                        cover[p] ^ 1u8
                    } else {
                        cover[p]
                    },
            ));
        }
        j = j + 1;
    }
    proof {
        if k > 0 {
            assert forall|p: int| #![trigger cover[p]] 0 <= p < n implies p % (k as int) < k by {}
        }
        assert(stego_bits@ =~= embedded_bits(cover, cs, msg));
    }
    Ok(stego_bits)
}


/// The first position of least finite cost among the group members in
/// `[idx, n)`, given the best `(best, best_cost)` among those before `idx`.
proof fn lemma_flip_choice_from(
    costs: Seq<u64>,
    n: int,
    k: int,
    j: int,
    idx: int,
    best: int,
) -> (p: int)
    requires
        0 <= j < k,
        j <= idx,
        idx < n ==> idx % k == j,
        n <= costs.len(),
        0 <= best < n && best < idx && best % k == j && costs[best] < INF_COST,
        forall|i: int| 0 <= i < idx && i < n && i % k == j ==> costs[best] <= #[trigger] costs[i],
        forall|i: int| 0 <= i < best && i % k == j ==> costs[best] < #[trigger] costs[i],
    ensures
        is_flip_choice(costs, n, k, p),
        p % k == j,
    decreases n + k - idx,
{
    if idx >= n {
        best
    } else {
        lemma_mod_add_multiples_vanish(idx, k);
        assert forall|i: int| #![trigger costs[i]] idx < i < idx + k && 0 <= i implies i % k != j by {
            if i % k == j {
                lemma_same_group_apart(idx, i, k);
            }
        }
        if costs[idx] < costs[best] {
            lemma_flip_choice_from(costs, n, k, j, idx + k, idx)
        } else {
            lemma_flip_choice_from(costs, n, k, j, idx + k, best)
        }
    }
}

/// Scans group `j` from `idx` for the first position of finite cost.
proof fn lemma_flip_choice_exists(costs: Seq<u64>, n: int, k: int, j: int, idx: int, w: int) -> (p: int)
    requires
        0 <= j < k,
        j <= idx <= w < n,
        idx % k == j,
        w % k == j,
        n <= costs.len(),
        costs[w] < INF_COST,
        forall|i: int| 0 <= i < idx && i % k == j ==> #[trigger] costs[i] == INF_COST,
    ensures
        is_flip_choice(costs, n, k, p),
        p % k == j,
    decreases w - idx,
{
    lemma_mod_add_multiples_vanish(idx, k);
    assert forall|i: int| #![trigger costs[i]] idx < i < idx + k && 0 <= i implies i % k != j by {
        if i % k == j {
            lemma_same_group_apart(idx, i, k);
        }
    }
    if costs[idx] < INF_COST {
        lemma_flip_choice_from(costs, n, k, j, idx + k, idx)
    } else {
        if w < idx + k {
            lemma_same_group_apart(idx, w, k);
        }
        lemma_flip_choice_exists(costs, n, k, j, idx + k, w)
    }
}

/// The parity of a group changes by exactly the flips made inside it: `b`
/// agrees with `a` on the group from `start` on, except for `p` if `p` is a
/// member, where it is flipped.
proof fn lemma_parity_one_flip(a: Seq<u8>, b: Seq<u8>, start: int, k: int, p: int)
    requires
        0 < k,
        0 <= start,
        a.len() == b.len(),
        forall|i: int|
            start <= i < a.len() && i % k == start % k && i != p ==> #[trigger] a[i] == b[i],
        start <= p < a.len() && p % k == start % k ==> b[p] == a[p] ^ 1u8,
    ensures
        group_parity(b, start, k) == group_parity(a, start, k) ^ (if start <= p < a.len() && p % k
            == start % k {
            1u8
        } else {
            0u8
        }),
    decreases a.len() + k - start,
{
    if start >= a.len() {
        assert(0u8 ^ 0u8 == 0u8) by (bit_vector);
    } else {
        lemma_mod_add_multiples_vanish(start, k);
        lemma_parity_one_flip(a, b, start + k, k, p);
        let ga = group_parity(a, start + k, k);
        let x = a[start];
        if p == start {
            assert((x ^ 1u8) ^ (ga ^ 0u8) == (x ^ ga) ^ 1u8) by (bit_vector);
        } else if start < p < a.len() && p % k == start % k {
            if p < start + k {
                lemma_same_group_apart(start, p, k);
            }
            assert(x ^ (ga ^ 1u8) == (x ^ ga) ^ 1u8) by (bit_vector);
        } else {
            assert(x ^ (ga ^ 0u8) == (x ^ ga) ^ 0u8) by (bit_vector);
        }
    }
}

/// The parity of bits that are all 0 or 1 is 0 or 1.
proof fn lemma_parity_is_bit(a: Seq<u8>, start: int, k: int)
    requires
        forall|i: int| 0 <= i < a.len() ==> #[trigger] a[i] <= 1,
    ensures
        group_parity(a, start, k) <= 1,
    decreases a.len() + k - start,
{
    if k > 0 && 0 <= start < a.len() {
        lemma_parity_is_bit(a, start + k, k);
        let x = a[start];
        let g = group_parity(a, start + k, k);
        assert(x <= 1 && g <= 1 ==> x ^ g <= 1) by (bit_vector);
    }
}

/// Extraction recovers the message from the embedding: when every cover bit
/// and message bit is 0 or 1 and `stc_embed` succeeds, `stc_extract` of its
/// result with the message's length gives the message back.
pub proof fn lemma_stc_roundtrip(cover: Seq<u8>, costs: Seq<u64>, msg: Seq<u8>)
    requires
        forall|i: int| 0 <= i < cover.len() ==> #[trigger] cover[i] <= 1,
        forall|i: int| 0 <= i < msg.len() ==> #[trigger] msg[i] <= 1,
        msg.len() == 0 || costs.len() >= cover.len(),
        stc_embed_result(cover, costs, msg) is Ok,
    ensures
        extracted_bits(stc_embed_result(cover, costs, msg)->Ok_0, msg.len()) == msg,
{
    let n = cover.len() as int;
    let k = msg.len() as int;
    let s = embedded_bits(cover, costs, msg);
    assert forall|j: int| 0 <= j < k implies #[trigger] group_parity(s, j, k) == msg[j] by {
        lemma_small_mod(j as nat, k as nat);
        lemma_parity_is_bit(cover, j, k);
        let g = group_parity(cover, j, k);
        let m = msg[j];
        if group_mismatch(cover, msg, j) {
            assert(!group_unfixable(cover, costs, msg, j));
            let w = choose|w: int| 0 <= w < n && w % k == j && costs[w] != INF_COST;
            if w < j {
                lemma_small_mod(w as nat, k as nat);
            }
            assert(forall|i: int| 0 <= i < j && i % k == j ==> #[trigger] costs[i] == INF_COST) by {
                assert forall|i: int| 0 <= i < j implies #[trigger] (i % k) != j by {
                    lemma_small_mod(i as nat, k as nat);
                }
            }
            let p = lemma_flip_choice_exists(costs, n, k, j, j, w);
            assert forall|i: int|
                j <= i < n && i % k == j % k && i != p implies #[trigger] cover[i] == s[i] by {
                if is_flip_choice(costs, n, k, i) {
                    if i < p {
                    } else {
                    }
                }
            }
            lemma_parity_one_flip(cover, s, j, k, p);
            assert(g <= 1 && m <= 1 && g != m ==> g ^ 1u8 == m) by (bit_vector);
        } else {
            assert forall|i: int|
                j <= i < n && i % k == j % k && i != -1 implies #[trigger] cover[i] == s[i] by {}
            lemma_parity_one_flip(cover, s, j, k, -1);
            assert(g ^ 0u8 == g) by (bit_vector);
        }
    }
    assert(extracted_bits(s, msg.len()) =~= msg);
}

/// The embedding changes a bit only where the cost is finite and least in the
/// bit's group, and changes at most one bit per group.
pub proof fn lemma_stc_changes_minimal(cover: Seq<u8>, costs: Seq<u64>, msg: Seq<u8>)
    requires
        stc_embed_result(cover, costs, msg) is Ok,
    ensures
        ({
            let s = stc_embed_result(cover, costs, msg)->Ok_0;
            let k = msg.len() as int;
            &&& s.len() == cover.len()
            &&& forall|p: int|
                0 <= p < cover.len() && #[trigger] s[p] != cover[p] ==> {
                    &&& costs[p] < INF_COST
                    &&& forall|i: int|
                        0 <= i < cover.len() && i % k == p % k ==> costs[p] <= #[trigger] costs[i]
                }
            &&& forall|p: int, q: int|
                0 <= p < cover.len() && 0 <= q < cover.len() && #[trigger] s[p] != cover[p]
                    && #[trigger] s[q] != cover[q] && p % k == q % k ==> p == q
        }),
{
    let s = embedded_bits(cover, costs, msg);
    let k = msg.len() as int;
    assert forall|p: int, q: int|
        0 <= p < cover.len() && 0 <= q < cover.len() && #[trigger] s[p] != cover[p]
            && #[trigger] s[q] != cover[q] && p % k == q % k implies p == q by {
        if p < q {
        } else if q < p {
        }
    }
}

} // verus!
