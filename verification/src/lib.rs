//! J-UNIWARD + STC steganography: the verified core.
//!
//! The message is embedded into the least significant bits of the magnitudes
//! of the AC DCT coefficients of a JPEG image by syndrome coding: the
//! coefficients are split into interleaved groups, one per message bit, and the
//! cheapest coefficient of each group whose parity is wrong is flipped.
pub mod jpeg;
pub mod stc;
pub mod text;
pub mod uniward;

use vstd::prelude::*;
use crate::jpeg::{
    abs_i16, ac_bits, ac_coeffs, ac_costs, ac_index, ac_position, applied_blocks, coeff_lsb,
    count_nonzero, flip_coeff, flip_lsb, is_frozen, lemma_ac_index_in_range, lemma_ac_index_position,
    lemma_ac_position_in_range, lsb_of, n_ac, JpegDct,
};
use crate::text::{decimal, push_decimal};
use crate::stc::{
    stc_error_text,
    bits_of_bytes, bits_to_bytes, bytes_of_bits, bytes_to_bits, embedded_bits, extracted_bits,
    lemma_bytes_bits_roundtrip, lemma_stc_roundtrip, stc_embed, stc_embed_result, stc_extract,
    INF_COST,
};
pub use crate::stc::{StcError, StcParams};

verus! {

/// Errors returned by the library.
#[derive(Debug)]
pub enum JuniwardError {
    /// The JPEG could not be decoded.
    InvalidJpeg(String),
    /// The message is too long for the cover image.
    PayloadTooLarge { payload_bits: usize, max_bits: usize },
    /// STC embedding failed.
    EmbeddingFailed(StcError),
}

/// The text of an error of the library.
pub open spec fn juniward_error_text(e: JuniwardError) -> Seq<char> {
    match e {
        JuniwardError::InvalidJpeg(s) => "Invalid JPEG: "@ + s@,
        JuniwardError::PayloadTooLarge { payload_bits, max_bits } => "Payload too large: "@
            + decimal(payload_bits as nat) + " bits requested, max safe payload is "@ + decimal(
            max_bits as nat,
        ) + " bits"@,
        JuniwardError::EmbeddingFailed(inner) => "Embedding failed: "@ + stc_error_text(inner),
    }
}

impl JuniwardError {
    /// The error as text.
    pub fn describe(&self) -> (text: String)
        ensures
            text@ == juniward_error_text(*self),
    {
        match self {
            JuniwardError::InvalidJpeg(s) => {
                let mut text = String::from_str("Invalid JPEG: ");
                text.append(s.as_str());
                text
            },
            JuniwardError::PayloadTooLarge { payload_bits, max_bits } => {
                let mut text = String::from_str("Payload too large: ");
                push_decimal(&mut text, *payload_bits);
                text.append(" bits requested, max safe payload is ");
                push_decimal(&mut text, *max_bits);
                text.append(" bits");
                text
            },
            JuniwardError::EmbeddingFailed(inner) => {
                let mut text = String::from_str("Embedding failed: ");
                let inner_text = inner.describe();
                text.append(inner_text.as_str());
                text
            },
        }
    }
}

impl From<StcError> for JuniwardError {
    fn from(e: StcError) -> (r: Self) {
        JuniwardError::EmbeddingFailed(e)
    }
}

impl vstd::std_specs::convert::FromSpecImpl<StcError> for JuniwardError {
    open spec fn obeys_from_spec() -> bool {
        true
    }

    open spec fn from_spec(v: StcError) -> Self {
        JuniwardError::EmbeddingFailed(v)
    }
}

proof fn lemma_block_bounds(b: int, len: int)
    requires
        0 <= b < len / 64,
        0 <= len,
    ensures
        b * 64 + 64 <= (len / 64) * 64 <= len,
        b * 63 + 63 <= (len / 64) * 63,
{
    vstd::arithmetic::div_mod::lemma_fundamental_div_mod(len, 64);
    vstd::arithmetic::div_mod::lemma_mod_pos_bound(len, 64);
    let nb = len / 64;
    assert(b * 64 + 64 <= nb * 64 && b * 63 + 63 <= nb * 63) by (nonlinear_arith)
        requires
            0 <= b < nb,
    ;
}

/// The bits carried by the AC coefficients of the complete blocks.
pub fn ac_lsbs(blocks: &[i16]) -> (bits: Vec<u8>)
    ensures
        bits@ == ac_bits(blocks@),
{
    let nb = blocks.len() / 64;
    let mut bits: Vec<u8> = Vec::new();
    let mut b: usize = 0;
    while b < nb
        invariant
            nb == blocks.len() / 64,
            b <= nb,
            bits.len() == b * 63,
            forall|p: int| 0 <= p < b * 63 ==> #[trigger] bits@[p] == coeff_lsb(blocks@[ac_index(p)]),
        decreases nb - b,
    {
        proof {
            lemma_block_bounds(b as int, blocks.len() as int);
        }
        let mut t: usize = 0;
        while t < 63
            invariant
                nb == blocks.len() / 64,
                b < nb,
                b * 64 + 64 <= blocks.len(),
                t <= 63,
                bits.len() == b * 63 + t,
                forall|p: int|
                    0 <= p < b * 63 + t ==> #[trigger] bits@[p] == coeff_lsb(blocks@[ac_index(p)]),
            decreases 63 - t,
        {
            let c = blocks[b * 64 + t + 1];
            proof {
                lemma_ac_index_position(b as int, t as int);
            }
            bits.push(lsb_of(c));
            t = t + 1;
        }
        b = b + 1;
    }
    proof {
        assert(bits@ =~= ac_bits(blocks@));
    }
    bits
}

/// The flip costs of the AC coefficients of the complete blocks: `INF_COST`
/// for 0 and +-1, the coefficient's own cost otherwise.
pub fn ac_cost_view(blocks: &[i16], costs: &[u64]) -> (view: Vec<u64>)
    requires
        costs.len() == blocks.len(),
    ensures
        view@ == ac_costs(blocks@, costs@),
{
    let nb = blocks.len() / 64;
    let mut view: Vec<u64> = Vec::new();
    let mut b: usize = 0;
    while b < nb
        invariant
            nb == blocks.len() / 64,
            costs.len() == blocks.len(),
            b <= nb,
            view.len() == b * 63,
            forall|p: int| 0 <= p < b * 63 ==> #[trigger] view@[p] == ac_costs(blocks@, costs@)[p],
        decreases nb - b,
    {
        proof {
            lemma_block_bounds(b as int, blocks.len() as int);
        }
        let mut t: usize = 0;
        while t < 63
            invariant
                nb == blocks.len() / 64,
                costs.len() == blocks.len(),
                b < nb,
                b * 64 + 64 <= blocks.len(),
                b * 63 + 63 <= n_ac(blocks.len() as nat),
                t <= 63,
                view.len() == b * 63 + t,
                forall|p: int|
                    0 <= p < b * 63 + t ==> #[trigger] view@[p] == ac_costs(blocks@, costs@)[p],
            decreases 63 - t,
        {
            let i = b * 64 + t + 1;
            let c = blocks[i];
            proof {
                lemma_ac_index_position(b as int, t as int);
            }
            if c == 0 || c == 1 || c == -1 {
                view.push(INF_COST);
            } else {
                view.push(costs[i]);
            }
            t = t + 1;
        }
        b = b + 1;
    }
    proof {
        assert(view@ =~= ac_costs(blocks@, costs@));
    }
    view
}

/// Number of nonzero AC coefficients in the complete blocks.
pub fn nonzero_ac_count(blocks: &[i16]) -> (count: usize)
    ensures
        count == count_nonzero(ac_coeffs(blocks@)),
{
    let nb = blocks.len() / 64;
    let ghost ac = ac_coeffs(blocks@);
    let mut count: usize = 0;
    let mut b: usize = 0;
    while b < nb
        invariant
            nb == blocks.len() / 64,
            ac == ac_coeffs(blocks@),
            b <= nb,
            count == count_nonzero(ac.take(b * 63)),
            count <= b * 63,
        decreases nb - b,
    {
        proof {
            lemma_block_bounds(b as int, blocks.len() as int);
        }
        let mut t: usize = 0;
        while t < 63
            invariant
                nb == blocks.len() / 64,
                ac == ac_coeffs(blocks@),
                b < nb,
                b * 64 + 64 <= blocks.len(),
                b * 63 + 63 <= ac.len(),
                t <= 63,
                count == count_nonzero(ac.take(b * 63 + t)),
                count <= b * 63 + t,
            decreases 63 - t,
        {
            let c = blocks[b * 64 + t + 1];
            proof {
                lemma_ac_index_position(b as int, t as int);
                assert(ac.take(b * 63 + t + 1).drop_last() =~= ac.take(b * 63 + t));
            }
            if c != 0 {
                count = count + 1;
            }
            t = t + 1;
        }
        b = b + 1;
    }
    proof {
        assert(ac.take(nb * 63) =~= ac);
    }
    count
}

/// Writes the stego bits into the AC coefficients: each AC coefficient of a
/// complete block whose bit differs from its stego bit gets its magnitude's
/// parity flipped (sign kept).
pub fn apply_stego_bits(blocks: &[i16], stego_bits: &[u8]) -> (stego: Vec<i16>)
    requires
        stego_bits.len() >= n_ac(blocks.len() as nat),
    ensures
        stego@ == applied_blocks(blocks@, stego_bits@),
{
    let nb = blocks.len() / 64;
    let mut stego = vstd::slice::slice_to_vec(blocks);
    let mut b: usize = 0;
    while b < nb
        invariant
            nb == blocks.len() / 64,
            stego_bits.len() >= n_ac(blocks.len() as nat),
            b <= nb,
            stego.len() == blocks.len(),
            forall|i: int|
                0 <= i < blocks.len() ==> #[trigger] stego@[i] == if i < b * 64 {
                    applied_blocks(blocks@, stego_bits@)[i]
                } else {
                    blocks@[i]
                },
        decreases nb - b,
    {
        proof {
            lemma_block_bounds(b as int, blocks.len() as int);
            vstd::arithmetic::div_mod::lemma_fundamental_div_mod(b * 64, 64);
            assert((b * 64) % 64 == 0) by (nonlinear_arith)
                requires
                    b >= 0,
            {
                vstd::arithmetic::div_mod::lemma_mod_multiples_basic(b as int, 64);
            }
        }
        let mut t: usize = 0;
        while t < 63
            invariant
                nb == blocks.len() / 64,
                stego_bits.len() >= n_ac(blocks.len() as nat),
                b < nb,
                b * 64 + 64 <= (blocks.len() / 64) * 64,
                b * 63 + 63 <= n_ac(blocks.len() as nat),
                (b * 64) % 64 == 0,
                t <= 63,
                stego.len() == blocks.len(),
                forall|i: int|
                    0 <= i < blocks.len() ==> #[trigger] stego@[i] == if i < b * 64 + t + 1 {
                        applied_blocks(blocks@, stego_bits@)[i]
                    } else {
                        blocks@[i]
                    },
            decreases 63 - t,
        {
            let i = b * 64 + t + 1;
            let p = b * 63 + t;
            proof {
                lemma_ac_index_position(b as int, t as int);
            }
            let coeff = stego[i];
            let orig_bit = lsb_of(coeff);
            let new_bit = stego_bits[p];
            if orig_bit != new_bit {
                let flipped = flip_lsb(coeff);
                stego.set(i, flipped);
            }
            t = t + 1;
        }
        b = b + 1;
    }
    proof {
        assert forall|i: int| 0 <= i < blocks.len() implies #[trigger] stego@[i]
            == applied_blocks(blocks@, stego_bits@)[i] by {
            if i >= nb * 64 {
            }
        }
        assert(stego@ =~= applied_blocks(blocks@, stego_bits@));
    }
    stego
}


/// What embedding `message` into the coefficients `blocks` returns, given the
/// cost of each coefficient and the largest number of message bits allowed.
pub open spec fn embed_result(blocks: Seq<i16>, costs: Seq<u64>, message: Seq<u8>, max_bits: usize) -> Result<
    Seq<i16>,
    JuniwardError,
> {
    let message_bits = bits_of_bytes(message);
    if message_bits.len() > max_bits {
        Err(
            JuniwardError::PayloadTooLarge {
                payload_bits: message_bits.len() as usize,
                max_bits: max_bits,
            },
        )
    } else {
        match stc_embed_result(ac_bits(blocks), ac_costs(blocks, costs), message_bits) {
            Ok(stego_bits) => Ok(applied_blocks(blocks, stego_bits)),
            Err(e) => Err(JuniwardError::EmbeddingFailed(e)),
        }
    }
}

/// The message of `message_len` bytes that extraction reads from `blocks`.
pub open spec fn extracted_message(blocks: Seq<i16>, message_len: nat) -> Seq<u8> {
    bytes_of_bits(extracted_bits(ac_bits(blocks), message_len * 8))
}

/// The capacity check: a message of more than `max_bits` bits (8 per byte) is
/// refused with `PayloadTooLarge` carrying its size in bits and `max_bits`, and
/// a message of at most `max_bits` bits is never refused as too large.
pub proof fn lemma_payload_check(blocks: Seq<i16>, costs: Seq<u64>, message: Seq<u8>, max_bits: usize)
    requires
        message.len() * 8 <= usize::MAX,
    ensures
        8 * message.len() > max_bits ==> embed_result(blocks, costs, message, max_bits) == Err::<
            Seq<i16>,
            JuniwardError,
        >(JuniwardError::PayloadTooLarge { payload_bits: (8 * message.len()) as usize, max_bits }),
        8 * message.len() <= max_bits ==> !(embed_result(blocks, costs, message, max_bits) matches Err(
            JuniwardError::PayloadTooLarge { .. },
        )),
        embed_result(blocks, costs, message, max_bits) is Ok ==> 8 * message.len() <= max_bits,
{
    assert(bits_of_bytes(message).len() == 8 * message.len());
}

/// Embeds `message` into the DCT coefficients of a cover and returns the stego
/// coefficients, with the syndrome code of `params`.
///
/// `costs` holds one cost per coefficient (same layout as the coefficients);
/// `max_bits` is the largest payload in bits that the cover may carry.
///
/// # Errors
/// - `JuniwardError::PayloadTooLarge` if the message has more than `max_bits` bits.
/// - `JuniwardError::EmbeddingFailed` if the syndrome coder fails.
pub fn embed_with_params(
    jpeg: &JpegDct,
    costs: &[u64],
    message: &[u8],
    max_bits: usize,
    params: &StcParams,
) -> (r: Result<Vec<i16>, JuniwardError>)
    requires
        costs.len() == jpeg.blocks.len(),
        message.len() * 8 <= usize::MAX,
    ensures
        match r {
            Ok(v) => embed_result(jpeg.blocks@, costs@, message@, max_bits) == Ok::<
                Seq<i16>,
                JuniwardError,
            >(v@),
            Err(e) => embed_result(jpeg.blocks@, costs@, message@, max_bits) == Err::<
                Seq<i16>,
                JuniwardError,
            >(e),
        },
        8 * message.len() > max_bits ==> (r matches Err(
            JuniwardError::PayloadTooLarge { payload_bits, max_bits: available },
        ) && payload_bits == 8 * message.len() && available == max_bits),
        r is Ok ==> 8 * message.len() <= max_bits,
{
    proof {
        lemma_payload_check(jpeg.blocks@, costs@, message@, max_bits);
    }
    let cover_bits = ac_lsbs(jpeg.blocks.as_slice());
    let ac_costs_view = ac_cost_view(jpeg.blocks.as_slice(), costs);
    let message_bits = bytes_to_bits(message);
    if message_bits.len() > max_bits {
        return Err(
            JuniwardError::PayloadTooLarge { payload_bits: message_bits.len(), max_bits: max_bits },
        );
    }
    match stc_embed(cover_bits.as_slice(), ac_costs_view.as_slice(), message_bits.as_slice(), params) {
        Ok(stego_bits) => {
            let stego_blocks = apply_stego_bits(jpeg.blocks.as_slice(), stego_bits.as_slice());
            Ok(stego_blocks)
        },
        Err(e) => Err(JuniwardError::from(e)),
    }
}

/// Same as `embed_with_params`, with the standard parameters of trellis
/// height `stc_h_height`.
pub fn embed(
    jpeg: &JpegDct,
    costs: &[u64],
    message: &[u8],
    max_bits: usize,
    stc_h_height: usize,
) -> (r: Result<Vec<i16>, JuniwardError>)
    requires
        costs.len() == jpeg.blocks.len(),
        message.len() * 8 <= usize::MAX,
    ensures
        match r {
            Ok(v) => embed_result(jpeg.blocks@, costs@, message@, max_bits) == Ok::<
                Seq<i16>,
                JuniwardError,
            >(v@),
            Err(e) => embed_result(jpeg.blocks@, costs@, message@, max_bits) == Err::<
                Seq<i16>,
                JuniwardError,
            >(e),
        },
        8 * message.len() > max_bits ==> (r matches Err(
            JuniwardError::PayloadTooLarge { payload_bits, max_bits: available },
        ) && payload_bits == 8 * message.len() && available == max_bits),
        r is Ok ==> 8 * message.len() <= max_bits,
{
    proof {
        lemma_payload_check(jpeg.blocks@, costs@, message@, max_bits);
    }
    let params = StcParams::new(stc_h_height);
    embed_with_params(jpeg, costs, message, max_bits, &params)
}

proof fn lemma_message_length(message_len: nat)
    ensures
        crate::stc::n_chunks(message_len * 8) == message_len,
{
    assert((message_len * 8) % 8 == 0 && (message_len * 8) / 8 == message_len) by (nonlinear_arith);
}

/// Extracts a hidden message of `message_len` bytes from the stego coefficients,
/// with the syndrome code of `params`. Sender and receiver must agree on
/// `message_len`.
pub fn extract_with_params(jpeg: &JpegDct, message_len: usize, params: &StcParams) -> (r: Result<
    Vec<u8>,
    JuniwardError,
>)
    requires
        message_len * 8 <= usize::MAX,
    ensures
        r matches Ok(v) && v@ == extracted_message(jpeg.blocks@, message_len as nat),
        r matches Ok(v) && v.len() == message_len,
{
    let stego_bits = ac_lsbs(jpeg.blocks.as_slice());
    let message_bits_len = message_len * 8;
    let recovered_bits = stc_extract(stego_bits.as_slice(), message_bits_len, params);
    let message = bits_to_bytes(recovered_bits.as_slice());
    proof {
        lemma_message_length(message_len as nat);
    }
    Ok(message)
}

/// Extracts a hidden message of `message_len` bytes from the stego
/// coefficients, with the standard parameters.
pub fn extract(jpeg: &JpegDct, message_len: usize) -> (r: Result<Vec<u8>, JuniwardError>)
    requires
        message_len * 8 <= usize::MAX,
    ensures
        r matches Ok(v) && v@ == extracted_message(jpeg.blocks@, message_len as nat),
        r matches Ok(v) && v.len() == message_len,
{
    extract_with_params(jpeg, message_len, &StcParams::new(7))
}


/// Flipping a coefficient that is not frozen changes the bit it carries.
proof fn lemma_flip_changes_bit(c: i16)
    requires
        !is_frozen(c),
    ensures
        coeff_lsb(flip_coeff(c)) == 1 - coeff_lsb(c),
{
}

/// The stego coefficients carry the stego bits wherever a flip was needed only
/// on coefficients that are not frozen.
proof fn lemma_applied_bits(blocks: Seq<i16>, bits: Seq<u8>)
    requires
        bits.len() == n_ac(blocks.len()),
        forall|p: int| 0 <= p < bits.len() ==> #[trigger] bits[p] <= 1,
        forall|p: int|
            0 <= p < bits.len() && #[trigger] bits[p] != coeff_lsb(blocks[ac_index(p)]) ==> !is_frozen(
                blocks[ac_index(p)],
            ),
    ensures
        ac_bits(applied_blocks(blocks, bits)) == bits,
{
    let stego = applied_blocks(blocks, bits);
    assert forall|p: int| 0 <= p < bits.len() implies #[trigger] ac_bits(stego)[p] == bits[p] by {
        lemma_ac_index_in_range(blocks.len(), p);
        let c = blocks[ac_index(p)];
        if coeff_lsb(c) != bits[p] {
            lemma_flip_changes_bit(c);
        }
    }
    assert(ac_bits(stego) =~= bits);
}

/// Extraction recovers what embedding hid: when embedding `message` into
/// `blocks` succeeds, extracting `message.len()` bytes from the stego
/// coefficients gives `message` back.
pub proof fn lemma_embed_extract_roundtrip(
    blocks: Seq<i16>,
    costs: Seq<u64>,
    message: Seq<u8>,
    max_bits: usize,
)
    requires
        costs.len() == blocks.len(),
        embed_result(blocks, costs, message, max_bits) is Ok,
    ensures
        extracted_message(embed_result(blocks, costs, message, max_bits)->Ok_0, message.len())
            == message,
{
    let cover = ac_bits(blocks);
    let ac_c = ac_costs(blocks, costs);
    let mbits = bits_of_bytes(message);
    assert forall|i: int| 0 <= i < cover.len() implies #[trigger] cover[i] <= 1 by {}
    assert forall|i: int| 0 <= i < mbits.len() implies #[trigger] mbits[i] <= 1 by {
        let b = message[i / 8];
        let sh = (7 - i % 8) as u8;
        assert((b >> sh) & 1u8 <= 1u8) by (bit_vector);
    }
    lemma_stc_roundtrip(cover, ac_c, mbits);
    let sbits = embedded_bits(cover, ac_c, mbits);
    assert forall|p: int| 0 <= p < sbits.len() implies #[trigger] sbits[p] <= 1 by {
        let x = cover[p];
        assert(x <= 1 ==> x ^ 1u8 <= 1) by (bit_vector);
    }
    assert forall|p: int|
        0 <= p < sbits.len() && #[trigger] sbits[p] != coeff_lsb(
            blocks[ac_index(p)],
        ) implies !is_frozen(blocks[ac_index(p)]) by {
        assert(ac_c[p] < INF_COST);
    }
    lemma_applied_bits(blocks, sbits);
    lemma_bytes_bits_roundtrip(message);
}

/// Embedding never changes a DC coefficient, a coefficient equal to 0, 1 or -1,
/// or a coefficient outside the complete blocks; a coefficient it changes has
/// the parity of its magnitude flipped and its sign kept.
pub proof fn lemma_embed_changes(blocks: Seq<i16>, costs: Seq<u64>, message: Seq<u8>, max_bits: usize)
    requires
        costs.len() == blocks.len(),
        embed_result(blocks, costs, message, max_bits) is Ok,
    ensures
        ({
            let stego = embed_result(blocks, costs, message, max_bits)->Ok_0;
            &&& stego.len() == blocks.len()
            &&& forall|i: int|
                0 <= i < blocks.len() && (i % 64 == 0 || i >= (blocks.len() / 64) * 64 || is_frozen(
                    blocks[i],
                )) ==> #[trigger] stego[i] == blocks[i]
            &&& forall|i: int|
                0 <= i < blocks.len() && #[trigger] stego[i] != blocks[i] ==> stego[i] == flip_coeff(
                    blocks[i],
                )
        }),
{
    let cover = ac_bits(blocks);
    let ac_c = ac_costs(blocks, costs);
    let mbits = bits_of_bytes(message);
    let sbits = embedded_bits(cover, ac_c, mbits);
    let stego = applied_blocks(blocks, sbits);
    assert forall|i: int|
        0 <= i < blocks.len() && (i % 64 == 0 || i >= (blocks.len() / 64) * 64 || is_frozen(
            blocks[i],
        )) implies #[trigger] stego[i] == blocks[i] by {
        if i < (blocks.len() / 64) * 64 && i % 64 != 0 && is_frozen(blocks[i]) {
            lemma_ac_position_in_range(blocks.len(), i);
            let p = ac_position(i);
            assert(ac_c[p] == INF_COST);
        }
    }
}

/// Flipping a coefficient other than 0, +-1 and `i16::MIN` changes its magnitude
/// by one, keeps its sign, and keeps it away from 0 and +-1.
pub proof fn lemma_flip_coeff_small(c: i16)
    requires
        !is_frozen(c),
        c != i16::MIN,
    ensures
        abs_i16(flip_coeff(c)) == abs_i16(c) + 1 || abs_i16(flip_coeff(c)) == abs_i16(c) - 1,
        (flip_coeff(c) > 0) == (c > 0),
        !is_frozen(flip_coeff(c)),
{
}

} // verus!
