//! The DCT coefficients of a JPEG image and the view of them that embedding uses.
use vstd::prelude::*;
use crate::stc::INF_COST;

verus! {

/// Quantized DCT coefficients of one image component, in 8x8 blocks of 64
/// coefficients stored block after block (row-major over blocks), with the
/// component's quantization table.
pub struct JpegDct {
    pub blocks: Vec<i16>,
    pub width_blocks: usize,
    pub height_blocks: usize,
    pub qt: Vec<u16>,
}

/// Magnitude of a coefficient.
pub open spec fn abs_i16(c: i16) -> int {
    if c < 0 {
        -(c as int)
    } else {
        c as int
    }
}

/// The bit that a coefficient carries: the parity of its magnitude.
pub open spec fn coeff_lsb(c: i16) -> u8 {
    (abs_i16(c) % 2) as u8
}

/// Coefficients that are never changed: 0 and +-1 (a change could turn them
/// into 0 or out of 0 and disturb the run-length structure).
pub open spec fn is_frozen(c: i16) -> bool {
    c == 0 || c == 1 || c == -1
}

/// The coefficient with the parity of its magnitude flipped and its sign kept;
/// 0 stays 0. (`i16::MIN`, whose flipped magnitude does not fit, becomes `i16::MAX`.)
pub open spec fn flip_coeff(c: i16) -> i16 {
    let m = abs_i16(c);
    let m2 = if m % 2 == 0 {
        m + 1
    } else {
        m - 1
    };
    if c > 0 {
        m2 as i16
    } else if c == 0 {
        0
    } else if c == i16::MIN {
        i16::MAX
    } else {
        (-m2) as i16
    }
}

/// Number of AC coefficients in the complete blocks of `len` coefficients.
pub open spec fn n_ac(len: nat) -> nat {
    (len / 64) * 63
}

/// Index, in the block array, of AC coefficient `p` (63 per block, the DC
/// coefficient at offset 0 of each block is skipped).
pub open spec fn ac_index(p: int) -> int {
    (p / 63) * 64 + p % 63 + 1
}

/// Position among the AC coefficients of the coefficient at index `i`
/// (`i % 64 != 0`).
pub open spec fn ac_position(i: int) -> int {
    (i / 64) * 63 + i % 64 - 1
}

/// The AC coefficients of the complete blocks, block after block.
pub open spec fn ac_coeffs(blocks: Seq<i16>) -> Seq<i16> {
    Seq::new(n_ac(blocks.len()), |p: int| blocks[ac_index(p)])
}

/// The bits the AC coefficients carry.
pub open spec fn ac_bits(blocks: Seq<i16>) -> Seq<u8> {
    Seq::new(n_ac(blocks.len()), |p: int| coeff_lsb(blocks[ac_index(p)]))
}

/// The cost of flipping each AC coefficient: `INF_COST` for a frozen one,
/// the given cost of its index otherwise.
pub open spec fn ac_costs(blocks: Seq<i16>, costs: Seq<u64>) -> Seq<u64> {
    Seq::new(
        n_ac(blocks.len()),
        |p: int|
            if is_frozen(blocks[ac_index(p)]) {
                INF_COST
            } else {
                costs[ac_index(p)]
            },
    )
}

/// Number of nonzero values in `s`.
pub open spec fn count_nonzero(s: Seq<i16>) -> nat
    decreases s.len(),
{
    if s.len() == 0 {
        0
    } else {
        count_nonzero(s.drop_last()) + if s.last() != 0 {
            1nat
        } else {
            0nat
        }
    }
}

/// The blocks after writing the stego bits `bits` into the AC coefficients:
/// a coefficient whose bit differs from its stego bit is flipped.
pub open spec fn applied_blocks(blocks: Seq<i16>, bits: Seq<u8>) -> Seq<i16> {
    Seq::new(
        blocks.len(),
        |i: int|
            if i < (blocks.len() / 64) * 64 && i % 64 != 0 && coeff_lsb(blocks[i])
                != bits[ac_position(i)] {
                flip_coeff(blocks[i])
            } else {
                blocks[i]
            },
    )
}

pub proof fn lemma_ac_index_position(b: int, t: int)
    requires
        0 <= b,
        0 <= t < 63,
    ensures
        ac_index(b * 63 + t) == b * 64 + t + 1,
        ac_position(b * 64 + t + 1) == b * 63 + t,
        (b * 64 + t + 1) % 64 != 0,
{
    assert((b * 63 + t) / 63 == b && (b * 63 + t) % 63 == t) by (nonlinear_arith)
        requires
            0 <= b,
            0 <= t < 63,
    ;
    assert((b * 64 + t + 1) / 64 == b && (b * 64 + t + 1) % 64 == t + 1) by (nonlinear_arith)
        requires
            0 <= b,
            0 <= t < 63,
    ;
}

/// AC positions and their indices in the block array correspond one to one.
pub proof fn lemma_ac_index_in_range(len: nat, p: int)
    requires
        0 <= p < n_ac(len),
    ensures
        0 <= ac_index(p) < (len / 64) * 64,
        ac_index(p) % 64 != 0,
        ac_position(ac_index(p)) == p,
{
    let b = p / 63;
    let t = p % 63;
    vstd::arithmetic::div_mod::lemma_fundamental_div_mod(p, 63);
    vstd::arithmetic::div_mod::lemma_mod_pos_bound(p, 63);
    vstd::arithmetic::div_mod::lemma_div_pos_is_pos(p, 63);
    assert(p == b * 63 + t && 0 <= t < 63 && 0 <= b);
    lemma_ac_index_position(b, t);
    assert(b * 64 + t + 1 < (len / 64) * 64) by (nonlinear_arith)
        requires
            p == b * 63 + t,
            0 <= t < 63,
            0 <= b,
            p < (len / 64) * 63,
    ;
}

/// The index of an AC coefficient of a complete block maps to an AC position.
pub proof fn lemma_ac_position_in_range(len: nat, i: int)
    requires
        0 <= i < (len / 64) * 64,
        i % 64 != 0,
    ensures
        0 <= ac_position(i) < n_ac(len),
        ac_index(ac_position(i)) == i,
{
    let b = i / 64;
    let r = i % 64;
    vstd::arithmetic::div_mod::lemma_fundamental_div_mod(i, 64);
    vstd::arithmetic::div_mod::lemma_mod_pos_bound(i, 64);
    vstd::arithmetic::div_mod::lemma_div_pos_is_pos(i, 64);
    assert(i == b * 64 + r && 1 <= r < 64 && 0 <= b);
    lemma_ac_index_position(b, r - 1);
    assert(b * 63 + r - 1 < (len / 64) * 63) by (nonlinear_arith)
        requires
            i == b * 64 + r,
            1 <= r < 64,
            0 <= b,
            i < (len / 64) * 64,
    ;
}

/// Counting nonzero values is additive over concatenation.
pub proof fn lemma_count_nonzero_concat(a: Seq<i16>, b: Seq<i16>)
    ensures
        count_nonzero(a + b) == count_nonzero(a) + count_nonzero(b),
    decreases b.len(),
{
    if b.len() == 0 {
        assert(a + b =~= a);
    } else {
        assert((a + b).drop_last() =~= a + b.drop_last());
        lemma_count_nonzero_concat(a, b.drop_last());
    }
}

/// A sequence with no zero has as many nonzero values as elements; one of only
/// zeros has none.
pub proof fn lemma_count_nonzero_extremes(s: Seq<i16>)
    ensures
        (forall|i: int| 0 <= i < s.len() ==> #[trigger] s[i] != 0) ==> count_nonzero(s) == s.len(),
        (forall|i: int| 0 <= i < s.len() ==> #[trigger] s[i] == 0) ==> count_nonzero(s) == 0,
        count_nonzero(s) <= s.len(),
    decreases s.len(),
{
    if s.len() > 0 {
        lemma_count_nonzero_extremes(s.drop_last());
    }
}

/// Appending one complete block to whole blocks appends its 63 AC coefficients
/// (offsets 1 to 63) to the AC coefficients.
pub proof fn lemma_ac_coeffs_append_block(blocks: Seq<i16>, block: Seq<i16>)
    requires
        blocks.len() % 64 == 0,
        block.len() == 64,
    ensures
        ac_coeffs(blocks + block) == ac_coeffs(blocks) + block.subrange(1, 64),
{
    let all = blocks + block;
    let len = blocks.len();
    let nb = len / 64;
    vstd::arithmetic::div_mod::lemma_fundamental_div_mod(len as int, 64);
    assert(len == nb * 64);
    assert((len + 64) / 64 == nb + 1);
    assert(n_ac(all.len()) == nb * 63 + 63);
    assert(n_ac(len) == nb * 63);
    let lhs = ac_coeffs(all);
    let rhs = ac_coeffs(blocks) + block.subrange(1, 64);
    assert forall|p: int| 0 <= p < lhs.len() implies #[trigger] lhs[p] == rhs[p] by {
        if p < nb * 63 {
            lemma_ac_index_in_range(len, p);
        } else {
            let t = p - nb * 63;
            lemma_ac_index_position(nb as int, t);
        }
    }
    assert(lhs =~= rhs);
}

/// The nonzero AC count is additive over blocks: appending a complete block adds
/// exactly the number of nonzero AC coefficients of that block.
pub proof fn lemma_nonzero_count_append_block(blocks: Seq<i16>, block: Seq<i16>)
    requires
        blocks.len() % 64 == 0,
        block.len() == 64,
    ensures
        count_nonzero(ac_coeffs(blocks + block)) == count_nonzero(ac_coeffs(blocks)) + count_nonzero(
            block.subrange(1, 64),
        ),
{
    lemma_ac_coeffs_append_block(blocks, block);
    lemma_count_nonzero_concat(ac_coeffs(blocks), block.subrange(1, 64));
}

/// `n` complete blocks with `m` nonzero AC coefficients each have `n * m`
/// nonzero AC coefficients.
pub proof fn lemma_nonzero_count_uniform(blocks: Seq<i16>, m: nat)
    requires
        blocks.len() % 64 == 0,
        forall|b: int|
            0 <= b < blocks.len() / 64 ==> #[trigger] count_nonzero(
                blocks.subrange(64 * b + 1, 64 * b + 64),
            ) == m,
    ensures
        count_nonzero(ac_coeffs(blocks)) == (blocks.len() / 64) * m,
    decreases blocks.len(),
{
    let len = blocks.len() as int;
    if len == 0 {
        assert(ac_coeffs(blocks).len() == 0);
    } else {
        let nb = len / 64;
        vstd::arithmetic::div_mod::lemma_fundamental_div_mod(len, 64);
        assert(len == nb * 64 && nb >= 1);
        let prefix = blocks.subrange(0, len - 64);
        let last = blocks.subrange(len - 64, len);
        assert(prefix + last =~= blocks);
        assert(prefix.len() == (nb - 1) * 64);
        assert(prefix.len() % 64 == 0 && prefix.len() / 64 == nb - 1) by {
            vstd::arithmetic::div_mod::lemma_mod_multiples_basic(nb - 1, 64);
            vstd::arithmetic::div_mod::lemma_div_multiples_vanish(nb - 1, 64);
        }
        assert forall|b: int| 0 <= b < prefix.len() / 64 implies #[trigger] count_nonzero(
            prefix.subrange(64 * b + 1, 64 * b + 64),
        ) == m by {
            assert(prefix.subrange(64 * b + 1, 64 * b + 64) =~= blocks.subrange(64 * b + 1, 64 * b + 64));
            assert(0 <= b < nb);
        }
        lemma_nonzero_count_uniform(prefix, m);
        assert(last.subrange(1, 64) =~= blocks.subrange(64 * (nb - 1) + 1, 64 * (nb - 1) + 64));
        assert(count_nonzero(blocks.subrange(64 * (nb - 1) + 1, 64 * (nb - 1) + 64)) == m);
        lemma_nonzero_count_append_block(prefix, last);
        assert((nb - 1) * m + m == nb * m) by (nonlinear_arith);
    }
}

/// With every AC coefficient of the complete blocks nonzero, the count is the
/// number of AC coefficients, 63 per complete block.
pub proof fn lemma_nonzero_count_all(blocks: Seq<i16>)
    requires
        forall|i: int|
            0 <= i < (blocks.len() / 64) * 64 && i % 64 != 0 ==> #[trigger] blocks[i] != 0,
    ensures
        count_nonzero(ac_coeffs(blocks)) == (blocks.len() / 64) * 63,
{
    let ac = ac_coeffs(blocks);
    assert forall|p: int| 0 <= p < ac.len() implies #[trigger] ac[p] != 0 by {
        lemma_ac_index_in_range(blocks.len(), p);
    }
    lemma_count_nonzero_extremes(ac);
}

/// Magnitude of a coefficient as `u16`.
fn magnitude(c: i16) -> (m: u16)
    ensures
        m as int == abs_i16(c),
{
    if c < 0 {
        (-(c as i32)) as u16
    } else {
        c as u16
    }
}

/// The bit a coefficient carries.
pub fn lsb_of(c: i16) -> (bit: u8)
    ensures
        bit == coeff_lsb(c),
        bit <= 1,
{
    let m = magnitude(c);
    assert((m & 1u16) == m % 2) by (bit_vector);
    (m & 1) as u8
}

/// Flips the parity of the coefficient's magnitude, keeping its sign.
pub fn flip_lsb(c: i16) -> (r: i16)
    ensures
        r == flip_coeff(c),
{
    if c > 0 {
        assert(c > 0 ==> (c ^ 1i16) == if c % 2 == 0 { c + 1 } else { c - 1 }) by (bit_vector);
        c ^ 1
    } else if c < 0 {
        let m = magnitude(c);
        let abs_new = (m ^ 1) as i16;
        assert(m ^ 1u16 == if m % 2 == 0 { m + 1 } else { m - 1 }) by (bit_vector);
        assert(m == 32768u16 ==> ((m ^ 1u16) as i16) == -32767i16) by (bit_vector);
        -abs_new
    } else {
        c
    }
}

} // verus!
