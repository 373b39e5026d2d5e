//! Gen-6 party-slot encryption for ORAS.
//!
//! A party slot is stored scrambled: the four 56-byte data blocks after the
//! 8-byte header are XOR-ed with a stream from a linear congruential
//! generator seeded by the personality value (PV), and their order is
//! permuted by the shuffle value derived from the PV. The 22 stats bytes are
//! XOR-ed with a stream restarted from the PV.
//!
//! The functions here work on the 254-byte concatenation
//! `slot[0..232] + slot[344..366]` (or, in the 260-byte layout,
//! `slot[0..254]`): header, four blocks, then the stats.
use vstd::prelude::*;

use crate::bytes::{spec_u32_le, u32_from_le};

verus! {

/// Size of one data block.
pub const BLOCK_SIZE: usize = 56;

/// End of the plaintext header (PV and sanity word).
pub const HEADER_END: usize = 8;

/// End of the four shuffled data blocks.
pub const BLOCKS_END: usize = HEADER_END + 4 * BLOCK_SIZE;

/// Length of the concatenated slot that is decrypted as a whole.
pub const SLOT_CONCAT_LEN: usize = 254;

/// Multiplier of the encryption stream's generator.
pub const LCG_MUL: u32 = 0x41C6_4E6D;

/// Increment of the encryption stream's generator.
pub const LCG_ADD: u32 = 0x0000_6073;

/// Row `cb` of the block-position table: entry `sv` is the position at which
/// canonical block `cb` sits in the scrambled order for shuffle value `sv`.
pub open spec fn block_position_row(cb: int) -> Seq<u8> {
    if cb == 0 {
        seq![0u8, 0, 0, 0, 0, 0, 1, 1, 2, 3, 2, 3, 1, 1, 2, 3, 2, 3, 1, 1, 2, 3, 2, 3]
    } else if cb == 1 {
        seq![1u8, 1, 2, 3, 2, 3, 0, 0, 0, 0, 0, 0, 2, 3, 1, 1, 3, 2, 2, 3, 1, 1, 3, 2]
    } else if cb == 2 {
        seq![2u8, 3, 1, 1, 3, 2, 2, 3, 1, 1, 3, 2, 0, 0, 0, 0, 0, 0, 3, 2, 3, 2, 1, 1]
    } else {
        seq![3u8, 2, 3, 2, 1, 1, 3, 2, 3, 2, 1, 1, 3, 2, 3, 2, 1, 1, 0, 0, 0, 0, 0, 0]
    }
}

/// Scrambled position of canonical block `cb` under shuffle value `sv`.
pub open spec fn block_position(cb: int, sv: int) -> int {
    block_position_row(cb)[sv] as int
}

/// Canonical block stored at scrambled position `sb` under shuffle value `sv`.
pub open spec fn canonical_block_at(sb: int, sv: int) -> int {
    if block_position(0, sv) == sb {
        0
    } else if block_position(1, sv) == sb {
        1
    } else if block_position(2, sv) == sb {
        2
    } else {
        3
    }
}

/// Shuffle value of a personality value.
pub open spec fn spec_shuffle_value(pv: u32) -> int {
    (((pv >> 13u32) & 0x1F) % 24) as int
}

/// One step of the encryption stream's generator (arithmetic modulo 2^32).
#[verifier::opaque]
pub open spec fn lcg_next(seed: u32) -> u32 {
    vstd::wrapping::u32_specs::wrapping_add(
        vstd::wrapping::u32_specs::wrapping_mul(seed, LCG_MUL),
        LCG_ADD,
    )
}

/// Generator state after `n` steps from seed `pv`.
pub open spec fn lcg_seed(pv: u32, n: nat) -> u32
    decreases n,
{
    if n == 0 {
        pv
    } else {
        lcg_next(lcg_seed(pv, (n - 1) as nat))
    }
}

/// Byte `j` of the key stream started at `pv`: each generator step yields
/// two bytes, bits 16..24 then bits 24..32 of the new state.
#[verifier::opaque]
pub open spec fn keystream_byte(pv: u32, j: nat) -> u8 {
    let seed = lcg_seed(pv, j / 2 + 1);
    if j % 2 == 0 {
        ((seed >> 16u32) & 0xFF) as u8
    } else {
        ((seed >> 24u32) & 0xFF) as u8
    }
}

/// `data` with the byte range `[start, end)` XOR-ed with the key stream
/// started at `pv` (stream byte 0 at `start`).
pub open spec fn xor_keystream(data: Seq<u8>, pv: u32, start: int, end: int) -> Seq<u8> {
    Seq::new(
        data.len(),
        |i: int|
            if start <= i < end {
                data[i] ^ keystream_byte(pv, (i - start) as nat)
            } else {
                data[i]
            },
    )
}

/// Both XOR layers of a slot: the blocks and the stats, each with a stream
/// restarted from `pv`.
pub open spec fn xor_layers(data: Seq<u8>, pv: u32) -> Seq<u8> {
    xor_keystream(
        xor_keystream(data, pv, HEADER_END as int, BLOCKS_END as int),
        pv,
        BLOCKS_END as int,
        SLOT_CONCAT_LEN as int,
    )
}

/// Scrambled order to canonical order: canonical block `cb` is taken from
/// scrambled position `block_position(cb, sv)`.
pub open spec fn unshuffle(buf: Seq<u8>, sv: int) -> Seq<u8> {
    Seq::new(
        buf.len(),
        |i: int|
            if HEADER_END <= i < BLOCKS_END {
                buf[HEADER_END + block_position((i - HEADER_END) / BLOCK_SIZE as int, sv)
                    * BLOCK_SIZE + (i - HEADER_END) % BLOCK_SIZE as int]
            } else {
                buf[i]
            },
    )
}

/// Canonical order to scrambled order: scrambled position `sb` receives the
/// canonical block `canonical_block_at(sb, sv)`.
pub open spec fn shuffle(plain: Seq<u8>, sv: int) -> Seq<u8> {
    Seq::new(
        plain.len(),
        |i: int|
            if HEADER_END <= i < BLOCKS_END {
                plain[HEADER_END + canonical_block_at((i - HEADER_END) / BLOCK_SIZE as int, sv)
                    * BLOCK_SIZE + (i - HEADER_END) % BLOCK_SIZE as int]
            } else {
                plain[i]
            },
    )
}

/// Personality value of a slot: its first four bytes, little endian.
pub open spec fn slot_pv(s: Seq<u8>) -> u32 {
    spec_u32_le(s[0], s[1], s[2], s[3])
}

/// The plaintext of an encrypted concatenated slot.
pub open spec fn spec_decrypt(slot: Seq<u8>) -> Seq<u8> {
    unshuffle(xor_layers(slot, slot_pv(slot)), spec_shuffle_value(slot_pv(slot)))
}

/// The on-wire form of a plaintext concatenated slot.
pub open spec fn spec_encrypt(plain: Seq<u8>) -> Seq<u8> {
    xor_layers(shuffle(plain, spec_shuffle_value(slot_pv(plain))), slot_pv(plain))
}

/// Computes the shuffle value from the personality value.
pub fn shuffle_value(pv: u32) -> (sv: usize)
    ensures
        sv as int == spec_shuffle_value(pv),
        sv < 24,
{
    (((pv >> 13u32) & 0x1F) % 24) as usize
}

/// Scrambled position of canonical block `cb` under shuffle value `sv`.
fn block_position_of(cb: usize, sv: usize) -> (p: usize)
    requires
        cb < 4,
        sv < 24,
    ensures
        p as int == block_position(cb as int, sv as int),
        p < 4,
{
    let row: [u8; 24] = if cb == 0 {
        [0, 0, 0, 0, 0, 0, 1, 1, 2, 3, 2, 3, 1, 1, 2, 3, 2, 3, 1, 1, 2, 3, 2, 3]
    } else if cb == 1 {
        [1, 1, 2, 3, 2, 3, 0, 0, 0, 0, 0, 0, 2, 3, 1, 1, 3, 2, 2, 3, 1, 1, 3, 2]
    } else if cb == 2 {
        [2, 3, 1, 1, 3, 2, 2, 3, 1, 1, 3, 2, 0, 0, 0, 0, 0, 0, 3, 2, 3, 2, 1, 1]
    } else {
        [3, 2, 3, 2, 1, 1, 3, 2, 3, 2, 1, 1, 3, 2, 3, 2, 1, 1, 0, 0, 0, 0, 0, 0]
    };
    assert(row@ =~= block_position_row(cb as int));
    proof {
        lemma_block_position_is_permutation(sv as int);
    }
    row[sv] as usize
}

/// For every shuffle value the block-position table maps the four canonical
/// blocks to four distinct positions in `0..4`.
pub proof fn lemma_block_position_is_permutation(sv: int)
    requires
        0 <= sv < 24,
    ensures
        forall|cb: int| 0 <= cb < 4 ==> 0 <= #[trigger] block_position(cb, sv) < 4,
        forall|a: int, b: int|
            0 <= a < 4 && 0 <= b < 4 && a != b ==> #[trigger] block_position(a, sv)
                != #[trigger] block_position(b, sv),
        forall|cb: int| 0 <= cb < 4 ==> #[trigger] canonical_block_at(block_position(cb, sv), sv) == cb,
        forall|sb: int|
            0 <= sb < 4 ==> 0 <= #[trigger] canonical_block_at(sb, sv) < 4 && block_position(
                canonical_block_at(sb, sv),
                sv,
            ) == sb,
{
}

/// Advances the encryption stream's generator by one step.
fn lcg_step(seed: u32) -> (next: u32)
    ensures
        next == lcg_next(seed),
{
    proof {
        reveal(lcg_next);
    }
    seed.wrapping_mul(LCG_MUL).wrapping_add(LCG_ADD)
}

/// XORs the byte range `[start, end)` with a key stream freshly started from `pv`.
fn xor_lcg(data: &mut [u8; SLOT_CONCAT_LEN], pv: u32, start: usize, end: usize)
    requires
        start <= end <= SLOT_CONCAT_LEN,
    ensures
        final(data)@ == xor_keystream(old(data)@, pv, start as int, end as int),
{
    let ghost orig = data@;
    let mut seed = pv;
    let mut i = start;
    let ghost mut m: nat = 0;
    while i < end
        invariant
            start <= i <= end + 1,
            end <= SLOT_CONCAT_LEN,
            i == start + 2 * m,
            seed == lcg_seed(pv, m),
            data@.len() == SLOT_CONCAT_LEN,
            orig.len() == SLOT_CONCAT_LEN,
            forall|k: int|
                0 <= k < SLOT_CONCAT_LEN ==> #[trigger] data@[k] == (if start <= k < i && k < end {
                    orig[k] ^ keystream_byte(pv, (k - start) as nat)
                } else {
                    orig[k]
                }),
        decreases end + 1 - i,
    {
        seed = lcg_step(seed);
        proof {
            assert(seed == lcg_seed(pv, m + 1));
            assert(keystream_byte(pv, 2 * m) == ((seed >> 16u32) & 0xFF) as u8) by {
                reveal(keystream_byte);
                assert((2 * m) / 2 == m && (2 * m) % 2 == 0);
            }
            assert(keystream_byte(pv, 2 * m + 1) == ((seed >> 24u32) & 0xFF) as u8) by {
                reveal(keystream_byte);
                assert((2 * m + 1) / 2 == m && (2 * m + 1) % 2 == 1);
            }
        }
        let lo = data[i] ^ ((seed >> 16u32) & 0xFF) as u8;
        data[i] = lo;
        if i + 1 < end {
            let hi = data[i + 1] ^ ((seed >> 24u32) & 0xFF) as u8;
            data[i + 1] = hi;
        }
        i += 2;
        proof {
            m = m + 1;
        }
    }
    assert(data@ =~= xor_keystream(orig, pv, start as int, end as int));
}

/// Reorders the four data blocks from scrambled to canonical order.
fn unshuffle_blocks(buf: &[u8; SLOT_CONCAT_LEN], sv: usize) -> (out: [u8; SLOT_CONCAT_LEN])
    requires
        sv < 24,
    ensures
        out@ == unshuffle(buf@, sv as int),
{
    let mut out = *buf;
    let mut cb: usize = 0;
    while cb < 4
        invariant
            cb <= 4,
            sv < 24,
            out@.len() == SLOT_CONCAT_LEN,
            buf@.len() == SLOT_CONCAT_LEN,
            forall|b: int, off: int|
                0 <= b < cb && 0 <= off < BLOCK_SIZE ==> #[trigger] out@[HEADER_END + b
                    * BLOCK_SIZE + off] == buf@[HEADER_END + block_position(b, sv as int)
                    * BLOCK_SIZE + off],
            forall|k: int|
                0 <= k < SLOT_CONCAT_LEN && !(HEADER_END <= k < HEADER_END + cb * BLOCK_SIZE)
                    ==> #[trigger] out@[k] == buf@[k],
        decreases 4 - cb,
    {
        let sp = block_position_of(cb, sv);
        let src = HEADER_END + sp * BLOCK_SIZE;
        let dst = HEADER_END + cb * BLOCK_SIZE;
        let mut off: usize = 0;
        while off < BLOCK_SIZE
            invariant
                cb < 4,
                sp < 4,
                sp as int == block_position(cb as int, sv as int),
                src == HEADER_END + sp * BLOCK_SIZE,
                dst == HEADER_END + cb * BLOCK_SIZE,
                off <= BLOCK_SIZE,
                out@.len() == SLOT_CONCAT_LEN,
                buf@.len() == SLOT_CONCAT_LEN,
                forall|b: int, o: int|
                    0 <= b < cb && 0 <= o < BLOCK_SIZE ==> #[trigger] out@[HEADER_END + b
                        * BLOCK_SIZE + o] == buf@[HEADER_END + block_position(b, sv as int)
                        * BLOCK_SIZE + o],
                forall|o: int| 0 <= o < off ==> #[trigger] out@[dst + o] == buf@[src + o],
                forall|k: int|
                    0 <= k < SLOT_CONCAT_LEN && !(HEADER_END <= k < dst + off) ==> #[trigger] out@[k]
                        == buf@[k],
            decreases BLOCK_SIZE - off,
        {
            let v = buf[src + off];
            out[dst + off] = v;
            off += 1;
        }
        proof {
            assert forall|b: int, o: int|
                0 <= b < cb + 1 && 0 <= o < BLOCK_SIZE implies #[trigger] out@[HEADER_END + b
                * BLOCK_SIZE + o] == buf@[HEADER_END + block_position(b, sv as int) * BLOCK_SIZE
                + o] by {
                if b == cb {
                    assert(out@[dst + o] == buf@[src + o]);
                }
            }
        }
        cb += 1;
    }
    proof {
        assert forall|i: int| 0 <= i < SLOT_CONCAT_LEN implies #[trigger] out@[i] == unshuffle(
            buf@,
            sv as int,
        )[i] by {
            if HEADER_END <= i < BLOCKS_END {
                let b = (i - HEADER_END) / BLOCK_SIZE as int;
                let o = (i - HEADER_END) % BLOCK_SIZE as int;
                assert(i == HEADER_END + b * BLOCK_SIZE + o);
                assert(0 <= b < 4);
            }
        }
        assert(out@ =~= unshuffle(buf@, sv as int));
    }
    out
}

/// Reorders the four data blocks from canonical to scrambled order.
fn shuffle_blocks(plain: &[u8; SLOT_CONCAT_LEN], sv: usize) -> (out: [u8; SLOT_CONCAT_LEN])
    requires
        sv < 24,
    ensures
        out@ == shuffle(plain@, sv as int),
{
    proof {
        lemma_block_position_is_permutation(sv as int);
    }
    let mut out = *plain;
    let mut cb: usize = 0;
    while cb < 4
        invariant
            cb <= 4,
            sv < 24,
            out@.len() == SLOT_CONCAT_LEN,
            plain@.len() == SLOT_CONCAT_LEN,
            forall|b: int, off: int|
                0 <= b < cb && 0 <= off < BLOCK_SIZE ==> #[trigger] out@[HEADER_END
                    + block_position(b, sv as int) * BLOCK_SIZE + off] == plain@[HEADER_END + b
                    * BLOCK_SIZE + off],
            forall|k: int|
                0 <= k < SLOT_CONCAT_LEN && !(HEADER_END <= k < BLOCKS_END) ==> #[trigger] out@[k]
                    == plain@[k],
            forall|sb: int, off: int|
                0 <= sb < 4 && 0 <= off < BLOCK_SIZE && canonical_block_at(sb, sv as int) >= cb
                    ==> #[trigger] out@[HEADER_END + sb * BLOCK_SIZE + off] == plain@[HEADER_END
                    + sb * BLOCK_SIZE + off],
        decreases 4 - cb,
    {
        let sp = block_position_of(cb, sv);
        let src = HEADER_END + cb * BLOCK_SIZE;
        let dst = HEADER_END + sp * BLOCK_SIZE;
        let mut off: usize = 0;
        while off < BLOCK_SIZE
            invariant
                cb < 4,
                sv < 24,
                sp < 4,
                sp as int == block_position(cb as int, sv as int),
                src == HEADER_END + cb * BLOCK_SIZE,
                dst == HEADER_END + sp * BLOCK_SIZE,
                off <= BLOCK_SIZE,
                out@.len() == SLOT_CONCAT_LEN,
                plain@.len() == SLOT_CONCAT_LEN,
                forall|b: int, o: int|
                    0 <= b < cb && 0 <= o < BLOCK_SIZE ==> #[trigger] out@[HEADER_END
                        + block_position(b, sv as int) * BLOCK_SIZE + o] == plain@[HEADER_END + b
                        * BLOCK_SIZE + o],
                forall|o: int| 0 <= o < off ==> #[trigger] out@[dst + o] == plain@[src + o],
                forall|k: int|
                    0 <= k < SLOT_CONCAT_LEN && !(HEADER_END <= k < BLOCKS_END) ==> #[trigger] out@[k]
                        == plain@[k],
                forall|sb: int, o: int|
                    0 <= sb < 4 && 0 <= o < BLOCK_SIZE && canonical_block_at(sb, sv as int) > cb
                        ==> #[trigger] out@[HEADER_END + sb * BLOCK_SIZE + o] == plain@[HEADER_END
                        + sb * BLOCK_SIZE + o],
            decreases BLOCK_SIZE - off,
        {
            let v = plain[src + off];
            out[dst + off] = v;
            off += 1;
        }
        proof {
            assert forall|b: int, o: int|
                0 <= b < cb + 1 && 0 <= o < BLOCK_SIZE implies #[trigger] out@[HEADER_END
                + block_position(b, sv as int) * BLOCK_SIZE + o] == plain@[HEADER_END + b
                * BLOCK_SIZE + o] by {
                if b == cb {
                    assert(out@[dst + o] == plain@[src + o]);
                }
            }
        }
        cb += 1;
    }
    proof {
        assert forall|i: int| 0 <= i < SLOT_CONCAT_LEN implies #[trigger] out@[i] == shuffle(
            plain@,
            sv as int,
        )[i] by {
            if HEADER_END <= i < BLOCKS_END {
                let sb = (i - HEADER_END) / BLOCK_SIZE as int;
                let o = (i - HEADER_END) % BLOCK_SIZE as int;
                assert(i == HEADER_END + sb * BLOCK_SIZE + o);
                assert(0 <= sb < 4);
                let cb = canonical_block_at(sb, sv as int);
                assert(block_position(cb, sv as int) == sb);
                assert(out@[HEADER_END + block_position(cb, sv as int) * BLOCK_SIZE + o]
                    == plain@[HEADER_END + cb * BLOCK_SIZE + o]);
            }
        }
        assert(out@ =~= shuffle(plain@, sv as int));
    }
    out
}

/// XOR-ing a byte twice with the same key gives the byte back.
proof fn lemma_xor_twice(a: u8, k: u8)
    ensures
        (a ^ k) ^ k == a,
{
    assert((a ^ k) ^ k == a) by (bit_vector);
}

/// Position `8 + b * 56 + o` lies in block `b` at offset `o`.
proof fn lemma_block_index(b: int, o: int)
    requires
        0 <= b < 4,
        0 <= o < BLOCK_SIZE,
    ensures
        (b * BLOCK_SIZE + o) / BLOCK_SIZE as int == b,
        (b * BLOCK_SIZE + o) % BLOCK_SIZE as int == o,
        HEADER_END <= HEADER_END + b * BLOCK_SIZE + o < BLOCKS_END,
{
    assert((b * 56 + o) / 56 == b && (b * 56 + o) % 56 == o) by (nonlinear_arith)
        requires
            0 <= b < 4,
            0 <= o < 56,
    ;
}

/// XOR-ing a byte range with the key stream of a PV is undone by XOR-ing
/// the same range with the same stream again.
pub proof fn lemma_xor_keystream_involution(data: Seq<u8>, pv: u32, start: int, end: int)
    ensures
        xor_keystream(xor_keystream(data, pv, start, end), pv, start, end) == data,
{
    let twice = xor_keystream(xor_keystream(data, pv, start, end), pv, start, end);
    assert forall|i: int| 0 <= i < data.len() implies #[trigger] twice[i] == data[i] by {
        if start <= i < end {
            lemma_xor_twice(data[i], keystream_byte(pv, (i - start) as nat));
        }
    }
    assert(twice =~= data);
}

/// What XOR-ing a byte range with the key stream of a PV does to each byte:
/// a byte outside the range is kept; byte `i` inside it is XOR-ed with byte
/// `j = i - start` of the stream, that is bits 16..24 (for even `j`) or
/// 24..32 (for odd `j`) of the generator state after `j / 2 + 1` steps from
/// `pv` (`lcg_next`: `s * 0x41C64E6D + 0x6073`, wrapping).
pub proof fn lemma_xor_keystream_bytes(data: Seq<u8>, pv: u32, start: int, end: int, i: int)
    requires
        0 <= i < data.len(),
    ensures
        !(start <= i < end) ==> xor_keystream(data, pv, start, end)[i] == data[i],
        start <= i < end && (i - start) % 2 == 0 ==> xor_keystream(data, pv, start, end)[i]
            == data[i] ^ ((lcg_seed(pv, ((i - start) / 2 + 1) as nat) >> 16u32) & 0xFF) as u8,
        start <= i < end && (i - start) % 2 == 1 ==> xor_keystream(data, pv, start, end)[i]
            == data[i] ^ ((lcg_seed(pv, ((i - start) / 2 + 1) as nat) >> 24u32) & 0xFF) as u8,
{
    reveal(keystream_byte);
}

/// The shuffle value is bits 13..18 of the PV, taken modulo 24: every PV
/// whose bits 13..18 read `k` uses shuffle value `k % 24`, so all 24 block
/// orders occur.
pub proof fn lemma_shuffle_value_bits(pv: u32)
    ensures
        spec_shuffle_value(pv) == ((pv as int) / 0x2000) % 32 % 24,
        0 <= spec_shuffle_value(pv) < 24,
{
    assert((pv >> 13u32) & 0x1F == (pv / 0x2000) % 32) by (bit_vector);
}

/// Decrypting a slot puts each of the four blocks back in canonical order:
/// byte `o` of canonical block `cb` of the plaintext is byte `o` of the
/// block at scrambled position `block_position(cb, sv)` of the XOR-ed slot,
/// where `sv` is bits 13..18 of the slot's PV modulo 24; header and stats
/// are only XOR-ed.
pub proof fn lemma_decrypt_takes_blocks(slot: Seq<u8>, cb: int, o: int)
    requires
        slot.len() == SLOT_CONCAT_LEN,
        0 <= cb < 4,
        0 <= o < BLOCK_SIZE,
    ensures
        spec_decrypt(slot)[HEADER_END + cb * BLOCK_SIZE + o] == xor_layers(slot, slot_pv(slot))[HEADER_END
            + block_position(cb, ((slot_pv(slot) as int) / 0x2000) % 32 % 24) * BLOCK_SIZE + o],
{
    lemma_shuffle_value_bits(slot_pv(slot));
    lemma_block_index(cb, o);
}

/// Applying both XOR layers twice with the same PV is the identity.
proof fn lemma_xor_layers_involution(data: Seq<u8>, pv: u32)
    requires
        data.len() == SLOT_CONCAT_LEN,
    ensures
        xor_layers(xor_layers(data, pv), pv) == data,
{
    let once = xor_layers(data, pv);
    let twice = xor_layers(once, pv);
    assert forall|i: int| 0 <= i < SLOT_CONCAT_LEN implies #[trigger] twice[i] == data[i] by {
        if HEADER_END <= i < BLOCKS_END {
            lemma_xor_twice(data[i], keystream_byte(pv, (i - HEADER_END) as nat));
        } else if BLOCKS_END <= i < SLOT_CONCAT_LEN {
            lemma_xor_twice(data[i], keystream_byte(pv, (i - BLOCKS_END) as nat));
        }
    }
    assert(twice =~= data);
}

/// Neither XOR layer touches the header.
proof fn lemma_xor_layers_keeps_header(data: Seq<u8>, pv: u32)
    requires
        data.len() == SLOT_CONCAT_LEN,
    ensures
        xor_layers(data, pv).len() == SLOT_CONCAT_LEN,
        forall|i: int| 0 <= i < HEADER_END ==> #[trigger] xor_layers(data, pv)[i] == data[i],
        slot_pv(xor_layers(data, pv)) == slot_pv(data),
{
    let x = xor_layers(data, pv);
    assert(x[0] == data[0] && x[1] == data[1] && x[2] == data[2] && x[3] == data[3]);
}

/// Reordering the blocks does not touch the header.
proof fn lemma_shuffles_keep_header(data: Seq<u8>, sv: int)
    requires
        data.len() == SLOT_CONCAT_LEN,
    ensures
        forall|i: int| 0 <= i < HEADER_END ==> #[trigger] shuffle(data, sv)[i] == data[i],
        forall|i: int| 0 <= i < HEADER_END ==> #[trigger] unshuffle(data, sv)[i] == data[i],
        slot_pv(shuffle(data, sv)) == slot_pv(data),
        slot_pv(unshuffle(data, sv)) == slot_pv(data),
{
    let a = shuffle(data, sv);
    let b = unshuffle(data, sv);
    assert(a[0] == data[0] && a[1] == data[1] && a[2] == data[2] && a[3] == data[3]);
    assert(b[0] == data[0] && b[1] == data[1] && b[2] == data[2] && b[3] == data[3]);
}

/// Putting the blocks in scrambled order and back is the identity.
#[verifier::rlimit(40)]
#[verifier::spinoff_prover]
proof fn lemma_unshuffle_shuffle(data: Seq<u8>, sv: int)
    requires
        data.len() == SLOT_CONCAT_LEN,
        0 <= sv < 24,
    ensures
        unshuffle(shuffle(data, sv), sv) == data,
        shuffle(unshuffle(data, sv), sv) == data,
{
    lemma_block_position_is_permutation(sv);
    let a = unshuffle(shuffle(data, sv), sv);
    assert forall|i: int| 0 <= i < SLOT_CONCAT_LEN implies #[trigger] a[i] == data[i] by {
        if HEADER_END <= i < BLOCKS_END {
            let b = (i - HEADER_END) / BLOCK_SIZE as int;
            let o = (i - HEADER_END) % BLOCK_SIZE as int;
            let p = block_position(b, sv);
            lemma_block_index(p, o);
            assert(canonical_block_at(p, sv) == b);
        }
    }
    assert(a =~= data);
    let c = shuffle(unshuffle(data, sv), sv);
    assert forall|i: int| 0 <= i < SLOT_CONCAT_LEN implies #[trigger] c[i] == data[i] by {
        if HEADER_END <= i < BLOCKS_END {
            let sb = (i - HEADER_END) / BLOCK_SIZE as int;
            let o = (i - HEADER_END) % BLOCK_SIZE as int;
            let cb = canonical_block_at(sb, sv);
            lemma_block_index(cb, o);
            assert(block_position(cb, sv) == sb);
        }
    }
    assert(c =~= data);
}

/// Decrypting an encrypted slot gives back the plaintext: for every
/// 254-byte plaintext `p`, `decrypt_slot(encrypt_slot(p)) == p`.
pub proof fn lemma_decrypt_inverts_encrypt(plain: Seq<u8>)
    requires
        plain.len() == SLOT_CONCAT_LEN,
    ensures
        spec_decrypt(spec_encrypt(plain)) == plain,
{
    let pv = slot_pv(plain);
    let sv = spec_shuffle_value(pv);
    assert(0 <= sv < 24);
    let sh = shuffle(plain, sv);
    lemma_shuffles_keep_header(plain, sv);
    lemma_xor_layers_keeps_header(sh, pv);
    let enc = xor_layers(sh, pv);
    assert(slot_pv(enc) == pv);
    lemma_xor_layers_involution(sh, pv);
    lemma_unshuffle_shuffle(plain, sv);
}

/// Encrypting a decrypted slot gives back the on-wire bytes: for every
/// 254-byte slot `c`, `encrypt_slot(decrypt_slot(c)) == c`.
pub proof fn lemma_encrypt_inverts_decrypt(slot: Seq<u8>)
    requires
        slot.len() == SLOT_CONCAT_LEN,
    ensures
        spec_encrypt(spec_decrypt(slot)) == slot,
{
    let pv = slot_pv(slot);
    let sv = spec_shuffle_value(pv);
    assert(0 <= sv < 24);
    let x = xor_layers(slot, pv);
    lemma_xor_layers_keeps_header(slot, pv);
    lemma_shuffles_keep_header(x, sv);
    let dec = unshuffle(x, sv);
    assert(slot_pv(dec) == pv);
    lemma_unshuffle_shuffle(x, sv);
    lemma_xor_layers_involution(slot, pv);
}

/// Decryption leaves the 8-byte header (PV and sanity word) unchanged.
pub proof fn lemma_decrypt_keeps_header(slot: Seq<u8>)
    requires
        slot.len() == SLOT_CONCAT_LEN,
    ensures
        spec_decrypt(slot).subrange(0, HEADER_END as int) == slot.subrange(0, HEADER_END as int),
        slot_pv(spec_decrypt(slot)) == slot_pv(slot),
{
    let pv = slot_pv(slot);
    let sv = spec_shuffle_value(pv);
    lemma_xor_layers_keeps_header(slot, pv);
    lemma_shuffles_keep_header(xor_layers(slot, pv), sv);
    assert(spec_decrypt(slot).subrange(0, HEADER_END as int) =~= slot.subrange(0, HEADER_END as int));
}

/// Decrypts a 254-byte concatenated party slot: both XOR layers are removed
/// with streams started from the PV, then the blocks are put in canonical order.
///
/// The stats part (bytes 232..254) is XOR-ed with a stream restarted from the
/// PV; in RAM the game appears to use another layer for the stats, so their
/// plaintext is best effort and the level is derived from the experience
/// instead.
pub fn decrypt_slot(slot: &[u8; SLOT_CONCAT_LEN]) -> (plain: [u8; SLOT_CONCAT_LEN])
    ensures
        plain@ == spec_decrypt(slot@),
{
    let pv = u32_from_le(slot[0], slot[1], slot[2], slot[3]);
    let sv = shuffle_value(pv);
    let mut buf = *slot;
    xor_lcg(&mut buf, pv, HEADER_END, BLOCKS_END);
    xor_lcg(&mut buf, pv, BLOCKS_END, SLOT_CONCAT_LEN);
    unshuffle_blocks(&buf, sv)
}

/// Re-encrypts a plain 254-byte slot into its on-wire form: the blocks are
/// put in scrambled order, then both XOR layers are applied.
pub fn encrypt_slot(plain: &[u8; SLOT_CONCAT_LEN]) -> (slot: [u8; SLOT_CONCAT_LEN])
    ensures
        slot@ == spec_encrypt(plain@),
{
    let pv = u32_from_le(plain[0], plain[1], plain[2], plain[3]);
    let sv = shuffle_value(pv);
    let mut buf = shuffle_blocks(plain, sv);
    xor_lcg(&mut buf, pv, HEADER_END, BLOCKS_END);
    xor_lcg(&mut buf, pv, BLOCKS_END, SLOT_CONCAT_LEN);
    buf
}

} // verus!
