//! Byte decoders for the packed key and signature encodings.
//!
//! Public keys pack each coefficient into 14 bits, big-endian; the
//! trailing bits of the last byte must be zero.  Signatures use a
//! sign-magnitude encoding: one sign bit, seven low magnitude bits,
//! then a unary run of zeros counting further 128s, closed by a one
//! bit.  Both decoders are specified bit by bit and reject exactly
//! the inputs the reference encoding rejects.

use vstd::prelude::*;
use vstd::arithmetic::power2::pow2;
use crate::params::{ParamSet, MODULUS};

verus! {

/// Bit `i` of a byte string, most significant bit of each byte first.
pub open spec fn bit_at(bytes: Seq<u8>, i: int) -> nat {
    (bytes[i / 8] as nat / pow2((7 - i % 8) as nat)) % 2
}

/// The big-endian value of `len` bits starting at `start`.
pub open spec fn bits_be(bytes: Seq<u8>, start: int, len: int) -> nat
    decreases len,
{
    if len <= 0 {
        0
    } else {
        (bits_be(bytes, start, len - 1) * 2 + bit_at(bytes, start + len - 1)) as nat
    }
}

/// The `i`-th 14-bit field of a packed public key.
pub open spec fn field14(bytes: Seq<u8>, i: int) -> nat {
    bits_be(bytes, 14 * i, 14)
}

/// Whether a byte string is a valid 14-bit packing of `n` reduced
/// coefficients: exact length, every field below q, zero padding.
pub open spec fn mod_q_decode_ok(bytes: Seq<u8>, n: int) -> bool {
    &&& bytes.len() == (14 * n + 7) / 8
    &&& forall|i: int| 0 <= i < n ==> field14(bytes, i) < MODULUS
    &&& forall|j: int| 14 * n <= j < 8 * bytes.len() ==> bit_at(bytes, j) == 0
}

/// Reads one bit of a byte string.
fn get_bit(bytes: &Vec<u8>, i: usize) -> (r: u8)
    requires
        i < 8 * bytes@.len(),
        bytes@.len() < 0x1000_0000,
    ensures
        r == bit_at(bytes@, i as int),
        r <= 1,
{
    let byte = bytes[i / 8];
    let sh: u64 = (7 - (i % 8)) as u64;
    proof {
        vstd::bits::lemma_u64_shr_is_div(byte as u64, sh);
        vstd::bits::lemma_u64_low_bits_mask_is_mod((byte as u64) >> sh, 1);
        vstd::bits::lemma_low_bits_mask_values();
        assert(pow2(1) == 2) by {
            vstd::arithmetic::power2::lemma2_to64();
        }
        vstd::arithmetic::power2::lemma_pow2_pos((7 - i % 8) as nat);
        assert((byte as nat / pow2((7 - (i as int) % 8) as nat)) % 2 == bit_at(
            bytes@,
            i as int,
        ));
    }
    (((byte as u64) >> sh) & 1) as u8
}

/// Decodes a 14-bit packed coefficient vector, or reports the input
/// malformed: wrong length, a field at or above q, or non-zero
/// padding.
pub fn mod_q_decode(input: &Vec<u8>, p: ParamSet) -> (r: Option<Vec<u16>>)
    requires
        input@.len() < 0x1000_0000,
    ensures
        r is Some <==> mod_q_decode_ok(input@, p.n_spec() as int),
        r is Some ==> {
            let v = r.unwrap();
            &&& v@.len() == p.n_spec()
            &&& forall|i: int| 0 <= i < v@.len() ==> #[trigger] v@[i] == field14(input@, i)
            &&& forall|i: int| 0 <= i < v@.len() ==> #[trigger] v@[i] < MODULUS
        },
{
    let n = p.n();
    if input.len() != (14 * n + 7) / 8 {
        return None;
    }
    let mut out: Vec<u16> = Vec::new();
    let mut i: usize = 0;
    while i < n
        invariant
            n == p.n_spec(),
            n <= 1024,
            input@.len() == (14 * n + 7) / 8,
            input@.len() < 0x1000_0000,
            i <= n,
            out@.len() == i,
            forall|k: int| 0 <= k < i ==> #[trigger] out@[k] == field14(input@, k),
            forall|k: int| 0 <= k < i ==> #[trigger] out@[k] < MODULUS,
        decreases n - i,
    {
        proof {
            vstd::arithmetic::power2::lemma2_to64();
        }
        let mut w: u16 = 0;
        let mut b: usize = 0;
        while b < 14
            invariant
                n == p.n_spec(),
                n <= 1024,
                i < n,
                input@.len() == (14 * n + 7) / 8,
                input@.len() < 0x1000_0000,
                b <= 14,
                w == bits_be(input@, 14 * i, b as int),
                w < pow2(b as nat),
            decreases 14 - b,
        {
            proof {
                vstd::arithmetic::power2::lemma_pow2_unfold((b + 1) as nat);
                vstd::arithmetic::power2::lemma2_to64();
                assert(14 * i + b < 8 * input@.len());
            }
            let bit = get_bit(input, 14 * i + b);
            w = w * 2 + bit as u16;
            b = b + 1;
        }
        if w >= MODULUS as u16 {
            proof {
                assert(field14(input@, i as int) >= MODULUS);
            }
            return None;
        }
        out.push(w);
        i = i + 1;
    }
    // the padding bits of the last byte must be zero
    let total_bits = 8 * input.len();
    let mut j: usize = 14 * n;
    while j < total_bits
        invariant
            n == p.n_spec(),
            n <= 1024,
            input@.len() == (14 * n + 7) / 8,
            input@.len() < 0x1000_0000,
            total_bits == 8 * input@.len(),
            14 * n <= j <= total_bits,
            forall|k: int| 14 * n <= k < j ==> bit_at(input@, k) == 0,
        decreases total_bits - j,
    {
        let bit = get_bit(input, j);
        if bit != 0 {
            return None;
        }
        j = j + 1;
    }
    proof {
        assert forall|ii: int| 0 <= ii < n implies field14(input@, ii) < MODULUS by {
            assert(out@[ii] == field14(input@, ii));
        }
        assert(mod_q_decode_ok(input@, n as int));
    }
    Some(out)
}

/// The position of the first set bit at or after `j`, if any.
pub open spec fn find_one(bytes: Seq<u8>, j: int) -> Option<int>
    decreases 8 * bytes.len() - j,
{
    if j < 0 || j >= 8 * bytes.len() {
        None
    } else if bit_at(bytes, j) == 1 {
        Some(j)
    } else {
        find_one(bytes, j + 1)
    }
}

/// One decoded signature coefficient starting at bit `pos`: the
/// value and the next position, or rejection.
pub open spec fn cd_next(bytes: Seq<u8>, pos: int) -> Option<(int, int)> {
    if pos < 0 || pos + 8 > 8 * bytes.len() {
        None
    } else {
        let s = bit_at(bytes, pos);
        let m0 = bits_be(bytes, pos + 1, 7);
        match find_one(bytes, pos + 8) {
            Option::None => Option::None,
            Option::Some(j) => {
                let m = m0 + 128 * (j - (pos + 8));
                if m > 2047 {
                    Option::None
                } else if s == 1 && m == 0 {
                    Option::None
                } else {
                    Option::Some((if s == 1 { -m } else { m as int }, j + 1))
                }
            },
        }
    }
}

/// `count` decoded coefficients starting at bit `pos`, with the
/// final position.
pub open spec fn cd_all(bytes: Seq<u8>, pos: int, count: int) -> Option<(Seq<int>, int)>
    decreases count,
{
    if count <= 0 {
        Option::Some((Seq::<int>::empty(), pos))
    } else {
        match cd_all(bytes, pos, count - 1) {
            Option::None => Option::None,
            Option::Some(st) => match cd_next(bytes, st.1) {
                Option::None => Option::None,
                Option::Some(nx) => Option::Some((st.0.push(nx.0), nx.1)),
            },
        }
    }
}

/// Whether a byte string decodes to `n` signature coefficients with
/// the unread bits of the final byte zero.
pub open spec fn comp_decode_ok(bytes: Seq<u8>, n: int) -> bool {
    match cd_all(bytes, 0, n) {
        Option::None => false,
        Option::Some(st) => forall|k: int|
            st.1 <= k < 8 * ((st.1 + 7) / 8) && k < 8 * bytes.len() ==> bit_at(bytes, k) == 0,
    }
}

/// Decodes a sign-magnitude compressed signature, or reports the
/// input malformed: a truncated stream, a magnitude above 2047, a
/// negative zero, or non-zero bits left in the final byte.
pub fn comp_decode(input: &Vec<u8>, p: ParamSet) -> (r: Option<Vec<i16>>)
    requires
        input@.len() < 0x1000_0000,
    ensures
        r is Some <==> comp_decode_ok(input@, p.n_spec() as int),
        r is Some ==> {
            let v = r.unwrap();
            &&& v@.len() == p.n_spec()
            &&& cd_all(input@, 0, p.n_spec() as int) is Some
            &&& forall|i: int|
                0 <= i < v@.len() ==> #[trigger] v@[i] == cd_all(
                    input@,
                    0,
                    p.n_spec() as int,
                ).unwrap().0[i]
            &&& forall|i: int| 0 <= i < v@.len() ==> -2047 <= #[trigger] v@[i] <= 2047
        },
{
    let n = p.n();
    let total_bits = 8 * input.len();
    let mut out: Vec<i16> = Vec::new();
    let mut pos: usize = 0;
    let mut i: usize = 0;
    while i < n
        invariant
            n == p.n_spec(),
            n <= 1024,
            input@.len() < 0x1000_0000,
            total_bits == 8 * input@.len(),
            i <= n,
            out@.len() == i,
            pos <= total_bits,
            cd_all(input@, 0, i as int) == Option::Some(
                (out@.map_values(|x: i16| x as int), pos as int),
            ),
            forall|k: int| 0 <= k < i ==> -2047 <= #[trigger] out@[k] <= 2047,
        decreases n - i,
    {
        if pos + 8 > total_bits {
            proof {
                lemma_cd_all_step_none(input@, out@.map_values(|x: i16| x as int), pos as int, i as int, n as int);
            }
            return None;
        }
        let s = get_bit(input, pos);
        proof {
            vstd::arithmetic::power2::lemma2_to64();
        }
        let mut m0: u32 = 0;
        let mut b: usize = 0;
        while b < 7
            invariant
                input@.len() < 0x1000_0000,
                total_bits == 8 * input@.len(),
                pos + 8 <= total_bits,
                b <= 7,
                m0 == bits_be(input@, pos + 1, b as int),
                m0 < pow2(b as nat),
            decreases 7 - b,
        {
            proof {
                vstd::arithmetic::power2::lemma_pow2_unfold((b + 1) as nat);
                vstd::arithmetic::power2::lemma2_to64();
            }
            let bit = get_bit(input, pos + 1 + b);
            m0 = m0 * 2 + bit as u32;
            b = b + 1;
        }
        // scan the unary run for the closing one bit
        let mut j: usize = pos + 8;
        let mut found: bool = false;
        while j < total_bits && !found
            invariant
                input@.len() < 0x1000_0000,
                total_bits == 8 * input@.len(),
                pos + 8 <= j <= total_bits,
                find_one(input@, pos + 8) == if found {
                    Option::Some((j - 1) as int)
                } else {
                    find_one(input@, j as int)
                },
                found ==> j >= pos + 9,
            decreases total_bits - j, if found { 0int } else { 1int },
        {
            let bit = get_bit(input, j);
            j = j + 1;
            if bit == 1 {
                found = true;
            }
        }
        if !found {
            proof {
                assert(find_one(input@, pos + 8) is None);
                lemma_cd_all_step_none(input@, out@.map_values(|x: i16| x as int), pos as int, i as int, n as int);
            }
            return None;
        }
        let k: usize = j - 1 - (pos + 8);
        if k > 15 {
            proof {
                assert(m0 + 128 * (k as int) > 2047);
                lemma_cd_all_step_none(input@, out@.map_values(|x: i16| x as int), pos as int, i as int, n as int);
            }
            return None;
        }
        let m: u32 = m0 + 128 * (k as u32);
        if m > 2047 {
            proof {
                lemma_cd_all_step_none(input@, out@.map_values(|x: i16| x as int), pos as int, i as int, n as int);
            }
            return None;
        }
        if s == 1 && m == 0 {
            proof {
                lemma_cd_all_step_none(input@, out@.map_values(|x: i16| x as int), pos as int, i as int, n as int);
            }
            return None;
        }
        let val: i16 = if s == 1 {
            -(m as i16)
        } else {
            m as i16
        };
        let ghost oldout = out@;
        out.push(val);
        pos = j;
        proof {
            lemma_cd_all_step(input@, oldout.map_values(|x: i16| x as int), i as int, n as int);
            assert(out@.map_values(|x: i16| x as int) =~= oldout.map_values(|x: i16| x as int)
                .push(val as int));
        }
        i = i + 1;
    }
    // the unread bits of the final byte must be zero
    let pad_end = if pos % 8 == 0 {
        pos
    } else {
        pos - pos % 8 + 8
    };
    let mut j2: usize = pos;
    while j2 < pad_end && j2 < total_bits
        invariant
            input@.len() < 0x1000_0000,
            total_bits == 8 * input@.len(),
            pos <= j2 <= pad_end,
            pad_end == 8 * ((pos + 7) / 8),
            cd_all(input@, 0, n as int) == Option::Some(
                (out@.map_values(|x: i16| x as int), pos as int),
            ),
            n == p.n_spec(),
            out@.len() == n,
            forall|k: int| 0 <= k < out@.len() ==> -2047 <= #[trigger] out@[k] <= 2047,
            forall|k: int| pos <= k < j2 ==> bit_at(input@, k) == 0,
        decreases pad_end - j2,
    {
        let bit = get_bit(input, j2);
        if bit != 0 {
            return None;
        }
        j2 = j2 + 1;
    }
    proof {
        assert forall|k: int|
            pos <= k < 8 * ((pos + 7) / 8) && k < 8 * input@.len() implies bit_at(input@, k)
            == 0 by {}
        assert forall|i2: int| 0 <= i2 < out@.len() implies #[trigger] out@[i2] == cd_all(
            input@,
            0,
            p.n_spec() as int,
        ).unwrap().0[i2] by {
            assert(cd_all(input@, 0, n as int).unwrap().0[i2] == out@.map_values(
                |x: i16| x as int,
            )[i2]);
        }
    }
    Some(out)
}

/// Unfolds one step of the coefficient list when the next coefficient
/// decodes.
proof fn lemma_cd_all_step(bytes: Seq<u8>, prefix: Seq<int>, i: int, n: int)
    requires
        0 <= i < n,
    ensures
        cd_all(bytes, 0, i) is Some && cd_next(bytes, cd_all(bytes, 0, i).unwrap().1) is Some
            ==> cd_all(bytes, 0, i + 1) == Option::<(Seq<int>, int)>::Some(
            (
                cd_all(bytes, 0, i).unwrap().0.push(
                    cd_next(bytes, cd_all(bytes, 0, i).unwrap().1).unwrap().0,
                ),
                cd_next(bytes, cd_all(bytes, 0, i).unwrap().1).unwrap().1,
            ),
        ),
{
}

/// A failing next coefficient fails the whole decode.
proof fn lemma_cd_all_step_none(bytes: Seq<u8>, prefix: Seq<int>, pos: int, i: int, n: int)
    requires
        0 <= i < n,
        cd_all(bytes, 0, i) == Option::<(Seq<int>, int)>::Some((prefix, pos)),
        cd_next(bytes, pos) is None,
    ensures
        cd_all(bytes, 0, n) is None,
    decreases n - i,
{
    assert(cd_all(bytes, 0, i + 1) is None);
    lemma_cd_all_none_mono(bytes, i + 1, n);
}

/// Once the decode fails for a prefix count it fails for any longer
/// count.
proof fn lemma_cd_all_none_mono(bytes: Seq<u8>, i: int, n: int)
    requires
        0 <= i <= n,
        cd_all(bytes, 0, i) is None,
    ensures
        cd_all(bytes, 0, n) is None,
    decreases n - i,
{
    if i < n {
        assert(cd_all(bytes, 0, i + 1) is None);
        lemma_cd_all_none_mono(bytes, i + 1, n);
    }
}

} // verus!
