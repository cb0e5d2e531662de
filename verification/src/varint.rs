//! Variable-length integer codec.
//!
//! All varints in a JFR stream are little-endian base-128 groups: each byte
//! carries seven payload bits, and its high bit says that another byte
//! follows. A 64-bit value therefore spans at most ten bytes, and a run of
//! continuation bytes that would push the value past 64 bits is rejected as
//! `IntegerOverflow`. Signed values ride on the unsigned codec through
//! zigzag encoding.

use vstd::arithmetic::div_mod::*;
use vstd::arithmetic::mul::*;
use vstd::arithmetic::power2::*;
use vstd::prelude::*;

use crate::error::JfrError;

verus! {

/// First value that no longer fits in 64 bits.
pub open spec fn u64_bound() -> nat {
    0x1_0000_0000_0000_0000
}

/// The encoding of `v`: low seven bits first, high bit of every byte but the
/// last set as a continuation flag.
pub open spec fn vint_enc(v: nat) -> Seq<u8>
    decreases v,
{
    if v < 128 {
        seq![v as u8]
    } else {
        seq![(128 + v % 128) as u8] + vint_enc(v / 128)
    }
}

/// The value and byte length read by a varint decode starting at the head of
/// `s`, or `None` when every byte of `s` carries the continuation flag (the
/// stream ended mid-varint). The value is unbounded here; whether it fits in
/// 64 bits is judged by `vint_ok`.
pub open spec fn vint_dec(s: Seq<u8>) -> Option<(nat, int)>
    decreases s.len(),
{
    if s.len() == 0 {
        None
    } else if s[0] < 128 {
        Some((s[0] as nat, 1))
    } else {
        match vint_dec(s.skip(1)) {
            Some(r) => Some((((s[0] - 128) as nat + 128 * r.0), r.1 + 1)),
            None => None,
        }
    }
}

/// A decode at the head of `s` succeeds: it terminates within ten bytes and
/// its value fits in 64 bits.
pub open spec fn vint_ok(s: Seq<u8>) -> bool {
    vint_dec(s) matches Some(r) && r.1 <= 10 && r.0 < u64_bound()
}

/// A decode at the head of `s` fails because the source ended mid-varint:
/// fewer than ten bytes remain and all of them carry the continuation flag.
pub open spec fn vint_truncated(s: Seq<u8>) -> bool {
    vint_dec(s) is None && s.len() < 10
}

/// Zigzag mapping from a signed value to the unsigned value that is actually
/// encoded: non-negative `x` becomes `2x`, negative `x` becomes `-2x - 1`.
pub open spec fn zigzag_enc(x: int) -> nat {
    if x >= 0 {
        (2 * x) as nat
    } else {
        (-2 * x - 1) as nat
    }
}

/// Inverse zigzag mapping: even values are halved, odd values map to the
/// negative range.
pub open spec fn zigzag_dec(v: nat) -> int {
    if v % 2 == 0 {
        (v / 2) as int
    } else {
        -(((v + 1) / 2) as int)
    }
}

/// Success shape of `decode_at`: the bytes at `p` decode to `v` and the
/// position after them is `end`.
pub open spec fn decoded_at(s: Seq<u8>, p: int, v: u64, end: int) -> bool {
    &&& vint_dec(s.skip(p)) == Some((v as nat, end - p))
    &&& p < end <= s.len()
    &&& end - p <= 10
}

/// Error shape of `decode_at`: no valid varint starts at `p`, and the error
/// is `Truncated` exactly when the source ended mid-varint, `IntegerOverflow`
/// otherwise.
pub open spec fn decode_failed_at(s: Seq<u8>, p: int, e: JfrError) -> bool {
    &&& !vint_ok(s.skip(p))
    &&& (e == JfrError::Truncated <==> vint_truncated(s.skip(p)))
    &&& (e == JfrError::Truncated || e == JfrError::IntegerOverflow)
}

/// Decodes one unsigned varint from `data` starting at `pos`, returning the
/// value and the position just past it.
pub fn decode_at(data: &Vec<u8>, pos: usize) -> (r: Result<(u64, usize), JfrError>)
    requires
        pos <= data.len(),
    ensures
        match r {
            Ok(p) => decoded_at(data@, pos as int, p.0, p.1 as int),
            Err(e) => decode_failed_at(data@, pos as int, e),
        },
{
    let ghost tail = data@.skip(pos as int);
    let mut i: usize = 0;
    let mut acc: u64 = 0;
    let mut mult: u64 = 1;
    proof {
        assert(tail.skip(0) =~= tail);
        lemma2_to64();
        lemma2_to64_rest();
    }
    while i < 10
        invariant
            pos <= data.len(),
            0 <= i <= 10,
            i <= data.len() - pos,
            tail == data@.skip(pos as int),
            tail.len() == data.len() - pos,
            mult as nat == pow2((7 * i) as nat),
            (acc as nat) < pow2((7 * i) as nat),
            i < 10 ==> (mult as nat) <= pow2(63),
            vint_dec(tail.skip(i as int)) is None ==> vint_dec(tail) is None,
            vint_dec(tail.skip(i as int)) matches Some(r0) ==> vint_dec(tail)
                == Some(((acc as nat + pow2((7 * i) as nat) * r0.0), r0.1 + i)),
        decreases 10 - i,
    {
        proof {
            lemma2_to64();
            lemma2_to64_rest();
        }
        if data.len() - pos == i {
            // The source ended while every byte seen so far was a
            // continuation byte.
            proof {
                assert(tail.skip(i as int).len() == 0);
                assert(vint_dec(tail.skip(i as int)) is None);
            }
            return Err(JfrError::Truncated);
        }
        let b = data[pos + i];
        let ghost ti = tail.skip(i as int);
        proof {
            assert(ti[0] == tail[i as int]);
            assert(tail[i as int] == data@[pos + i]);
        }
        if b < 128 {
            // Terminal byte: seven payload bits, no continuation.
            proof {
                assert(vint_dec(ti) == Some((b as nat, 1int)));
            }
            if i == 9 && b > 1 {
                // Bits 63 and up would be set: the value does not fit.
                proof {
                    assert(pow2(63) * (b as nat) >= pow2(63) * 2) by {
                        lemma_mul_inequality(2, b as int, pow2(63) as int);
                    }
                    assert(vint_dec(tail) matches Some(r0) && r0.0 >= u64_bound());
                }
                return Err(JfrError::IntegerOverflow);
            }
            let ghost full = acc as nat + pow2((7 * i) as nat) * (b as nat);
            proof {
                if i < 9 {
                    assert(pow2((7 * i) as nat) * (b as nat) <= pow2((7 * i) as nat) * 127)
                        by {
                        lemma_mul_inequality(b as int, 127, pow2((7 * i) as nat) as int);
                    }
                    assert(acc as nat + pow2((7 * i) as nat) * 127 < pow2((7 * i) as nat)
                        * 128) by {
                        lemma_mul_is_distributive_add(pow2((7 * i) as nat) as int, 127, 1);
                    }
                    assert(pow2((7 * i) as nat) * 128 == pow2((7 * i + 7) as nat)) by {
                        lemma_pow2_adds((7 * i) as nat, 7);
                    }
                    assert(pow2((7 * i + 7) as nat) <= pow2(64)) by {
                        if 7 * i + 7 < 64 {
                            lemma_pow2_strictly_increases((7 * i + 7) as nat, 64);
                        }
                    }
                } else {
                    assert(b <= 1);
                    assert(pow2(63) * (b as nat) <= pow2(63)) by {
                        lemma_mul_inequality(b as int, 1, pow2(63) as int);
                    }
                }
                assert(full < u64_bound());
            }
            proof {
                assert((b as u64 * mult) as int == pow2((7 * i) as nat) * (b as nat)) by {
                    lemma_mul_is_commutative(b as int, mult as int);
                }
            }
            let value: u64 = acc + b as u64 * mult;
            proof {
                assert(value as nat == full);
                assert(vint_dec(tail) == Some((value as nat, i + 1int)));
            }
            return Ok((value, pos + i + 1));
        }
        // Continuation byte: accumulate its low seven bits.
        let low = b - 128;
        if i == 9 {
            // A tenth continuation byte: the value cannot fit in 64 bits.
            proof {
                assert(ti.len() > 0 && ti[0] >= 128);
                if vint_dec(ti) is Some {
                    let r = vint_dec(ti).unwrap();
                    assert(r.1 >= 2) by {
                        lemma_vint_dec_len(ti.skip(1));
                    }
                    assert(vint_dec(tail).unwrap().1 >= 10 + 1);
                } else {
                    assert(vint_dec(tail) is None);
                    assert(tail.len() >= 10);
                }
            }
            return Err(JfrError::IntegerOverflow);
        }
        proof {
            assert(ti.skip(1) =~= tail.skip(i + 1));
            assert(pow2((7 * i) as nat) * (low as nat) <= pow2((7 * i) as nat) * 127) by {
                lemma_mul_inequality(low as int, 127, pow2((7 * i) as nat) as int);
            }
            assert(acc as nat + pow2((7 * i) as nat) * 127 < pow2((7 * i) as nat) * 128) by {
                lemma_mul_is_distributive_add(pow2((7 * i) as nat) as int, 127, 1);
            }
            assert(pow2((7 * i) as nat) * 128 == pow2((7 * i + 7) as nat)) by {
                lemma_pow2_adds((7 * i) as nat, 7);
            }
            assert(pow2((7 * i + 7) as nat) <= pow2(63)) by {
                if 7 * i + 7 < 63 {
                    lemma_pow2_strictly_increases((7 * i + 7) as nat, 63);
                }
            }
            assert((low as u64 * mult) as int == pow2((7 * i) as nat) * (low as nat)) by {
                lemma_mul_is_commutative(low as int, mult as int);
            }
            assert((mult as int) * 128 == pow2((7 * i + 7) as nat)) by {
                lemma_pow2_adds((7 * i) as nat, 7);
                lemma_mul_is_commutative(mult as int, 128);
            }
            if vint_dec(tail.skip(i + 1)) is Some {
                let r1 = vint_dec(tail.skip(i + 1)).unwrap();
                assert(vint_dec(ti) == Some(((low as nat + 128 * r1.0), r1.1 + 1)));
                assert(vint_dec(tail) == Some((
                    (acc as nat + pow2((7 * i) as nat) * (low as nat + 128 * r1.0)),
                    r1.1 + 1 + i,
                )));
                assert(pow2((7 * i) as nat) * (low as nat + 128 * r1.0) == pow2(
                    (7 * i) as nat,
                ) * (low as nat) + pow2((7 * i + 7) as nat) * r1.0) by {
                    lemma_mul_is_distributive_add(
                        pow2((7 * i) as nat) as int,
                        low as int,
                        128 * (r1.0 as int),
                    );
                    lemma_mul_is_associative(pow2((7 * i) as nat) as int, 128, r1.0 as int);
                    lemma_pow2_adds((7 * i) as nat, 7);
                }
            }
        }
        acc = acc + low as u64 * mult;
        mult = mult * 128;
        i = i + 1;
    }
    proof {
        assert(i == 10);
        if vint_dec(tail.skip(10)) is Some {
            let r = vint_dec(tail.skip(10)).unwrap();
            assert(r.1 >= 1) by {
                lemma_vint_dec_len(tail.skip(10));
            }
            assert(vint_dec(tail).unwrap().1 >= 11);
        } else {
            assert(tail.len() >= 10);
        }
    }
    Err(JfrError::IntegerOverflow)
}

/// The length reported by a successful spec-level decode is at least one and
/// never exceeds the sequence's length.
pub proof fn lemma_vint_dec_len(s: Seq<u8>)
    ensures
        vint_dec(s) matches Some(r) ==> 1 <= r.1 <= s.len(),
    decreases s.len(),
{
    if s.len() > 0 && s[0] >= 128 {
        lemma_vint_dec_len(s.skip(1));
    }
}

/// Decodes one signed varint: an unsigned decode followed by the inverse
/// zigzag mapping.
pub fn decode_signed_at(data: &Vec<u8>, pos: usize) -> (r: Result<(i64, usize), JfrError>)
    requires
        pos <= data.len(),
    ensures
        match r {
            Ok(p) => vint_dec(data@.skip(pos as int)) matches Some(r) && r.0 < u64_bound()
                && r.1 <= 10 && p.0 as int == zigzag_dec(r.0) && pos + r.1 == p.1
                && p.1 <= data.len(),
            Err(e) => decode_failed_at(data@, pos as int, e),
        },
{
    let (u, end) = match decode_at(data, pos) {
        Ok(p) => p,
        Err(e) => {
            return Err(e);
        },
    };
    let x: i64 = if u % 2 == 0 {
        (u / 2) as i64
    } else {
        -(((u - 1) / 2) as i64) - 1
    };
    proof {
        if u % 2 != 0 {
            assert((u + 1) / 2 == (u - 1) / 2 + 1);
        }
        assert(x as int == zigzag_dec(u as nat));
    }
    Ok((x, end))
}

/// Encodes `v` as an unsigned varint.
pub fn encode(v: u64) -> (out: Vec<u8>)
    ensures
        out@ == vint_enc(v as nat),
{
    let mut out: Vec<u8> = Vec::new();
    let mut x = v;
    while x >= 128
        invariant
            vint_enc(v as nat) == out@ + vint_enc(x as nat),
        decreases x,
    {
        let b: u8 = (128 + x % 128) as u8;
        proof {
            assert(vint_enc(x as nat) == seq![b] + vint_enc((x as nat) / 128));
            assert(out@ + vint_enc(x as nat) =~= (out@ + seq![b]) + vint_enc(
                (x as nat) / 128,
            ));
            assert((x / 128) as nat == (x as nat) / 128);
        }
        out.push(b);
        x = x / 128;
    }
    proof {
        assert(vint_enc(x as nat) == seq![x as u8]);
        assert(out@ + seq![x as u8] =~= out@.push(x as u8));
    }
    out.push(x as u8);
    out
}

/// Encodes `x` as a signed varint: zigzag mapping, then the unsigned
/// encoding.
pub fn encode_signed(x: i64) -> (out: Vec<u8>)
    ensures
        out@ == vint_enc(zigzag_enc(x as int)),
{
    let u: u64 = if x >= 0 {
        2 * (x as u64)
    } else {
        2 * ((-(x + 1)) as u64) + 1
    };
    proof {
        assert(u as nat == zigzag_enc(x as int));
    }
    encode(u)
}

/// Law: the unsigned codec round-trips. Decoding the encoding of any `v`
/// yields exactly `v` and consumes exactly the encoded bytes, whatever
/// follows them.
pub proof fn lemma_varint_round_trip(v: u64, rest: Seq<u8>)
    ensures
        vint_dec(vint_enc(v as nat) + rest) == Some((
            v as nat,
            vint_enc(v as nat).len() as int,
        )),
        vint_ok(vint_enc(v as nat) + rest),
        1 <= vint_enc(v as nat).len() <= 10,
{
    lemma_vint_enc_decodes(v as nat, rest);
    lemma2_to64();
    lemma2_to64_rest();
    lemma_pow2_strictly_increases(64, 70);
    assert((v as nat) < pow2((7 * 10) as nat));
    lemma_vint_enc_len_bound(v as nat, 10);
}

/// Law: the signed codec round-trips: the zigzag mapping is undone exactly.
pub proof fn lemma_varint_signed_round_trip(x: i64, rest: Seq<u8>)
    ensures
        vint_dec(vint_enc(zigzag_enc(x as int)) + rest) matches Some(r) && zigzag_dec(r.0)
            == x as int,
{
    let u = zigzag_enc(x as int);
    assert(u < u64_bound());
    lemma_varint_round_trip(u as u64, rest);
    lemma_zigzag_round_trip(x as int);
}

/// Law: inverse zigzag after zigzag is the identity.
pub proof fn lemma_zigzag_round_trip(x: int)
    ensures
        zigzag_dec(zigzag_enc(x)) == x,
{
    if x >= 0 {
        assert((2 * x) % 2 == 0 && (2 * x) / 2 == x) by {
            lemma_fundamental_div_mod_converse(2 * x, 2, x, 0);
        }
    } else {
        assert((-2 * x - 1) % 2 == 1 && (-2 * x - 1) / 2 == -x - 1) by {
            lemma_fundamental_div_mod_converse(-2 * x - 1, 2, -x - 1, 1);
        }
        assert((-2 * x - 1 + 1) / 2 == -x) by {
            lemma_fundamental_div_mod_converse(-2 * x, 2, -x, 0);
        }
    }
}

/// Decoding the encoding of `v` yields `v`, whatever bytes follow.
proof fn lemma_vint_enc_decodes(v: nat, rest: Seq<u8>)
    ensures
        vint_dec(vint_enc(v) + rest) == Some((v, vint_enc(v).len() as int)),
    decreases v,
{
    if v < 128 {
        let s = vint_enc(v) + rest;
        assert(s[0] == v as u8);
        assert(vint_dec(s) == Some((v, 1int)));
    } else {
        let b = (128 + v % 128) as u8;
        lemma_vint_enc_decodes(v / 128, rest);
        let s = vint_enc(v) + rest;
        assert(s =~= seq![b] + (vint_enc(v / 128) + rest));
        assert(s.skip(1) =~= vint_enc(v / 128) + rest);
        assert(s[0] == b && b >= 128);
        assert(vint_dec(s) == Some((
            ((b - 128) as nat + 128 * (v / 128)),
            vint_enc(v / 128).len() + 1int,
        )));
        assert((b - 128) as nat + 128 * (v / 128) == v % 128 + 128 * (v / 128));
        assert(v % 128 + 128 * (v / 128) == v) by {
            lemma_fundamental_div_mod(v as int, 128);
        }
        assert(vint_enc(v).len() == vint_enc(v / 128).len() + 1);
    }
}

/// Values below `2^(7k)` encode in at most `k` bytes.
proof fn lemma_vint_enc_len_bound(v: nat, k: nat)
    requires
        1 <= k,
        v < pow2((7 * k) as nat),
    ensures
        1 <= vint_enc(v).len() <= k,
    decreases k,
{
    if v < 128 {
    } else {
        assert(pow2((7 * k) as nat) == 128 * pow2((7 * (k - 1)) as nat)) by {
            lemma_pow2_adds(7, (7 * (k - 1)) as nat);
            lemma2_to64();
        }
        assert(v / 128 < pow2((7 * (k - 1)) as nat)) by (nonlinear_arith)
            requires
                v < 128 * pow2((7 * (k - 1)) as nat),
        ;
        assert(k >= 2) by {
            lemma2_to64();
            if k == 1 {
            }
        }
        lemma_vint_enc_len_bound(v / 128, (k - 1) as nat);
    }
}

} // verus!
