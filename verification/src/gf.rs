//! Binary-field arithmetic: GF(2^k) = GF(2)[x] / (x^k + r(x)), an element
//! held in the low `k` bits of a word. The product `a * b` is the sum over
//! the set bits `i` of `b` of `a * x^i`, where multiplying by `x` shifts left
//! and reduces by `r` when the top bit falls out.
use vstd::prelude::*;

verus! {

/// A binary field GF(2^k): `top` is the bit x^(k-1), `mask` the k low bits,
/// `poly` the reduction polynomial r(x) without its leading term x^k.
pub struct Field {
    pub top: u64,
    pub mask: u64,
    pub poly: u64,
    pub bits: nat,
}

/// GF(2^8) with the AES polynomial x^8 + x^4 + x^3 + x + 1.
pub open spec fn gf8() -> Field {
    Field { top: 0x80, mask: 0xff, poly: 0x1b, bits: 8 }
}

/// GF(2^32) with x^32 + x^7 + x^3 + x^2 + 1.
pub open spec fn gf32() -> Field {
    Field { top: 0x8000_0000, mask: 0xffff_ffff, poly: 0x8d, bits: 32 }
}

/// GF(2^64) with x^64 + x^4 + x^3 + x + 1.
pub open spec fn gf64() -> Field {
    Field { top: 0x8000_0000_0000_0000, mask: 0xffff_ffff_ffff_ffff, poly: 0x1b, bits: 64 }
}

/// `a * x` in the field.
pub open spec fn mulx(f: Field, a: u64) -> u64 {
    ((a << 1u64) & f.mask) ^ (if a & f.top != 0 { f.poly } else { 0u64 })
}

/// `a * x^i` in the field.
pub open spec fn xpow(f: Field, a: u64, i: nat) -> u64
    decreases i,
{
    if i == 0 {
        a
    } else {
        mulx(f, xpow(f, a, (i - 1) as nat))
    }
}

/// Bit `i` of `b` is set.
pub open spec fn bit(b: u64, i: nat) -> bool {
    (b >> i) & 1u64 == 1u64
}

/// `a * (b mod x^n)`: the sum of `a * x^i` over the set bits `i < n` of `b`.
pub open spec fn mul_low(f: Field, a: u64, b: u64, n: nat) -> u64
    decreases n,
{
    if n == 0 {
        0u64
    } else {
        mul_low(f, a, b, (n - 1) as nat) ^ (if bit(b, (n - 1) as nat) {
            xpow(f, a, (n - 1) as nat)
        } else {
            0u64
        })
    }
}

/// The field product of `a` and `b` (both reduced to k bits).
pub open spec fn field_mul(f: Field, a: u64, b: u64) -> u64 {
    mul_low(f, a & f.mask, b, f.bits)
}

/// GF(2^8) product of two bytes.
pub open spec fn gf8_mul(a: u8, b: u8) -> u8 {
    field_mul(gf8(), a as u64, b as u64) as u8
}


/// GF(2^8) doubling of a byte.
pub open spec fn xt(v: u8) -> u8 {
    (v << 1u8) ^ (if v & 0x80u8 != 0u8 {
        0x1bu8
    } else {
        0u8
    })
}

/// The GF(2^8) product of a byte `x0` with `b`, given the successive
/// doublings `x1..x7` of `x0`: the sum of `x0 * x^i` over the set bits `i`
/// of `b`.
pub open spec fn mul_chain(
    x0: u8,
    x1: u8,
    x2: u8,
    x3: u8,
    x4: u8,
    x5: u8,
    x6: u8,
    x7: u8,
    b: u8,
) -> u8 {
    (if b & 1u8 == 1u8 {
        x0
    } else {
        0u8
    }) ^ (if (b >> 1u8) & 1u8 == 1u8 {
        x1
    } else {
        0u8
    }) ^ (if (b >> 2u8) & 1u8 == 1u8 {
        x2
    } else {
        0u8
    }) ^ (if (b >> 3u8) & 1u8 == 1u8 {
        x3
    } else {
        0u8
    }) ^ (if (b >> 4u8) & 1u8 == 1u8 {
        x4
    } else {
        0u8
    }) ^ (if (b >> 5u8) & 1u8 == 1u8 {
        x5
    } else {
        0u8
    }) ^ (if (b >> 6u8) & 1u8 == 1u8 {
        x6
    } else {
        0u8
    }) ^ (if (b >> 7u8) & 1u8 == 1u8 {
        x7
    } else {
        0u8
    })
}

/// `x^n` in GF(2^8), as repeated multiplication by `x`.
pub open spec fn gf8_pow(x: u8, n: nat) -> u8
    decreases n,
{
    if n == 0 {
        1u8
    } else {
        gf8_mul(x, gf8_pow(x, (n - 1) as nat))
    }
}

/// The GF(2^8) inverse `x^254` (which maps 0 to 0).
pub open spec fn gf8_inv(x: u8) -> u8 {
    gf8_pow(x, 254)
}

/// Multiplication by a fixed byte is linear, and has no zero divisors: a
/// nonzero byte times a nonzero byte is nonzero.
#[verifier::rlimit(100)]
pub proof fn lemma_chain_linear_nzd(
    a: u8,
    a1: u8,
    a2: u8,
    a3: u8,
    a4: u8,
    a5: u8,
    a6: u8,
    a7: u8,
    y: u8,
    z: u8,
)
    by (bit_vector)
    requires
        a1 == xt(a),
        a2 == xt(a1),
        a3 == xt(a2),
        a4 == xt(a3),
        a5 == xt(a4),
        a6 == xt(a5),
        a7 == xt(a6),
    ensures
        mul_chain(a, a1, a2, a3, a4, a5, a6, a7, y) ^ mul_chain(a, a1, a2, a3, a4, a5, a6, a7, z)
            == mul_chain(a, a1, a2, a3, a4, a5, a6, a7, y ^ z),
        a != 0u8 && y != 0u8 ==> mul_chain(a, a1, a2, a3, a4, a5, a6, a7, y) != 0u8,
{
}


/// Doubling a byte as a word matches doubling it as a byte.
pub proof fn lemma_xt_word(v: u8)
    by (bit_vector)
    ensures
        (((v as u64) << 1u64) & 0xffu64) ^ (if (v as u64) & 0x80u64 != 0u64 {
            0x1bu64
        } else {
            0u64
        }) == xt(v) as u64,
        (v as u64) & 0xffu64 == v as u64,
{
}

/// The product summed on words matches the product summed on bytes.
pub proof fn lemma_chain_word(
    x0: u8,
    x1: u8,
    x2: u8,
    x3: u8,
    x4: u8,
    x5: u8,
    x6: u8,
    x7: u8,
    b: u8,
)
    by (bit_vector)
    ensures
        ((((((((0u64 ^ (if ((b as u64) >> 0u64) & 1u64 == 1u64 {
            x0 as u64
        } else {
            0u64
        })) ^ (if ((b as u64) >> 1u64) & 1u64 == 1u64 {
            x1 as u64
        } else {
            0u64
        })) ^ (if ((b as u64) >> 2u64) & 1u64 == 1u64 {
            x2 as u64
        } else {
            0u64
        })) ^ (if ((b as u64) >> 3u64) & 1u64 == 1u64 {
            x3 as u64
        } else {
            0u64
        })) ^ (if ((b as u64) >> 4u64) & 1u64 == 1u64 {
            x4 as u64
        } else {
            0u64
        })) ^ (if ((b as u64) >> 5u64) & 1u64 == 1u64 {
            x5 as u64
        } else {
            0u64
        })) ^ (if ((b as u64) >> 6u64) & 1u64 == 1u64 {
            x6 as u64
        } else {
            0u64
        })) ^ (if ((b as u64) >> 7u64) & 1u64 == 1u64 {
            x7 as u64
        } else {
            0u64
        })) == mul_chain(x0, x1, x2, x3, x4, x5, x6, x7, b) as u64,
{
}

/// The byte `x` doubled `i` times.
pub open spec fn xt_pow(x: u8, i: nat) -> u8
    decreases i,
{
    if i == 0 {
        x
    } else {
        xt(xt_pow(x, (i - 1) as nat))
    }
}

/// The GF(2^8) product of `a` and `b` through the doubling chain of `a`.
pub open spec fn gf8_chain(a: u8, b: u8) -> u8 {
    mul_chain(
        a,
        xt_pow(a, 1),
        xt_pow(a, 2),
        xt_pow(a, 3),
        xt_pow(a, 4),
        xt_pow(a, 5),
        xt_pow(a, 6),
        xt_pow(a, 7),
        b,
    )
}

/// The field product of two bytes is the chain product, and is a byte.
pub proof fn lemma_gf8_mul_chain(a: u8, b: u8)
    ensures
        field_mul(gf8(), a as u64, b as u64) == gf8_chain(a, b) as u64,
        gf8_mul(a, b) == gf8_chain(a, b),
{
    reveal_with_fuel(mul_low, 9);
    reveal_with_fuel(xt_pow, 8);
    let aw = a as u64;
    lemma_xt_word(a);
    assert forall|i: nat| i < 8 implies #[trigger] xpow(gf8(), aw, i) == xt_pow(a, i) as u64 by {
        lemma_xpow_chain(a, i);
    }
    lemma_chain_word(
        a,
        xt_pow(a, 1),
        xt_pow(a, 2),
        xt_pow(a, 3),
        xt_pow(a, 4),
        xt_pow(a, 5),
        xt_pow(a, 6),
        xt_pow(a, 7),
        b,
    );
    assert(xpow(gf8(), aw, 0) == xt_pow(a, 0) as u64);
    assert(xpow(gf8(), aw, 1) == xt_pow(a, 1) as u64);
    assert(xpow(gf8(), aw, 2) == xt_pow(a, 2) as u64);
    assert(xpow(gf8(), aw, 3) == xt_pow(a, 3) as u64);
    assert(xpow(gf8(), aw, 4) == xt_pow(a, 4) as u64);
    assert(xpow(gf8(), aw, 5) == xt_pow(a, 5) as u64);
    assert(xpow(gf8(), aw, 6) == xt_pow(a, 6) as u64);
    assert(xpow(gf8(), aw, 7) == xt_pow(a, 7) as u64);
}

/// Doubling `i` times on words matches doubling on bytes.
pub proof fn lemma_xpow_chain(a: u8, i: nat)
    ensures
        xpow(gf8(), a as u64, i) == xt_pow(a, i) as u64,
    decreases i,
{
    if i > 0 {
        lemma_xpow_chain(a, (i - 1) as nat);
        lemma_xt_word(xt_pow(a, (i - 1) as nat));
    }
}


/// In GF(2^8) every nonzero `x` has `x^255 = 1`: given the doublings of `x`
/// and its successive powers `p1 = x, p2 = x^2, ..., p254 = x^254`, the
/// product `x * p254` is one.
#[verifier::rlimit(100)]
pub proof fn lemma_powers_cycle(
    x: u8,
    x1: u8,
    x2: u8,
    x3: u8,
    x4: u8,
    x5: u8,
    x6: u8,
    x7: u8,
    p1: u8,
    p2: u8,
    p3: u8,
    p4: u8,
    p5: u8,
    p6: u8,
    p7: u8,
    p8: u8,
    p9: u8,
    p10: u8,
    p11: u8,
    p12: u8,
    p13: u8,
    p14: u8,
    p15: u8,
    p16: u8,
    p17: u8,
    p18: u8,
    p19: u8,
    p20: u8,
    p21: u8,
    p22: u8,
    p23: u8,
    p24: u8,
    p25: u8,
    p26: u8,
    p27: u8,
    p28: u8,
    p29: u8,
    p30: u8,
    p31: u8,
    p32: u8,
    p33: u8,
    p34: u8,
    p35: u8,
    p36: u8,
    p37: u8,
    p38: u8,
    p39: u8,
    p40: u8,
    p41: u8,
    p42: u8,
    p43: u8,
    p44: u8,
    p45: u8,
    p46: u8,
    p47: u8,
    p48: u8,
    p49: u8,
    p50: u8,
    p51: u8,
    p52: u8,
    p53: u8,
    p54: u8,
    p55: u8,
    p56: u8,
    p57: u8,
    p58: u8,
    p59: u8,
    p60: u8,
    p61: u8,
    p62: u8,
    p63: u8,
    p64: u8,
    p65: u8,
    p66: u8,
    p67: u8,
    p68: u8,
    p69: u8,
    p70: u8,
    p71: u8,
    p72: u8,
    p73: u8,
    p74: u8,
    p75: u8,
    p76: u8,
    p77: u8,
    p78: u8,
    p79: u8,
    p80: u8,
    p81: u8,
    p82: u8,
    p83: u8,
    p84: u8,
    p85: u8,
    p86: u8,
    p87: u8,
    p88: u8,
    p89: u8,
    p90: u8,
    p91: u8,
    p92: u8,
    p93: u8,
    p94: u8,
    p95: u8,
    p96: u8,
    p97: u8,
    p98: u8,
    p99: u8,
    p100: u8,
    p101: u8,
    p102: u8,
    p103: u8,
    p104: u8,
    p105: u8,
    p106: u8,
    p107: u8,
    p108: u8,
    p109: u8,
    p110: u8,
    p111: u8,
    p112: u8,
    p113: u8,
    p114: u8,
    p115: u8,
    p116: u8,
    p117: u8,
    p118: u8,
    p119: u8,
    p120: u8,
    p121: u8,
    p122: u8,
    p123: u8,
    p124: u8,
    p125: u8,
    p126: u8,
    p127: u8,
    p128: u8,
    p129: u8,
    p130: u8,
    p131: u8,
    p132: u8,
    p133: u8,
    p134: u8,
    p135: u8,
    p136: u8,
    p137: u8,
    p138: u8,
    p139: u8,
    p140: u8,
    p141: u8,
    p142: u8,
    p143: u8,
    p144: u8,
    p145: u8,
    p146: u8,
    p147: u8,
    p148: u8,
    p149: u8,
    p150: u8,
    p151: u8,
    p152: u8,
    p153: u8,
    p154: u8,
    p155: u8,
    p156: u8,
    p157: u8,
    p158: u8,
    p159: u8,
    p160: u8,
    p161: u8,
    p162: u8,
    p163: u8,
    p164: u8,
    p165: u8,
    p166: u8,
    p167: u8,
    p168: u8,
    p169: u8,
    p170: u8,
    p171: u8,
    p172: u8,
    p173: u8,
    p174: u8,
    p175: u8,
    p176: u8,
    p177: u8,
    p178: u8,
    p179: u8,
    p180: u8,
    p181: u8,
    p182: u8,
    p183: u8,
    p184: u8,
    p185: u8,
    p186: u8,
    p187: u8,
    p188: u8,
    p189: u8,
    p190: u8,
    p191: u8,
    p192: u8,
    p193: u8,
    p194: u8,
    p195: u8,
    p196: u8,
    p197: u8,
    p198: u8,
    p199: u8,
    p200: u8,
    p201: u8,
    p202: u8,
    p203: u8,
    p204: u8,
    p205: u8,
    p206: u8,
    p207: u8,
    p208: u8,
    p209: u8,
    p210: u8,
    p211: u8,
    p212: u8,
    p213: u8,
    p214: u8,
    p215: u8,
    p216: u8,
    p217: u8,
    p218: u8,
    p219: u8,
    p220: u8,
    p221: u8,
    p222: u8,
    p223: u8,
    p224: u8,
    p225: u8,
    p226: u8,
    p227: u8,
    p228: u8,
    p229: u8,
    p230: u8,
    p231: u8,
    p232: u8,
    p233: u8,
    p234: u8,
    p235: u8,
    p236: u8,
    p237: u8,
    p238: u8,
    p239: u8,
    p240: u8,
    p241: u8,
    p242: u8,
    p243: u8,
    p244: u8,
    p245: u8,
    p246: u8,
    p247: u8,
    p248: u8,
    p249: u8,
    p250: u8,
    p251: u8,
    p252: u8,
    p253: u8,
    p254: u8,
)
    by (bit_vector)
    requires
        x1 == xt(x),
        x2 == xt(x1),
        x3 == xt(x2),
        x4 == xt(x3),
        x5 == xt(x4),
        x6 == xt(x5),
        x7 == xt(x6),
        p1 == x,
        p2 == mul_chain(x, x1, x2, x3, x4, x5, x6, x7, p1),
        p3 == mul_chain(x, x1, x2, x3, x4, x5, x6, x7, p2),
        p4 == mul_chain(x, x1, x2, x3, x4, x5, x6, x7, p3),
        p5 == mul_chain(x, x1, x2, x3, x4, x5, x6, x7, p4),
        p6 == mul_chain(x, x1, x2, x3, x4, x5, x6, x7, p5),
        p7 == mul_chain(x, x1, x2, x3, x4, x5, x6, x7, p6),
        p8 == mul_chain(x, x1, x2, x3, x4, x5, x6, x7, p7),
        p9 == mul_chain(x, x1, x2, x3, x4, x5, x6, x7, p8),
        p10 == mul_chain(x, x1, x2, x3, x4, x5, x6, x7, p9),
        p11 == mul_chain(x, x1, x2, x3, x4, x5, x6, x7, p10),
        p12 == mul_chain(x, x1, x2, x3, x4, x5, x6, x7, p11),
        p13 == mul_chain(x, x1, x2, x3, x4, x5, x6, x7, p12),
        p14 == mul_chain(x, x1, x2, x3, x4, x5, x6, x7, p13),
        p15 == mul_chain(x, x1, x2, x3, x4, x5, x6, x7, p14),
        p16 == mul_chain(x, x1, x2, x3, x4, x5, x6, x7, p15),
        p17 == mul_chain(x, x1, x2, x3, x4, x5, x6, x7, p16),
        p18 == mul_chain(x, x1, x2, x3, x4, x5, x6, x7, p17),
        p19 == mul_chain(x, x1, x2, x3, x4, x5, x6, x7, p18),
        p20 == mul_chain(x, x1, x2, x3, x4, x5, x6, x7, p19),
        p21 == mul_chain(x, x1, x2, x3, x4, x5, x6, x7, p20),
        p22 == mul_chain(x, x1, x2, x3, x4, x5, x6, x7, p21),
        p23 == mul_chain(x, x1, x2, x3, x4, x5, x6, x7, p22),
        p24 == mul_chain(x, x1, x2, x3, x4, x5, x6, x7, p23),
        p25 == mul_chain(x, x1, x2, x3, x4, x5, x6, x7, p24),
        p26 == mul_chain(x, x1, x2, x3, x4, x5, x6, x7, p25),
        p27 == mul_chain(x, x1, x2, x3, x4, x5, x6, x7, p26),
        p28 == mul_chain(x, x1, x2, x3, x4, x5, x6, x7, p27),
        p29 == mul_chain(x, x1, x2, x3, x4, x5, x6, x7, p28),
        p30 == mul_chain(x, x1, x2, x3, x4, x5, x6, x7, p29),
        p31 == mul_chain(x, x1, x2, x3, x4, x5, x6, x7, p30),
        p32 == mul_chain(x, x1, x2, x3, x4, x5, x6, x7, p31),
        p33 == mul_chain(x, x1, x2, x3, x4, x5, x6, x7, p32),
        p34 == mul_chain(x, x1, x2, x3, x4, x5, x6, x7, p33),
        p35 == mul_chain(x, x1, x2, x3, x4, x5, x6, x7, p34),
        p36 == mul_chain(x, x1, x2, x3, x4, x5, x6, x7, p35),
        p37 == mul_chain(x, x1, x2, x3, x4, x5, x6, x7, p36),
        p38 == mul_chain(x, x1, x2, x3, x4, x5, x6, x7, p37),
        p39 == mul_chain(x, x1, x2, x3, x4, x5, x6, x7, p38),
        p40 == mul_chain(x, x1, x2, x3, x4, x5, x6, x7, p39),
        p41 == mul_chain(x, x1, x2, x3, x4, x5, x6, x7, p40),
        p42 == mul_chain(x, x1, x2, x3, x4, x5, x6, x7, p41),
        p43 == mul_chain(x, x1, x2, x3, x4, x5, x6, x7, p42),
        p44 == mul_chain(x, x1, x2, x3, x4, x5, x6, x7, p43),
        p45 == mul_chain(x, x1, x2, x3, x4, x5, x6, x7, p44),
        p46 == mul_chain(x, x1, x2, x3, x4, x5, x6, x7, p45),
        p47 == mul_chain(x, x1, x2, x3, x4, x5, x6, x7, p46),
        p48 == mul_chain(x, x1, x2, x3, x4, x5, x6, x7, p47),
        p49 == mul_chain(x, x1, x2, x3, x4, x5, x6, x7, p48),
        p50 == mul_chain(x, x1, x2, x3, x4, x5, x6, x7, p49),
        p51 == mul_chain(x, x1, x2, x3, x4, x5, x6, x7, p50),
        p52 == mul_chain(x, x1, x2, x3, x4, x5, x6, x7, p51),
        p53 == mul_chain(x, x1, x2, x3, x4, x5, x6, x7, p52),
        p54 == mul_chain(x, x1, x2, x3, x4, x5, x6, x7, p53),
        p55 == mul_chain(x, x1, x2, x3, x4, x5, x6, x7, p54),
        p56 == mul_chain(x, x1, x2, x3, x4, x5, x6, x7, p55),
        p57 == mul_chain(x, x1, x2, x3, x4, x5, x6, x7, p56),
        p58 == mul_chain(x, x1, x2, x3, x4, x5, x6, x7, p57),
        p59 == mul_chain(x, x1, x2, x3, x4, x5, x6, x7, p58),
        p60 == mul_chain(x, x1, x2, x3, x4, x5, x6, x7, p59),
        p61 == mul_chain(x, x1, x2, x3, x4, x5, x6, x7, p60),
        p62 == mul_chain(x, x1, x2, x3, x4, x5, x6, x7, p61),
        p63 == mul_chain(x, x1, x2, x3, x4, x5, x6, x7, p62),
        p64 == mul_chain(x, x1, x2, x3, x4, x5, x6, x7, p63),
        p65 == mul_chain(x, x1, x2, x3, x4, x5, x6, x7, p64),
        p66 == mul_chain(x, x1, x2, x3, x4, x5, x6, x7, p65),
        p67 == mul_chain(x, x1, x2, x3, x4, x5, x6, x7, p66),
        p68 == mul_chain(x, x1, x2, x3, x4, x5, x6, x7, p67),
        p69 == mul_chain(x, x1, x2, x3, x4, x5, x6, x7, p68),
        p70 == mul_chain(x, x1, x2, x3, x4, x5, x6, x7, p69),
        p71 == mul_chain(x, x1, x2, x3, x4, x5, x6, x7, p70),
        p72 == mul_chain(x, x1, x2, x3, x4, x5, x6, x7, p71),
        p73 == mul_chain(x, x1, x2, x3, x4, x5, x6, x7, p72),
        p74 == mul_chain(x, x1, x2, x3, x4, x5, x6, x7, p73),
        p75 == mul_chain(x, x1, x2, x3, x4, x5, x6, x7, p74),
        p76 == mul_chain(x, x1, x2, x3, x4, x5, x6, x7, p75),
        p77 == mul_chain(x, x1, x2, x3, x4, x5, x6, x7, p76),
        p78 == mul_chain(x, x1, x2, x3, x4, x5, x6, x7, p77),
        p79 == mul_chain(x, x1, x2, x3, x4, x5, x6, x7, p78),
        p80 == mul_chain(x, x1, x2, x3, x4, x5, x6, x7, p79),
        p81 == mul_chain(x, x1, x2, x3, x4, x5, x6, x7, p80),
        p82 == mul_chain(x, x1, x2, x3, x4, x5, x6, x7, p81),
        p83 == mul_chain(x, x1, x2, x3, x4, x5, x6, x7, p82),
        p84 == mul_chain(x, x1, x2, x3, x4, x5, x6, x7, p83),
        p85 == mul_chain(x, x1, x2, x3, x4, x5, x6, x7, p84),
        p86 == mul_chain(x, x1, x2, x3, x4, x5, x6, x7, p85),
        p87 == mul_chain(x, x1, x2, x3, x4, x5, x6, x7, p86),
        p88 == mul_chain(x, x1, x2, x3, x4, x5, x6, x7, p87),
        p89 == mul_chain(x, x1, x2, x3, x4, x5, x6, x7, p88),
        p90 == mul_chain(x, x1, x2, x3, x4, x5, x6, x7, p89),
        p91 == mul_chain(x, x1, x2, x3, x4, x5, x6, x7, p90),
        p92 == mul_chain(x, x1, x2, x3, x4, x5, x6, x7, p91),
        p93 == mul_chain(x, x1, x2, x3, x4, x5, x6, x7, p92),
        p94 == mul_chain(x, x1, x2, x3, x4, x5, x6, x7, p93),
        p95 == mul_chain(x, x1, x2, x3, x4, x5, x6, x7, p94),
        p96 == mul_chain(x, x1, x2, x3, x4, x5, x6, x7, p95),
        p97 == mul_chain(x, x1, x2, x3, x4, x5, x6, x7, p96),
        p98 == mul_chain(x, x1, x2, x3, x4, x5, x6, x7, p97),
        p99 == mul_chain(x, x1, x2, x3, x4, x5, x6, x7, p98),
        p100 == mul_chain(x, x1, x2, x3, x4, x5, x6, x7, p99),
        p101 == mul_chain(x, x1, x2, x3, x4, x5, x6, x7, p100),
        p102 == mul_chain(x, x1, x2, x3, x4, x5, x6, x7, p101),
        p103 == mul_chain(x, x1, x2, x3, x4, x5, x6, x7, p102),
        p104 == mul_chain(x, x1, x2, x3, x4, x5, x6, x7, p103),
        p105 == mul_chain(x, x1, x2, x3, x4, x5, x6, x7, p104),
        p106 == mul_chain(x, x1, x2, x3, x4, x5, x6, x7, p105),
        p107 == mul_chain(x, x1, x2, x3, x4, x5, x6, x7, p106),
        p108 == mul_chain(x, x1, x2, x3, x4, x5, x6, x7, p107),
        p109 == mul_chain(x, x1, x2, x3, x4, x5, x6, x7, p108),
        p110 == mul_chain(x, x1, x2, x3, x4, x5, x6, x7, p109),
        p111 == mul_chain(x, x1, x2, x3, x4, x5, x6, x7, p110),
        p112 == mul_chain(x, x1, x2, x3, x4, x5, x6, x7, p111),
        p113 == mul_chain(x, x1, x2, x3, x4, x5, x6, x7, p112),
        p114 == mul_chain(x, x1, x2, x3, x4, x5, x6, x7, p113),
        p115 == mul_chain(x, x1, x2, x3, x4, x5, x6, x7, p114),
        p116 == mul_chain(x, x1, x2, x3, x4, x5, x6, x7, p115),
        p117 == mul_chain(x, x1, x2, x3, x4, x5, x6, x7, p116),
        p118 == mul_chain(x, x1, x2, x3, x4, x5, x6, x7, p117),
        p119 == mul_chain(x, x1, x2, x3, x4, x5, x6, x7, p118),
        p120 == mul_chain(x, x1, x2, x3, x4, x5, x6, x7, p119),
        p121 == mul_chain(x, x1, x2, x3, x4, x5, x6, x7, p120),
        p122 == mul_chain(x, x1, x2, x3, x4, x5, x6, x7, p121),
        p123 == mul_chain(x, x1, x2, x3, x4, x5, x6, x7, p122),
        p124 == mul_chain(x, x1, x2, x3, x4, x5, x6, x7, p123),
        p125 == mul_chain(x, x1, x2, x3, x4, x5, x6, x7, p124),
        p126 == mul_chain(x, x1, x2, x3, x4, x5, x6, x7, p125),
        p127 == mul_chain(x, x1, x2, x3, x4, x5, x6, x7, p126),
        p128 == mul_chain(x, x1, x2, x3, x4, x5, x6, x7, p127),
        p129 == mul_chain(x, x1, x2, x3, x4, x5, x6, x7, p128),
        p130 == mul_chain(x, x1, x2, x3, x4, x5, x6, x7, p129),
        p131 == mul_chain(x, x1, x2, x3, x4, x5, x6, x7, p130),
        p132 == mul_chain(x, x1, x2, x3, x4, x5, x6, x7, p131),
        p133 == mul_chain(x, x1, x2, x3, x4, x5, x6, x7, p132),
        p134 == mul_chain(x, x1, x2, x3, x4, x5, x6, x7, p133),
        p135 == mul_chain(x, x1, x2, x3, x4, x5, x6, x7, p134),
        p136 == mul_chain(x, x1, x2, x3, x4, x5, x6, x7, p135),
        p137 == mul_chain(x, x1, x2, x3, x4, x5, x6, x7, p136),
        p138 == mul_chain(x, x1, x2, x3, x4, x5, x6, x7, p137),
        p139 == mul_chain(x, x1, x2, x3, x4, x5, x6, x7, p138),
        p140 == mul_chain(x, x1, x2, x3, x4, x5, x6, x7, p139),
        p141 == mul_chain(x, x1, x2, x3, x4, x5, x6, x7, p140),
        p142 == mul_chain(x, x1, x2, x3, x4, x5, x6, x7, p141),
        p143 == mul_chain(x, x1, x2, x3, x4, x5, x6, x7, p142),
        p144 == mul_chain(x, x1, x2, x3, x4, x5, x6, x7, p143),
        p145 == mul_chain(x, x1, x2, x3, x4, x5, x6, x7, p144),
        p146 == mul_chain(x, x1, x2, x3, x4, x5, x6, x7, p145),
        p147 == mul_chain(x, x1, x2, x3, x4, x5, x6, x7, p146),
        p148 == mul_chain(x, x1, x2, x3, x4, x5, x6, x7, p147),
        p149 == mul_chain(x, x1, x2, x3, x4, x5, x6, x7, p148),
        p150 == mul_chain(x, x1, x2, x3, x4, x5, x6, x7, p149),
        p151 == mul_chain(x, x1, x2, x3, x4, x5, x6, x7, p150),
        p152 == mul_chain(x, x1, x2, x3, x4, x5, x6, x7, p151),
        p153 == mul_chain(x, x1, x2, x3, x4, x5, x6, x7, p152),
        p154 == mul_chain(x, x1, x2, x3, x4, x5, x6, x7, p153),
        p155 == mul_chain(x, x1, x2, x3, x4, x5, x6, x7, p154),
        p156 == mul_chain(x, x1, x2, x3, x4, x5, x6, x7, p155),
        p157 == mul_chain(x, x1, x2, x3, x4, x5, x6, x7, p156),
        p158 == mul_chain(x, x1, x2, x3, x4, x5, x6, x7, p157),
        p159 == mul_chain(x, x1, x2, x3, x4, x5, x6, x7, p158),
        p160 == mul_chain(x, x1, x2, x3, x4, x5, x6, x7, p159),
        p161 == mul_chain(x, x1, x2, x3, x4, x5, x6, x7, p160),
        p162 == mul_chain(x, x1, x2, x3, x4, x5, x6, x7, p161),
        p163 == mul_chain(x, x1, x2, x3, x4, x5, x6, x7, p162),
        p164 == mul_chain(x, x1, x2, x3, x4, x5, x6, x7, p163),
        p165 == mul_chain(x, x1, x2, x3, x4, x5, x6, x7, p164),
        p166 == mul_chain(x, x1, x2, x3, x4, x5, x6, x7, p165),
        p167 == mul_chain(x, x1, x2, x3, x4, x5, x6, x7, p166),
        p168 == mul_chain(x, x1, x2, x3, x4, x5, x6, x7, p167),
        p169 == mul_chain(x, x1, x2, x3, x4, x5, x6, x7, p168),
        p170 == mul_chain(x, x1, x2, x3, x4, x5, x6, x7, p169),
        p171 == mul_chain(x, x1, x2, x3, x4, x5, x6, x7, p170),
        p172 == mul_chain(x, x1, x2, x3, x4, x5, x6, x7, p171),
        p173 == mul_chain(x, x1, x2, x3, x4, x5, x6, x7, p172),
        p174 == mul_chain(x, x1, x2, x3, x4, x5, x6, x7, p173),
        p175 == mul_chain(x, x1, x2, x3, x4, x5, x6, x7, p174),
        p176 == mul_chain(x, x1, x2, x3, x4, x5, x6, x7, p175),
        p177 == mul_chain(x, x1, x2, x3, x4, x5, x6, x7, p176),
        p178 == mul_chain(x, x1, x2, x3, x4, x5, x6, x7, p177),
        p179 == mul_chain(x, x1, x2, x3, x4, x5, x6, x7, p178),
        p180 == mul_chain(x, x1, x2, x3, x4, x5, x6, x7, p179),
        p181 == mul_chain(x, x1, x2, x3, x4, x5, x6, x7, p180),
        p182 == mul_chain(x, x1, x2, x3, x4, x5, x6, x7, p181),
        p183 == mul_chain(x, x1, x2, x3, x4, x5, x6, x7, p182),
        p184 == mul_chain(x, x1, x2, x3, x4, x5, x6, x7, p183),
        p185 == mul_chain(x, x1, x2, x3, x4, x5, x6, x7, p184),
        p186 == mul_chain(x, x1, x2, x3, x4, x5, x6, x7, p185),
        p187 == mul_chain(x, x1, x2, x3, x4, x5, x6, x7, p186),
        p188 == mul_chain(x, x1, x2, x3, x4, x5, x6, x7, p187),
        p189 == mul_chain(x, x1, x2, x3, x4, x5, x6, x7, p188),
        p190 == mul_chain(x, x1, x2, x3, x4, x5, x6, x7, p189),
        p191 == mul_chain(x, x1, x2, x3, x4, x5, x6, x7, p190),
        p192 == mul_chain(x, x1, x2, x3, x4, x5, x6, x7, p191),
        p193 == mul_chain(x, x1, x2, x3, x4, x5, x6, x7, p192),
        p194 == mul_chain(x, x1, x2, x3, x4, x5, x6, x7, p193),
        p195 == mul_chain(x, x1, x2, x3, x4, x5, x6, x7, p194),
        p196 == mul_chain(x, x1, x2, x3, x4, x5, x6, x7, p195),
        p197 == mul_chain(x, x1, x2, x3, x4, x5, x6, x7, p196),
        p198 == mul_chain(x, x1, x2, x3, x4, x5, x6, x7, p197),
        p199 == mul_chain(x, x1, x2, x3, x4, x5, x6, x7, p198),
        p200 == mul_chain(x, x1, x2, x3, x4, x5, x6, x7, p199),
        p201 == mul_chain(x, x1, x2, x3, x4, x5, x6, x7, p200),
        p202 == mul_chain(x, x1, x2, x3, x4, x5, x6, x7, p201),
        p203 == mul_chain(x, x1, x2, x3, x4, x5, x6, x7, p202),
        p204 == mul_chain(x, x1, x2, x3, x4, x5, x6, x7, p203),
        p205 == mul_chain(x, x1, x2, x3, x4, x5, x6, x7, p204),
        p206 == mul_chain(x, x1, x2, x3, x4, x5, x6, x7, p205),
        p207 == mul_chain(x, x1, x2, x3, x4, x5, x6, x7, p206),
        p208 == mul_chain(x, x1, x2, x3, x4, x5, x6, x7, p207),
        p209 == mul_chain(x, x1, x2, x3, x4, x5, x6, x7, p208),
        p210 == mul_chain(x, x1, x2, x3, x4, x5, x6, x7, p209),
        p211 == mul_chain(x, x1, x2, x3, x4, x5, x6, x7, p210),
        p212 == mul_chain(x, x1, x2, x3, x4, x5, x6, x7, p211),
        p213 == mul_chain(x, x1, x2, x3, x4, x5, x6, x7, p212),
        p214 == mul_chain(x, x1, x2, x3, x4, x5, x6, x7, p213),
        p215 == mul_chain(x, x1, x2, x3, x4, x5, x6, x7, p214),
        p216 == mul_chain(x, x1, x2, x3, x4, x5, x6, x7, p215),
        p217 == mul_chain(x, x1, x2, x3, x4, x5, x6, x7, p216),
        p218 == mul_chain(x, x1, x2, x3, x4, x5, x6, x7, p217),
        p219 == mul_chain(x, x1, x2, x3, x4, x5, x6, x7, p218),
        p220 == mul_chain(x, x1, x2, x3, x4, x5, x6, x7, p219),
        p221 == mul_chain(x, x1, x2, x3, x4, x5, x6, x7, p220),
        p222 == mul_chain(x, x1, x2, x3, x4, x5, x6, x7, p221),
        p223 == mul_chain(x, x1, x2, x3, x4, x5, x6, x7, p222),
        p224 == mul_chain(x, x1, x2, x3, x4, x5, x6, x7, p223),
        p225 == mul_chain(x, x1, x2, x3, x4, x5, x6, x7, p224),
        p226 == mul_chain(x, x1, x2, x3, x4, x5, x6, x7, p225),
        p227 == mul_chain(x, x1, x2, x3, x4, x5, x6, x7, p226),
        p228 == mul_chain(x, x1, x2, x3, x4, x5, x6, x7, p227),
        p229 == mul_chain(x, x1, x2, x3, x4, x5, x6, x7, p228),
        p230 == mul_chain(x, x1, x2, x3, x4, x5, x6, x7, p229),
        p231 == mul_chain(x, x1, x2, x3, x4, x5, x6, x7, p230),
        p232 == mul_chain(x, x1, x2, x3, x4, x5, x6, x7, p231),
        p233 == mul_chain(x, x1, x2, x3, x4, x5, x6, x7, p232),
        p234 == mul_chain(x, x1, x2, x3, x4, x5, x6, x7, p233),
        p235 == mul_chain(x, x1, x2, x3, x4, x5, x6, x7, p234),
        p236 == mul_chain(x, x1, x2, x3, x4, x5, x6, x7, p235),
        p237 == mul_chain(x, x1, x2, x3, x4, x5, x6, x7, p236),
        p238 == mul_chain(x, x1, x2, x3, x4, x5, x6, x7, p237),
        p239 == mul_chain(x, x1, x2, x3, x4, x5, x6, x7, p238),
        p240 == mul_chain(x, x1, x2, x3, x4, x5, x6, x7, p239),
        p241 == mul_chain(x, x1, x2, x3, x4, x5, x6, x7, p240),
        p242 == mul_chain(x, x1, x2, x3, x4, x5, x6, x7, p241),
        p243 == mul_chain(x, x1, x2, x3, x4, x5, x6, x7, p242),
        p244 == mul_chain(x, x1, x2, x3, x4, x5, x6, x7, p243),
        p245 == mul_chain(x, x1, x2, x3, x4, x5, x6, x7, p244),
        p246 == mul_chain(x, x1, x2, x3, x4, x5, x6, x7, p245),
        p247 == mul_chain(x, x1, x2, x3, x4, x5, x6, x7, p246),
        p248 == mul_chain(x, x1, x2, x3, x4, x5, x6, x7, p247),
        p249 == mul_chain(x, x1, x2, x3, x4, x5, x6, x7, p248),
        p250 == mul_chain(x, x1, x2, x3, x4, x5, x6, x7, p249),
        p251 == mul_chain(x, x1, x2, x3, x4, x5, x6, x7, p250),
        p252 == mul_chain(x, x1, x2, x3, x4, x5, x6, x7, p251),
        p253 == mul_chain(x, x1, x2, x3, x4, x5, x6, x7, p252),
        p254 == mul_chain(x, x1, x2, x3, x4, x5, x6, x7, p253),
    ensures
        x != 0u8 ==> mul_chain(x, x1, x2, x3, x4, x5, x6, x7, p254) == 1u8,
        x == 0u8 ==> p254 == 0u8,
{
}

/// Commutativity of the chain product.
pub proof fn lemma_chain_comm(
    a: u8,
    a1: u8,
    a2: u8,
    a3: u8,
    a4: u8,
    a5: u8,
    a6: u8,
    a7: u8,
    b: u8,
    b1: u8,
    b2: u8,
    b3: u8,
    b4: u8,
    b5: u8,
    b6: u8,
    b7: u8,
)
    by (bit_vector)
    requires
        a1 == xt(a),
        a2 == xt(a1),
        a3 == xt(a2),
        a4 == xt(a3),
        a5 == xt(a4),
        a6 == xt(a5),
        a7 == xt(a6),
        b1 == xt(b),
        b2 == xt(b1),
        b3 == xt(b2),
        b4 == xt(b3),
        b5 == xt(b4),
        b6 == xt(b5),
        b7 == xt(b6),
    ensures
        mul_chain(a, a1, a2, a3, a4, a5, a6, a7, b) == mul_chain(b, b1, b2, b3, b4, b5, b6, b7, a),
        mul_chain(a, a1, a2, a3, a4, a5, a6, a7, 1u8) == a,
        mul_chain(a, a1, a2, a3, a4, a5, a6, a7, 0u8) == 0u8,
        a == 0u8 ==> mul_chain(a, a1, a2, a3, a4, a5, a6, a7, b) == 0u8,
        mul_chain(a, a1, a2, a3, a4, a5, a6, a7, 2u8) == a1,
        mul_chain(a, a1, a2, a3, a4, a5, a6, a7, 3u8) == a1 ^ a,
{
}

/// The chain of a byte is its successive doublings.
pub proof fn lemma_chain_steps(a: u8)
    ensures
        xt_pow(a, 1) == xt(a),
        xt_pow(a, 2) == xt(xt_pow(a, 1)),
        xt_pow(a, 3) == xt(xt_pow(a, 2)),
        xt_pow(a, 4) == xt(xt_pow(a, 3)),
        xt_pow(a, 5) == xt(xt_pow(a, 4)),
        xt_pow(a, 6) == xt(xt_pow(a, 5)),
        xt_pow(a, 7) == xt(xt_pow(a, 6)),
{
    reveal_with_fuel(xt_pow, 8);
}

/// GF(2^8) multiplication commutes, has 1 as unit and 0 as zero, doubling
/// is `xt`, and tripling is doubling plus the byte.
pub proof fn lemma_gf8_mul_laws(a: u8, b: u8)
    ensures
        gf8_mul(a, b) == gf8_mul(b, a),
        gf8_mul(a, 1) == a,
        gf8_mul(a, 0) == 0,
        gf8_mul(0, b) == 0,
        gf8_mul(a, 2) == xt(a),
        gf8_mul(a, 3) == xt(a) ^ a,
{
    lemma_gf8_mul_chain(a, 2);
    lemma_gf8_mul_chain(a, 3);
    lemma_gf8_mul_chain(a, b);
    lemma_gf8_mul_chain(b, a);
    lemma_gf8_mul_chain(a, 1);
    lemma_gf8_mul_chain(a, 0);
    lemma_gf8_mul_chain(0, b);
    lemma_chain_steps(a);
    lemma_chain_steps(b);
    lemma_chain_steps(0);
    lemma_chain_comm(
        a,
        xt_pow(a, 1),
        xt_pow(a, 2),
        xt_pow(a, 3),
        xt_pow(a, 4),
        xt_pow(a, 5),
        xt_pow(a, 6),
        xt_pow(a, 7),
        b,
        xt_pow(b, 1),
        xt_pow(b, 2),
        xt_pow(b, 3),
        xt_pow(b, 4),
        xt_pow(b, 5),
        xt_pow(b, 6),
        xt_pow(b, 7),
    );
    lemma_chain_comm(
        0,
        xt_pow(0, 1),
        xt_pow(0, 2),
        xt_pow(0, 3),
        xt_pow(0, 4),
        xt_pow(0, 5),
        xt_pow(0, 6),
        xt_pow(0, 7),
        b,
        xt_pow(b, 1),
        xt_pow(b, 2),
        xt_pow(b, 3),
        xt_pow(b, 4),
        xt_pow(b, 5),
        xt_pow(b, 6),
        xt_pow(b, 7),
    );
}

/// Every nonzero byte times its inverse `x^254` is one; the inverse of zero
/// is zero.
/// One more power of `x` is `x` times the last, through the chain of `x`.
pub proof fn lemma_pow_step(x: u8, k: nat)
    ensures
        gf8_pow(x, k + 1) == mul_chain(
            x,
            xt_pow(x, 1),
            xt_pow(x, 2),
            xt_pow(x, 3),
            xt_pow(x, 4),
            xt_pow(x, 5),
            xt_pow(x, 6),
            xt_pow(x, 7),
            gf8_pow(x, k),
        ),
{
    lemma_gf8_mul_chain(x, gf8_pow(x, k));
}

#[verifier::spinoff_prover]
#[verifier::rlimit(100)]
pub proof fn lemma_gf8_inv(x: u8)
    ensures
        x != 0 ==> gf8_mul(x, gf8_inv(x)) == 1,
        x == 0 ==> gf8_inv(x) == 0,
{
    lemma_chain_steps(x);
    lemma_gf8_mul_laws(x, 1);
    lemma_gf8_mul_chain(x, gf8_pow(x, 254));
    assert(gf8_pow(x, 0) == 1);
    assert(gf8_pow(x, 1) == x);
    lemma_pow_step(x, 1);
    lemma_pow_step(x, 2);
    lemma_pow_step(x, 3);
    lemma_pow_step(x, 4);
    lemma_pow_step(x, 5);
    lemma_pow_step(x, 6);
    lemma_pow_step(x, 7);
    lemma_pow_step(x, 8);
    lemma_pow_step(x, 9);
    lemma_pow_step(x, 10);
    lemma_pow_step(x, 11);
    lemma_pow_step(x, 12);
    lemma_pow_step(x, 13);
    lemma_pow_step(x, 14);
    lemma_pow_step(x, 15);
    lemma_pow_step(x, 16);
    lemma_pow_step(x, 17);
    lemma_pow_step(x, 18);
    lemma_pow_step(x, 19);
    lemma_pow_step(x, 20);
    lemma_pow_step(x, 21);
    lemma_pow_step(x, 22);
    lemma_pow_step(x, 23);
    lemma_pow_step(x, 24);
    lemma_pow_step(x, 25);
    lemma_pow_step(x, 26);
    lemma_pow_step(x, 27);
    lemma_pow_step(x, 28);
    lemma_pow_step(x, 29);
    lemma_pow_step(x, 30);
    lemma_pow_step(x, 31);
    lemma_pow_step(x, 32);
    lemma_pow_step(x, 33);
    lemma_pow_step(x, 34);
    lemma_pow_step(x, 35);
    lemma_pow_step(x, 36);
    lemma_pow_step(x, 37);
    lemma_pow_step(x, 38);
    lemma_pow_step(x, 39);
    lemma_pow_step(x, 40);
    lemma_pow_step(x, 41);
    lemma_pow_step(x, 42);
    lemma_pow_step(x, 43);
    lemma_pow_step(x, 44);
    lemma_pow_step(x, 45);
    lemma_pow_step(x, 46);
    lemma_pow_step(x, 47);
    lemma_pow_step(x, 48);
    lemma_pow_step(x, 49);
    lemma_pow_step(x, 50);
    lemma_pow_step(x, 51);
    lemma_pow_step(x, 52);
    lemma_pow_step(x, 53);
    lemma_pow_step(x, 54);
    lemma_pow_step(x, 55);
    lemma_pow_step(x, 56);
    lemma_pow_step(x, 57);
    lemma_pow_step(x, 58);
    lemma_pow_step(x, 59);
    lemma_pow_step(x, 60);
    lemma_pow_step(x, 61);
    lemma_pow_step(x, 62);
    lemma_pow_step(x, 63);
    lemma_pow_step(x, 64);
    lemma_pow_step(x, 65);
    lemma_pow_step(x, 66);
    lemma_pow_step(x, 67);
    lemma_pow_step(x, 68);
    lemma_pow_step(x, 69);
    lemma_pow_step(x, 70);
    lemma_pow_step(x, 71);
    lemma_pow_step(x, 72);
    lemma_pow_step(x, 73);
    lemma_pow_step(x, 74);
    lemma_pow_step(x, 75);
    lemma_pow_step(x, 76);
    lemma_pow_step(x, 77);
    lemma_pow_step(x, 78);
    lemma_pow_step(x, 79);
    lemma_pow_step(x, 80);
    lemma_pow_step(x, 81);
    lemma_pow_step(x, 82);
    lemma_pow_step(x, 83);
    lemma_pow_step(x, 84);
    lemma_pow_step(x, 85);
    lemma_pow_step(x, 86);
    lemma_pow_step(x, 87);
    lemma_pow_step(x, 88);
    lemma_pow_step(x, 89);
    lemma_pow_step(x, 90);
    lemma_pow_step(x, 91);
    lemma_pow_step(x, 92);
    lemma_pow_step(x, 93);
    lemma_pow_step(x, 94);
    lemma_pow_step(x, 95);
    lemma_pow_step(x, 96);
    lemma_pow_step(x, 97);
    lemma_pow_step(x, 98);
    lemma_pow_step(x, 99);
    lemma_pow_step(x, 100);
    lemma_pow_step(x, 101);
    lemma_pow_step(x, 102);
    lemma_pow_step(x, 103);
    lemma_pow_step(x, 104);
    lemma_pow_step(x, 105);
    lemma_pow_step(x, 106);
    lemma_pow_step(x, 107);
    lemma_pow_step(x, 108);
    lemma_pow_step(x, 109);
    lemma_pow_step(x, 110);
    lemma_pow_step(x, 111);
    lemma_pow_step(x, 112);
    lemma_pow_step(x, 113);
    lemma_pow_step(x, 114);
    lemma_pow_step(x, 115);
    lemma_pow_step(x, 116);
    lemma_pow_step(x, 117);
    lemma_pow_step(x, 118);
    lemma_pow_step(x, 119);
    lemma_pow_step(x, 120);
    lemma_pow_step(x, 121);
    lemma_pow_step(x, 122);
    lemma_pow_step(x, 123);
    lemma_pow_step(x, 124);
    lemma_pow_step(x, 125);
    lemma_pow_step(x, 126);
    lemma_pow_step(x, 127);
    lemma_pow_step(x, 128);
    lemma_pow_step(x, 129);
    lemma_pow_step(x, 130);
    lemma_pow_step(x, 131);
    lemma_pow_step(x, 132);
    lemma_pow_step(x, 133);
    lemma_pow_step(x, 134);
    lemma_pow_step(x, 135);
    lemma_pow_step(x, 136);
    lemma_pow_step(x, 137);
    lemma_pow_step(x, 138);
    lemma_pow_step(x, 139);
    lemma_pow_step(x, 140);
    lemma_pow_step(x, 141);
    lemma_pow_step(x, 142);
    lemma_pow_step(x, 143);
    lemma_pow_step(x, 144);
    lemma_pow_step(x, 145);
    lemma_pow_step(x, 146);
    lemma_pow_step(x, 147);
    lemma_pow_step(x, 148);
    lemma_pow_step(x, 149);
    lemma_pow_step(x, 150);
    lemma_pow_step(x, 151);
    lemma_pow_step(x, 152);
    lemma_pow_step(x, 153);
    lemma_pow_step(x, 154);
    lemma_pow_step(x, 155);
    lemma_pow_step(x, 156);
    lemma_pow_step(x, 157);
    lemma_pow_step(x, 158);
    lemma_pow_step(x, 159);
    lemma_pow_step(x, 160);
    lemma_pow_step(x, 161);
    lemma_pow_step(x, 162);
    lemma_pow_step(x, 163);
    lemma_pow_step(x, 164);
    lemma_pow_step(x, 165);
    lemma_pow_step(x, 166);
    lemma_pow_step(x, 167);
    lemma_pow_step(x, 168);
    lemma_pow_step(x, 169);
    lemma_pow_step(x, 170);
    lemma_pow_step(x, 171);
    lemma_pow_step(x, 172);
    lemma_pow_step(x, 173);
    lemma_pow_step(x, 174);
    lemma_pow_step(x, 175);
    lemma_pow_step(x, 176);
    lemma_pow_step(x, 177);
    lemma_pow_step(x, 178);
    lemma_pow_step(x, 179);
    lemma_pow_step(x, 180);
    lemma_pow_step(x, 181);
    lemma_pow_step(x, 182);
    lemma_pow_step(x, 183);
    lemma_pow_step(x, 184);
    lemma_pow_step(x, 185);
    lemma_pow_step(x, 186);
    lemma_pow_step(x, 187);
    lemma_pow_step(x, 188);
    lemma_pow_step(x, 189);
    lemma_pow_step(x, 190);
    lemma_pow_step(x, 191);
    lemma_pow_step(x, 192);
    lemma_pow_step(x, 193);
    lemma_pow_step(x, 194);
    lemma_pow_step(x, 195);
    lemma_pow_step(x, 196);
    lemma_pow_step(x, 197);
    lemma_pow_step(x, 198);
    lemma_pow_step(x, 199);
    lemma_pow_step(x, 200);
    lemma_pow_step(x, 201);
    lemma_pow_step(x, 202);
    lemma_pow_step(x, 203);
    lemma_pow_step(x, 204);
    lemma_pow_step(x, 205);
    lemma_pow_step(x, 206);
    lemma_pow_step(x, 207);
    lemma_pow_step(x, 208);
    lemma_pow_step(x, 209);
    lemma_pow_step(x, 210);
    lemma_pow_step(x, 211);
    lemma_pow_step(x, 212);
    lemma_pow_step(x, 213);
    lemma_pow_step(x, 214);
    lemma_pow_step(x, 215);
    lemma_pow_step(x, 216);
    lemma_pow_step(x, 217);
    lemma_pow_step(x, 218);
    lemma_pow_step(x, 219);
    lemma_pow_step(x, 220);
    lemma_pow_step(x, 221);
    lemma_pow_step(x, 222);
    lemma_pow_step(x, 223);
    lemma_pow_step(x, 224);
    lemma_pow_step(x, 225);
    lemma_pow_step(x, 226);
    lemma_pow_step(x, 227);
    lemma_pow_step(x, 228);
    lemma_pow_step(x, 229);
    lemma_pow_step(x, 230);
    lemma_pow_step(x, 231);
    lemma_pow_step(x, 232);
    lemma_pow_step(x, 233);
    lemma_pow_step(x, 234);
    lemma_pow_step(x, 235);
    lemma_pow_step(x, 236);
    lemma_pow_step(x, 237);
    lemma_pow_step(x, 238);
    lemma_pow_step(x, 239);
    lemma_pow_step(x, 240);
    lemma_pow_step(x, 241);
    lemma_pow_step(x, 242);
    lemma_pow_step(x, 243);
    lemma_pow_step(x, 244);
    lemma_pow_step(x, 245);
    lemma_pow_step(x, 246);
    lemma_pow_step(x, 247);
    lemma_pow_step(x, 248);
    lemma_pow_step(x, 249);
    lemma_pow_step(x, 250);
    lemma_pow_step(x, 251);
    lemma_pow_step(x, 252);
    lemma_pow_step(x, 253);
    lemma_powers_cycle(
        x,
        xt_pow(x, 1),
        xt_pow(x, 2),
        xt_pow(x, 3),
        xt_pow(x, 4),
        xt_pow(x, 5),
        xt_pow(x, 6),
        xt_pow(x, 7),
        gf8_pow(x, 1),
        gf8_pow(x, 2),
        gf8_pow(x, 3),
        gf8_pow(x, 4),
        gf8_pow(x, 5),
        gf8_pow(x, 6),
        gf8_pow(x, 7),
        gf8_pow(x, 8),
        gf8_pow(x, 9),
        gf8_pow(x, 10),
        gf8_pow(x, 11),
        gf8_pow(x, 12),
        gf8_pow(x, 13),
        gf8_pow(x, 14),
        gf8_pow(x, 15),
        gf8_pow(x, 16),
        gf8_pow(x, 17),
        gf8_pow(x, 18),
        gf8_pow(x, 19),
        gf8_pow(x, 20),
        gf8_pow(x, 21),
        gf8_pow(x, 22),
        gf8_pow(x, 23),
        gf8_pow(x, 24),
        gf8_pow(x, 25),
        gf8_pow(x, 26),
        gf8_pow(x, 27),
        gf8_pow(x, 28),
        gf8_pow(x, 29),
        gf8_pow(x, 30),
        gf8_pow(x, 31),
        gf8_pow(x, 32),
        gf8_pow(x, 33),
        gf8_pow(x, 34),
        gf8_pow(x, 35),
        gf8_pow(x, 36),
        gf8_pow(x, 37),
        gf8_pow(x, 38),
        gf8_pow(x, 39),
        gf8_pow(x, 40),
        gf8_pow(x, 41),
        gf8_pow(x, 42),
        gf8_pow(x, 43),
        gf8_pow(x, 44),
        gf8_pow(x, 45),
        gf8_pow(x, 46),
        gf8_pow(x, 47),
        gf8_pow(x, 48),
        gf8_pow(x, 49),
        gf8_pow(x, 50),
        gf8_pow(x, 51),
        gf8_pow(x, 52),
        gf8_pow(x, 53),
        gf8_pow(x, 54),
        gf8_pow(x, 55),
        gf8_pow(x, 56),
        gf8_pow(x, 57),
        gf8_pow(x, 58),
        gf8_pow(x, 59),
        gf8_pow(x, 60),
        gf8_pow(x, 61),
        gf8_pow(x, 62),
        gf8_pow(x, 63),
        gf8_pow(x, 64),
        gf8_pow(x, 65),
        gf8_pow(x, 66),
        gf8_pow(x, 67),
        gf8_pow(x, 68),
        gf8_pow(x, 69),
        gf8_pow(x, 70),
        gf8_pow(x, 71),
        gf8_pow(x, 72),
        gf8_pow(x, 73),
        gf8_pow(x, 74),
        gf8_pow(x, 75),
        gf8_pow(x, 76),
        gf8_pow(x, 77),
        gf8_pow(x, 78),
        gf8_pow(x, 79),
        gf8_pow(x, 80),
        gf8_pow(x, 81),
        gf8_pow(x, 82),
        gf8_pow(x, 83),
        gf8_pow(x, 84),
        gf8_pow(x, 85),
        gf8_pow(x, 86),
        gf8_pow(x, 87),
        gf8_pow(x, 88),
        gf8_pow(x, 89),
        gf8_pow(x, 90),
        gf8_pow(x, 91),
        gf8_pow(x, 92),
        gf8_pow(x, 93),
        gf8_pow(x, 94),
        gf8_pow(x, 95),
        gf8_pow(x, 96),
        gf8_pow(x, 97),
        gf8_pow(x, 98),
        gf8_pow(x, 99),
        gf8_pow(x, 100),
        gf8_pow(x, 101),
        gf8_pow(x, 102),
        gf8_pow(x, 103),
        gf8_pow(x, 104),
        gf8_pow(x, 105),
        gf8_pow(x, 106),
        gf8_pow(x, 107),
        gf8_pow(x, 108),
        gf8_pow(x, 109),
        gf8_pow(x, 110),
        gf8_pow(x, 111),
        gf8_pow(x, 112),
        gf8_pow(x, 113),
        gf8_pow(x, 114),
        gf8_pow(x, 115),
        gf8_pow(x, 116),
        gf8_pow(x, 117),
        gf8_pow(x, 118),
        gf8_pow(x, 119),
        gf8_pow(x, 120),
        gf8_pow(x, 121),
        gf8_pow(x, 122),
        gf8_pow(x, 123),
        gf8_pow(x, 124),
        gf8_pow(x, 125),
        gf8_pow(x, 126),
        gf8_pow(x, 127),
        gf8_pow(x, 128),
        gf8_pow(x, 129),
        gf8_pow(x, 130),
        gf8_pow(x, 131),
        gf8_pow(x, 132),
        gf8_pow(x, 133),
        gf8_pow(x, 134),
        gf8_pow(x, 135),
        gf8_pow(x, 136),
        gf8_pow(x, 137),
        gf8_pow(x, 138),
        gf8_pow(x, 139),
        gf8_pow(x, 140),
        gf8_pow(x, 141),
        gf8_pow(x, 142),
        gf8_pow(x, 143),
        gf8_pow(x, 144),
        gf8_pow(x, 145),
        gf8_pow(x, 146),
        gf8_pow(x, 147),
        gf8_pow(x, 148),
        gf8_pow(x, 149),
        gf8_pow(x, 150),
        gf8_pow(x, 151),
        gf8_pow(x, 152),
        gf8_pow(x, 153),
        gf8_pow(x, 154),
        gf8_pow(x, 155),
        gf8_pow(x, 156),
        gf8_pow(x, 157),
        gf8_pow(x, 158),
        gf8_pow(x, 159),
        gf8_pow(x, 160),
        gf8_pow(x, 161),
        gf8_pow(x, 162),
        gf8_pow(x, 163),
        gf8_pow(x, 164),
        gf8_pow(x, 165),
        gf8_pow(x, 166),
        gf8_pow(x, 167),
        gf8_pow(x, 168),
        gf8_pow(x, 169),
        gf8_pow(x, 170),
        gf8_pow(x, 171),
        gf8_pow(x, 172),
        gf8_pow(x, 173),
        gf8_pow(x, 174),
        gf8_pow(x, 175),
        gf8_pow(x, 176),
        gf8_pow(x, 177),
        gf8_pow(x, 178),
        gf8_pow(x, 179),
        gf8_pow(x, 180),
        gf8_pow(x, 181),
        gf8_pow(x, 182),
        gf8_pow(x, 183),
        gf8_pow(x, 184),
        gf8_pow(x, 185),
        gf8_pow(x, 186),
        gf8_pow(x, 187),
        gf8_pow(x, 188),
        gf8_pow(x, 189),
        gf8_pow(x, 190),
        gf8_pow(x, 191),
        gf8_pow(x, 192),
        gf8_pow(x, 193),
        gf8_pow(x, 194),
        gf8_pow(x, 195),
        gf8_pow(x, 196),
        gf8_pow(x, 197),
        gf8_pow(x, 198),
        gf8_pow(x, 199),
        gf8_pow(x, 200),
        gf8_pow(x, 201),
        gf8_pow(x, 202),
        gf8_pow(x, 203),
        gf8_pow(x, 204),
        gf8_pow(x, 205),
        gf8_pow(x, 206),
        gf8_pow(x, 207),
        gf8_pow(x, 208),
        gf8_pow(x, 209),
        gf8_pow(x, 210),
        gf8_pow(x, 211),
        gf8_pow(x, 212),
        gf8_pow(x, 213),
        gf8_pow(x, 214),
        gf8_pow(x, 215),
        gf8_pow(x, 216),
        gf8_pow(x, 217),
        gf8_pow(x, 218),
        gf8_pow(x, 219),
        gf8_pow(x, 220),
        gf8_pow(x, 221),
        gf8_pow(x, 222),
        gf8_pow(x, 223),
        gf8_pow(x, 224),
        gf8_pow(x, 225),
        gf8_pow(x, 226),
        gf8_pow(x, 227),
        gf8_pow(x, 228),
        gf8_pow(x, 229),
        gf8_pow(x, 230),
        gf8_pow(x, 231),
        gf8_pow(x, 232),
        gf8_pow(x, 233),
        gf8_pow(x, 234),
        gf8_pow(x, 235),
        gf8_pow(x, 236),
        gf8_pow(x, 237),
        gf8_pow(x, 238),
        gf8_pow(x, 239),
        gf8_pow(x, 240),
        gf8_pow(x, 241),
        gf8_pow(x, 242),
        gf8_pow(x, 243),
        gf8_pow(x, 244),
        gf8_pow(x, 245),
        gf8_pow(x, 246),
        gf8_pow(x, 247),
        gf8_pow(x, 248),
        gf8_pow(x, 249),
        gf8_pow(x, 250),
        gf8_pow(x, 251),
        gf8_pow(x, 252),
        gf8_pow(x, 253),
        gf8_pow(x, 254),
    );
}


/// Two bytes are equal exactly when their XOR is zero.
pub proof fn lemma_xor_eq(a: u8, b: u8)
    by (bit_vector)
    ensures
        (a ^ b == 0u8) == (a == b),
{
}

/// The two equations `x * (x * y) = x` and `y * (x * y) = y` hold exactly
/// when `y` is the inverse of `x` (zero for zero): they pin the inverse.
pub proof fn lemma_gf8_inverse_pinned(x: u8, y: u8)
    ensures
        (gf8_mul(x, gf8_mul(x, y)) == x && gf8_mul(y, gf8_mul(x, y)) == y) <==> y == gf8_inv(x),
{
    let p = gf8_mul(x, y);
    let v = gf8_inv(x);
    lemma_gf8_inv(x);
    lemma_gf8_mul_laws(x, y);
    lemma_gf8_mul_laws(y, p);
    lemma_gf8_mul_laws(x, 1);
    lemma_gf8_mul_laws(v, 1);
    lemma_gf8_mul_laws(y, 0);
    lemma_gf8_mul_laws(0, y);
    lemma_chain_steps(x);
    lemma_gf8_mul_chain(x, p);
    lemma_gf8_mul_chain(x, 1);
    lemma_gf8_mul_chain(x, y);
    lemma_gf8_mul_chain(x, v);
    lemma_gf8_mul_chain(x, p ^ 1);
    lemma_gf8_mul_chain(x, y ^ v);
    let (x1, x2, x3, x4, x5, x6, x7) = (
        xt_pow(x, 1),
        xt_pow(x, 2),
        xt_pow(x, 3),
        xt_pow(x, 4),
        xt_pow(x, 5),
        xt_pow(x, 6),
        xt_pow(x, 7),
    );
    lemma_chain_linear_nzd(x, x1, x2, x3, x4, x5, x6, x7, p, 1);
    lemma_chain_linear_nzd(x, x1, x2, x3, x4, x5, x6, x7, y, v);
    lemma_chain_linear_nzd(x, x1, x2, x3, x4, x5, x6, x7, p ^ 1, 0);
    lemma_chain_linear_nzd(x, x1, x2, x3, x4, x5, x6, x7, y ^ v, 0);
    lemma_xor_eq(p, 1);
    lemma_xor_eq(y, v);
    lemma_xor_eq(gf8_mul(x, p), gf8_mul(x, 1));
    lemma_xor_eq(gf8_mul(x, y), gf8_mul(x, v));
    if x == 0 {
        assert(p == 0);
        assert(v == 0);
    } else {
        assert(gf8_mul(x, v) == 1);
        if gf8_mul(x, p) == x {
            assert(gf8_chain(x, p) == gf8_chain(x, 1));
            assert(gf8_chain(x, p ^ 1) == 0);
            assert(p == 1);
            assert(gf8_chain(x, y ^ v) == 0);
            assert(y == v);
        }
        if y == v {
            assert(p == 1);
        }
    }
}

/// Inversion in GF(2^8) (with `0 -> 0`) undoes itself: the inverse of the
/// inverse is the element.
pub proof fn lemma_gf8_inv_involution(x: u8)
    ensures
        gf8_inv(gf8_inv(x)) == x,
{
    let z = gf8_inv(x);
    lemma_gf8_inv(x);
    lemma_gf8_inv(z);
    if x != 0 {
        lemma_gf8_mul_laws(z, x);
        lemma_gf8_mul_laws(z, 1);
        lemma_gf8_mul_laws(x, 1);
        lemma_gf8_inverse_pinned(z, x);
    }
}

/// The chain product is linear in its multiplier: it maps XOR to XOR and
/// zero to zero.
pub proof fn lemma_chain_linear(
    a: u8,
    a1: u8,
    a2: u8,
    a3: u8,
    a4: u8,
    a5: u8,
    a6: u8,
    a7: u8,
    y: u8,
    z: u8,
)
    by (bit_vector)
    ensures
        mul_chain(a, a1, a2, a3, a4, a5, a6, a7, y ^ z) == mul_chain(a, a1, a2, a3, a4, a5, a6, a7, y)
            ^ mul_chain(a, a1, a2, a3, a4, a5, a6, a7, z),
        mul_chain(a, a1, a2, a3, a4, a5, a6, a7, 0) == 0,
{
}

/// Multiplying by a chain product of `b`s is the chain product of the
/// products of the `b`s.
pub proof fn lemma_chain_compose(
    a: u8,
    a1: u8,
    a2: u8,
    a3: u8,
    a4: u8,
    a5: u8,
    a6: u8,
    a7: u8,
    b0: u8,
    b1: u8,
    b2: u8,
    b3: u8,
    b4: u8,
    b5: u8,
    b6: u8,
    b7: u8,
    c: u8,
)
    ensures
        mul_chain(a, a1, a2, a3, a4, a5, a6, a7, mul_chain(b0, b1, b2, b3, b4, b5, b6, b7, c))
            == mul_chain(
            mul_chain(a, a1, a2, a3, a4, a5, a6, a7, b0),
            mul_chain(a, a1, a2, a3, a4, a5, a6, a7, b1),
            mul_chain(a, a1, a2, a3, a4, a5, a6, a7, b2),
            mul_chain(a, a1, a2, a3, a4, a5, a6, a7, b3),
            mul_chain(a, a1, a2, a3, a4, a5, a6, a7, b4),
            mul_chain(a, a1, a2, a3, a4, a5, a6, a7, b5),
            mul_chain(a, a1, a2, a3, a4, a5, a6, a7, b6),
            mul_chain(a, a1, a2, a3, a4, a5, a6, a7, b7),
            c,
        ),
{
    let s0 = if c & 1u8 == 1u8 { b0 } else { 0u8 };
    let s1 = if (c >> 1u8) & 1u8 == 1u8 { b1 } else { 0u8 };
    let s2 = if (c >> 2u8) & 1u8 == 1u8 { b2 } else { 0u8 };
    let s3 = if (c >> 3u8) & 1u8 == 1u8 { b3 } else { 0u8 };
    let s4 = if (c >> 4u8) & 1u8 == 1u8 { b4 } else { 0u8 };
    let s5 = if (c >> 5u8) & 1u8 == 1u8 { b5 } else { 0u8 };
    let s6 = if (c >> 6u8) & 1u8 == 1u8 { b6 } else { 0u8 };
    let s7 = if (c >> 7u8) & 1u8 == 1u8 { b7 } else { 0u8 };
    let t0 = s0;
    let t1 = t0 ^ s1;
    let t2 = t1 ^ s2;
    let t3 = t2 ^ s3;
    let t4 = t3 ^ s4;
    let t5 = t4 ^ s5;
    let t6 = t5 ^ s6;
    let t7 = t6 ^ s7;
    assert(mul_chain(b0, b1, b2, b3, b4, b5, b6, b7, c) == t7);
    lemma_chain_linear(a, a1, a2, a3, a4, a5, a6, a7, t0, s1);
    lemma_chain_linear(a, a1, a2, a3, a4, a5, a6, a7, t1, s2);
    lemma_chain_linear(a, a1, a2, a3, a4, a5, a6, a7, t2, s3);
    lemma_chain_linear(a, a1, a2, a3, a4, a5, a6, a7, t3, s4);
    lemma_chain_linear(a, a1, a2, a3, a4, a5, a6, a7, t4, s5);
    lemma_chain_linear(a, a1, a2, a3, a4, a5, a6, a7, t5, s6);
    lemma_chain_linear(a, a1, a2, a3, a4, a5, a6, a7, t6, s7);
}

/// Multiplying by a doubled byte doubles the product.
pub proof fn lemma_chain_xt(a: u8, a1: u8, a2: u8, a3: u8, a4: u8, a5: u8, a6: u8, a7: u8, z: u8)
    by (bit_vector)
    requires
        a1 == xt(a),
        a2 == xt(a1),
        a3 == xt(a2),
        a4 == xt(a3),
        a5 == xt(a4),
        a6 == xt(a5),
        a7 == xt(a6),
    ensures
        mul_chain(a, a1, a2, a3, a4, a5, a6, a7, xt(z)) == xt(
            mul_chain(a, a1, a2, a3, a4, a5, a6, a7, z),
        ),
{
}

/// `a * (2 z) = 2 (a * z)` in GF(2^8).
pub proof fn lemma_gf8_mul_xt(a: u8, z: u8)
    ensures
        gf8_mul(a, xt(z)) == xt(gf8_mul(a, z)),
{
    lemma_gf8_mul_chain(a, xt(z));
    lemma_gf8_mul_chain(a, z);
    lemma_chain_steps(a);
    lemma_chain_xt(
        a,
        xt_pow(a, 1),
        xt_pow(a, 2),
        xt_pow(a, 3),
        xt_pow(a, 4),
        xt_pow(a, 5),
        xt_pow(a, 6),
        xt_pow(a, 7),
        z,
    );
}

/// Doubling a product `i` times doubles the second factor `i` times.
pub proof fn lemma_gf8_mul_xt_pow(a: u8, b: u8, i: nat)
    ensures
        xt_pow(gf8_mul(a, b), i) == gf8_mul(a, xt_pow(b, i)),
    decreases i,
{
    if i > 0 {
        lemma_gf8_mul_xt_pow(a, b, (i - 1) as nat);
        lemma_gf8_mul_xt(a, xt_pow(b, (i - 1) as nat));
    }
}

/// GF(2^8) is a field: multiplication is commutative and associative,
/// distributes over XOR, has unit 1 and absorbing 0.
pub proof fn lemma_gf8_field_laws(a: u8, b: u8, c: u8)
    ensures
        gf8_mul(a, b) == gf8_mul(b, a),
        gf8_mul(gf8_mul(a, b), c) == gf8_mul(a, gf8_mul(b, c)),
        gf8_mul(a, b ^ c) == gf8_mul(a, b) ^ gf8_mul(a, c),
        gf8_mul(a, 1) == a,
        gf8_mul(a, 0) == 0,
{
    lemma_gf8_mul_laws(a, b);
    lemma_chain_steps(a);
    lemma_chain_steps(b);
    let ab = gf8_mul(a, b);
    lemma_chain_steps(ab);
    // distributivity
    lemma_gf8_mul_chain(a, b ^ c);
    lemma_gf8_mul_chain(a, b);
    lemma_gf8_mul_chain(a, c);
    lemma_chain_linear(
        a,
        xt_pow(a, 1),
        xt_pow(a, 2),
        xt_pow(a, 3),
        xt_pow(a, 4),
        xt_pow(a, 5),
        xt_pow(a, 6),
        xt_pow(a, 7),
        b,
        c,
    );
    // associativity
    let bc = gf8_mul(b, c);
    lemma_gf8_mul_chain(b, c);
    lemma_gf8_mul_chain(a, bc);
    lemma_gf8_mul_chain(ab, c);
    lemma_chain_compose(
        a,
        xt_pow(a, 1),
        xt_pow(a, 2),
        xt_pow(a, 3),
        xt_pow(a, 4),
        xt_pow(a, 5),
        xt_pow(a, 6),
        xt_pow(a, 7),
        b,
        xt_pow(b, 1),
        xt_pow(b, 2),
        xt_pow(b, 3),
        xt_pow(b, 4),
        xt_pow(b, 5),
        xt_pow(b, 6),
        xt_pow(b, 7),
        c,
    );
    assert forall|i: nat| i < 8 implies #[trigger] xt_pow(ab, i) == gf8_chain(a, xt_pow(b, i)) by {
        lemma_gf8_mul_xt_pow(a, b, i);
        lemma_gf8_mul_chain(a, xt_pow(b, i));
    }
    assert(xt_pow(ab, 0) == gf8_chain(a, xt_pow(b, 0)));
    assert(xt_pow(ab, 1) == gf8_chain(a, xt_pow(b, 1)));
    assert(xt_pow(ab, 2) == gf8_chain(a, xt_pow(b, 2)));
    assert(xt_pow(ab, 3) == gf8_chain(a, xt_pow(b, 3)));
    assert(xt_pow(ab, 4) == gf8_chain(a, xt_pow(b, 4)));
    assert(xt_pow(ab, 5) == gf8_chain(a, xt_pow(b, 5)));
    assert(xt_pow(ab, 6) == gf8_chain(a, xt_pow(b, 6)));
    assert(xt_pow(ab, 7) == gf8_chain(a, xt_pow(b, 7)));
}

/// Word identities of GF(2^32): doubling is linear and stays in the field,
/// XOR stays in the field, and doubling `x^k` gives `x^(k+1)` below the top.
pub proof fn lemma_gf32_words(u: u64, v: u64, k: u64)
    by (bit_vector)
    requires
        u <= 0xffff_ffffu64,
        v <= 0xffff_ffffu64,
    ensures
        mulx(gf32(), u ^ v) == mulx(gf32(), u) ^ mulx(gf32(), v),
        mulx(gf32(), u) <= 0xffff_ffffu64,
        u ^ v <= 0xffff_ffffu64,
        mulx(gf32(), 0) == 0,
        0u64 ^ u == u,
        k < 31 ==> mulx(gf32(), 1u64 << k) == 1u64 << (k + 1u64),
        1u64 << 0u64 == 1u64,
{
}

/// XOR regrouping and its zero.
pub proof fn lemma_xor_regroup(p: u64, q: u64, r: u64, t: u64)
    by (bit_vector)
    ensures
        (p ^ q) ^ (r ^ t) == (p ^ r) ^ (q ^ t),
        p ^ 0u64 == p,
        0u64 ^ p == p,
{
}

/// The word with the bits below `n` set, for `n < 64`.
pub open spec fn lowmask(n: u64) -> u64 {
    ((1u64 << n) - 1u64) as u64
}

/// Keeping the bits below `n + 1` adds bit `n` to the bits below `n`.
pub proof fn lemma_low_bits_step(u: u64, n: u64)
    by (bit_vector)
    requires
        n < 63,
    ensures
        u & lowmask((n + 1u64) as u64) == (u & lowmask(n)) ^ (if (u >> n) & 1u64
            == 1u64 {
            1u64 << n
        } else {
            0u64
        }),
        u & lowmask(0u64) == 0u64,
        u <= 0xffff_ffffu64 ==> u & lowmask(32u64) == u,
        n < 32 ==> (u >> n) & 1u64 == ((u & 0xffff_ffffu64) >> n) & 1u64,
        u & 0xffff_ffffu64 <= 0xffff_ffffu64,
{
}

/// Multiplying by `x^i` in GF(2^32) is linear and stays in the field.
proof fn lemma_gf32_xpow_lin(u: u64, v: u64, i: nat)
    requires
        u <= 0xffff_ffffu64,
        v <= 0xffff_ffffu64,
    ensures
        xpow(gf32(), u ^ v, i) == xpow(gf32(), u, i) ^ xpow(gf32(), v, i),
        xpow(gf32(), u, i) <= 0xffff_ffffu64,
        xpow(gf32(), 0, i) == 0,
    decreases i,
{
    lemma_gf32_words(u, v, 0);
    if i > 0 {
        let m = (i - 1) as nat;
        lemma_gf32_xpow_lin(u, v, m);
        lemma_gf32_xpow_lin(v, u, m);
        lemma_gf32_words(xpow(gf32(), u, m), xpow(gf32(), v, m), 0);
    }
}

/// `(u * x^i) * x^j = u * x^(i + j)`.
proof fn lemma_xpow_add(f: Field, u: u64, i: nat, j: nat)
    ensures
        xpow(f, xpow(f, u, i), j) == xpow(f, u, i + j),
    decreases j,
{
    if j > 0 {
        lemma_xpow_add(f, u, i, (j - 1) as nat);
    }
}

/// `x^k` is the word with only bit `k` set, below the top of GF(2^32).
proof fn lemma_gf32_xpow_one(k: nat)
    requires
        k < 32,
    ensures
        xpow(gf32(), 1, k) == 1u64 << (k as u64),
    decreases k,
{
    lemma_gf32_words(0, 0, 0);
    if k > 0 {
        let k1 = (k - 1) as u64;
        lemma_gf32_xpow_one((k - 1) as nat);
        lemma_gf32_words(0, 0, k1);
        assert(xpow(gf32(), 1, k) == mulx(gf32(), xpow(gf32(), 1, (k - 1) as nat)));
        assert(1u64 << (k1 + 1u64) == 1u64 << (k as u64));
    }
}

/// A product in GF(2^32) stays in the field, and zero times anything is
/// zero.
proof fn lemma_gf32_mul_low_bound(x: u64, a: u64, n: nat)
    requires
        x <= 0xffff_ffffu64,
    ensures
        mul_low(gf32(), x, a, n) <= 0xffff_ffffu64,
        mul_low(gf32(), 0, a, n) == 0,
    decreases n,
{
    if n > 0 {
        let m = (n - 1) as nat;
        lemma_gf32_mul_low_bound(x, a, m);
        lemma_gf32_xpow_lin(x, 0, m);
        lemma_gf32_xpow_lin(0, 0, m);
        lemma_gf32_words(mul_low(gf32(), x, a, m), xpow(gf32(), x, m), 0);
        lemma_gf32_words(mul_low(gf32(), x, a, m), 0, 0);
        lemma_xor_regroup(0, 0, 0, 0);
    }
}

/// The bits of `u` below `n` as a GF(2^32) sum of powers of `x`.
proof fn lemma_gf32_repr(u: u64, n: nat)
    requires
        n <= 32,
    ensures
        mul_low(gf32(), 1, u, n) == u & lowmask(n as u64),
    decreases n,
{
    lemma_low_bits_step(u, 0);
    if n > 0 {
        let m = (n - 1) as nat;
        lemma_gf32_repr(u, m);
        lemma_gf32_xpow_one(m);
        lemma_low_bits_step(u, m as u64);
        assert(bit(u, m) == ((u >> (m as u64)) & 1u64 == 1u64));
    }
}

/// Multiplying a GF(2^32) product by `x^i` multiplies its first factor.
proof fn lemma_gf32_xpow_mul_low(x: u64, a: u64, n: nat, i: nat)
    requires
        x <= 0xffff_ffffu64,
    ensures
        xpow(gf32(), mul_low(gf32(), x, a, n), i) == mul_low(gf32(), xpow(gf32(), x, i), a, n),
    decreases n,
{
    lemma_gf32_xpow_lin(0, 0, i);
    if n > 0 {
        let m = (n - 1) as nat;
        lemma_gf32_xpow_mul_low(x, a, m, i);
        lemma_gf32_mul_low_bound(x, a, m);
        lemma_gf32_xpow_lin(x, 0, m);
        let sel = if bit(a, m) { xpow(gf32(), x, m) } else { 0u64 };
        lemma_gf32_xpow_lin(mul_low(gf32(), x, a, m), sel, i);
        lemma_xpow_add(gf32(), x, m, i);
        lemma_xpow_add(gf32(), x, i, m);
    }
}

/// A GF(2^32) product is linear in its first factor.
proof fn lemma_gf32_mul_low_lin(u: u64, v: u64, b: u64, n: nat)
    requires
        u <= 0xffff_ffffu64,
        v <= 0xffff_ffffu64,
    ensures
        mul_low(gf32(), u ^ v, b, n) == mul_low(gf32(), u, b, n) ^ mul_low(gf32(), v, b, n),
    decreases n,
{
    lemma_xor_regroup(0, 0, 0, 0);
    if n > 0 {
        let m = (n - 1) as nat;
        lemma_gf32_mul_low_lin(u, v, b, m);
        lemma_gf32_xpow_lin(u, v, m);
        lemma_xor_regroup(
            mul_low(gf32(), u, b, m),
            mul_low(gf32(), v, b, m),
            xpow(gf32(), u, m),
            xpow(gf32(), v, m),
        );
        lemma_xor_regroup(mul_low(gf32(), u, b, m), mul_low(gf32(), v, b, m), 0, 0);
        lemma_xor_regroup(mul_low(gf32(), u, b, m) ^ mul_low(gf32(), v, b, m), 0, 0, 0);
        lemma_xor_regroup(0, 0, 0, 0);
    }
}

/// The product only reads the multiplier's bits below `n`.
proof fn lemma_gf32_mul_low_mask(x: u64, b: u64, n: nat)
    requires
        n <= 32,
    ensures
        mul_low(gf32(), x, b, n) == mul_low(gf32(), x, b & 0xffff_ffffu64, n),
    decreases n,
{
    if n > 0 {
        let m = (n - 1) as nat;
        lemma_gf32_mul_low_mask(x, b, m);
        lemma_low_bits_step(b, m as u64);
        assert(bit(b, m) == ((b >> (m as u64)) & 1u64 == 1u64));
        assert(bit(b & 0xffff_ffffu64, m) == (((b & 0xffff_ffffu64) >> (m as u64)) & 1u64 == 1u64));
    }
}

/// Summing the products of `B` with the powers of `x` selected by the bits
/// of `A` below `n` is multiplying by those bits of `A`.
proof fn lemma_gf32_swap(aa: u64, bb: u64, n: nat)
    requires
        aa <= 0xffff_ffffu64,
        bb <= 0xffff_ffffu64,
        n <= 32,
    ensures
        mul_low(gf32(), mul_low(gf32(), 1, aa, n), bb, 32) == mul_low(gf32(), bb, aa, n),
    decreases n,
{
    lemma_gf32_mul_low_bound(0, bb, 32);
    if n > 0 {
        let m = (n - 1) as nat;
        lemma_gf32_swap(aa, bb, m);
        lemma_gf32_mul_low_bound(1, aa, m);
        lemma_gf32_xpow_lin(1, 0, m);
        let sel = if bit(aa, m) { xpow(gf32(), 1, m) } else { 0u64 };
        lemma_gf32_mul_low_lin(mul_low(gf32(), 1, aa, m), sel, bb, 32);
        lemma_gf32_xpow_mul_low(1, bb, 32, m);
        lemma_gf32_repr(bb, 32);
        lemma_low_bits_step(bb, 0);
    }
}

/// Multiplication in GF(2^32) is commutative.
pub proof fn lemma_gf32_mul_comm(a: u64, b: u64)
    ensures
        field_mul(gf32(), a, b) == field_mul(gf32(), b, a),
{
    let aa = a & 0xffff_ffffu64;
    let bb = b & 0xffff_ffffu64;
    lemma_low_bits_step(a, 0);
    lemma_low_bits_step(b, 0);
    lemma_gf32_mul_low_mask(aa, b, 32);
    lemma_gf32_mul_low_mask(bb, a, 32);
    lemma_gf32_repr(aa, 32);
    lemma_gf32_repr(bb, 32);
    lemma_low_bits_step(aa, 0);
    lemma_low_bits_step(bb, 0);
    lemma_gf32_swap(aa, bb, 32);
    lemma_gf32_swap(bb, aa, 32);
}

} // verus!
