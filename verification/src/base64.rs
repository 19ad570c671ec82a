use vstd::prelude::*;

verus! {

/// The padding byte `'='`.
pub const B64_PAD: u8 = 61;

/// The base64 digit for a 6-bit value (standard alphabet).
pub open spec fn b64_char(v: u8) -> u8 {
    if v < 26 {
        (65 + v) as u8
    } else if v < 52 {
        (71 + v) as u8
    } else if v < 62 {
        (v - 4) as u8
    } else if v == 62 {
        43
    } else {
        47
    }
}

/// The byte is a digit of the standard base64 alphabet.
pub open spec fn b64_digit(b: u8) -> bool {
    ||| 65 <= b <= 90
    ||| 97 <= b <= 122
    ||| 48 <= b <= 57
    ||| b == 43
    ||| b == 47
}

/// The 6-bit value of a base64 digit (meaningful when `b64_digit(b)`).
pub open spec fn b64_val(b: u8) -> u8 {
    if 65 <= b <= 90 {
        (b - 65) as u8
    } else if 97 <= b <= 122 {
        (b - 71) as u8
    } else if 48 <= b <= 57 {
        (b + 4) as u8
    } else if b == 43 {
        62
    } else {
        63
    }
}

/// The digit of each 6-bit value decodes back to it, and a digit is never a
/// quote, a padding byte, or any other byte of the blob's scaffolding.
pub proof fn lemma_b64_char_inverse(v: u8)
    requires
        v < 64,
    ensures
        b64_digit(b64_char(v)),
        b64_val(b64_char(v)) == v,
        b64_char(v) != 34,
        b64_char(v) != 92,
        b64_char(v) >= 32,
        b64_char(v) != B64_PAD,
{
}

/// Base64 of a byte sequence: standard alphabet, `'='` padding.
pub open spec fn b64_encode(s: Seq<u8>) -> Seq<u8>
    decreases s.len(),
{
    if s.len() == 0 {
        Seq::empty()
    } else if s.len() == 1 {
        let a = s[0];
        seq![b64_char(a >> 2), b64_char((a & 3) << 4), B64_PAD, B64_PAD]
    } else if s.len() == 2 {
        let a = s[0];
        let b = s[1];
        seq![b64_char(a >> 2), b64_char(((a & 3) << 4) | (b >> 4)), b64_char((b & 15) << 2), B64_PAD]
    } else {
        let a = s[0];
        let b = s[1];
        let c = s[2];
        seq![
            b64_char(a >> 2),
            b64_char(((a & 3) << 4) | (b >> 4)),
            b64_char(((b & 15) << 2) | (c >> 6)),
            b64_char(c & 63),
        ] + b64_encode(s.skip(3))
    }
}

/// The three bytes a full (unpadded) digit block decodes to.
pub open spec fn b64_block3(x0: u8, x1: u8, x2: u8, x3: u8) -> Seq<u8> {
    seq![
        (b64_val(x0) << 2) | (b64_val(x1) >> 4),
        ((b64_val(x1) & 15) << 4) | (b64_val(x2) >> 2),
        ((b64_val(x2) & 3) << 6) | b64_val(x3),
    ]
}

/// Decoding of the last four-byte block, where padding may stand; strict:
/// bits outside the encoded bytes must be zero.
pub open spec fn b64_last_block(x0: u8, x1: u8, x2: u8, x3: u8) -> Option<Seq<u8>> {
    if !b64_digit(x0) || !b64_digit(x1) {
        None
    } else if x2 == B64_PAD && x3 == B64_PAD {
        if b64_val(x1) & 15 == 0 {
            Some(seq![(b64_val(x0) << 2) | (b64_val(x1) >> 4)])
        } else {
            None
        }
    } else if b64_digit(x2) && x3 == B64_PAD {
        if b64_val(x2) & 3 == 0 {
            Some(
                seq![
                    (b64_val(x0) << 2) | (b64_val(x1) >> 4),
                    ((b64_val(x1) & 15) << 4) | (b64_val(x2) >> 2),
                ],
            )
        } else {
            None
        }
    } else if b64_digit(x2) && b64_digit(x3) {
        Some(b64_block3(x0, x1, x2, x3))
    } else {
        None
    }
}

/// Strict base64 decoding: length a multiple of four, padding only in the
/// last block, unused bits zero; `None` on anything else.
pub open spec fn b64_decode(s: Seq<u8>) -> Option<Seq<u8>>
    decreases s.len(),
{
    if s.len() == 0 {
        Some(Seq::empty())
    } else if s.len() < 4 {
        None
    } else if s.len() == 4 {
        b64_last_block(s[0], s[1], s[2], s[3])
    } else if b64_digit(s[0]) && b64_digit(s[1]) && b64_digit(s[2]) && b64_digit(s[3]) {
        match b64_decode(s.skip(4)) {
            Some(r) => Some(b64_block3(s[0], s[1], s[2], s[3]) + r),
            None => None,
        }
    } else {
        None
    }
}

/// Every byte of a base64 encoding is a digit or padding — printable, and
/// never a quote or a backslash.
pub proof fn lemma_b64_encode_text_safe(s: Seq<u8>)
    ensures
        forall|k: int| 0 <= k < b64_encode(s).len() ==> (#[trigger] b64_encode(s)[k]) != 34
            && b64_encode(s)[k] != 92 && b64_encode(s)[k] >= 32,
    decreases s.len(),
{
    if s.len() == 0 {
    } else if s.len() == 1 {
        let a = s[0];
        assert((a >> 2) < 64 && ((a & 3) << 4) < 64) by (bit_vector);
        lemma_b64_char_inverse(a >> 2);
        lemma_b64_char_inverse((a & 3) << 4);
    } else if s.len() == 2 {
        let a = s[0];
        let b = s[1];
        assert((a >> 2) < 64 && (((a & 3) << 4) | (b >> 4)) < 64 && ((b & 15) << 2) < 64)
            by (bit_vector);
        lemma_b64_char_inverse(a >> 2);
        lemma_b64_char_inverse(((a & 3) << 4) | (b >> 4));
        lemma_b64_char_inverse((b & 15) << 2);
    } else {
        let a = s[0];
        let b = s[1];
        let c = s[2];
        assert((a >> 2) < 64 && (((a & 3) << 4) | (b >> 4)) < 64 && (((b & 15) << 2) | (c >> 6))
            < 64 && (c & 63) < 64) by (bit_vector);
        lemma_b64_char_inverse(a >> 2);
        lemma_b64_char_inverse(((a & 3) << 4) | (b >> 4));
        lemma_b64_char_inverse(((b & 15) << 2) | (c >> 6));
        lemma_b64_char_inverse(c & 63);
        lemma_b64_encode_text_safe(s.skip(3));
        assert forall|k: int| 0 <= k < b64_encode(s).len() implies b64_encode(s)[k] != 34 by {
            if k >= 4 {
                assert(b64_encode(s)[k] == b64_encode(s.skip(3))[k - 4]);
            }
        }
    }
}

/// Encoding then strict decoding gives the bytes back.
pub proof fn lemma_b64_round_trip(s: Seq<u8>)
    ensures
        b64_decode(b64_encode(s)) == Some(s),
    decreases s.len(),
{
    if s.len() == 0 {
        assert(b64_decode(b64_encode(s)) =~= Some(s));
    } else if s.len() == 1 {
        let a = s[0];
        let x0 = b64_char(a >> 2);
        let x1 = b64_char((a & 3) << 4);
        assert((a >> 2) < 64 && ((a & 3) << 4) < 64) by (bit_vector);
        lemma_b64_char_inverse(a >> 2);
        lemma_b64_char_inverse((a & 3) << 4);
        assert(((a & 3) << 4) & 15 == 0) by (bit_vector);
        assert(((a >> 2) << 2) | (((a & 3) << 4) >> 4) == a) by (bit_vector);
        assert(b64_decode(b64_encode(s)) =~= Some(s));
    } else if s.len() == 2 {
        let a = s[0];
        let b = s[1];
        assert((a >> 2) < 64 && (((a & 3) << 4) | (b >> 4)) < 64 && ((b & 15) << 2) < 64)
            by (bit_vector);
        lemma_b64_char_inverse(a >> 2);
        lemma_b64_char_inverse(((a & 3) << 4) | (b >> 4));
        lemma_b64_char_inverse((b & 15) << 2);
        assert(((b & 15) << 2) & 3 == 0) by (bit_vector);
        assert(((a >> 2) << 2) | ((((a & 3) << 4) | (b >> 4)) >> 4) == a) by (bit_vector);
        assert((((((a & 3) << 4) | (b >> 4)) & 15) << 4) | (((b & 15) << 2) >> 2) == b)
            by (bit_vector);
        assert(b64_decode(b64_encode(s)) =~= Some(s));
    } else {
        let a = s[0];
        let b = s[1];
        let c = s[2];
        assert((a >> 2) < 64 && (((a & 3) << 4) | (b >> 4)) < 64 && (((b & 15) << 2) | (c >> 6))
            < 64 && (c & 63) < 64) by (bit_vector);
        lemma_b64_char_inverse(a >> 2);
        lemma_b64_char_inverse(((a & 3) << 4) | (b >> 4));
        lemma_b64_char_inverse(((b & 15) << 2) | (c >> 6));
        lemma_b64_char_inverse(c & 63);
        lemma_b64_round_trip(s.skip(3));
        assert(((a >> 2) << 2) | ((((a & 3) << 4) | (b >> 4)) >> 4) == a) by (bit_vector);
        assert((((((a & 3) << 4) | (b >> 4)) & 15) << 4) | (((((b & 15) << 2) | (c >> 6)) >> 2))
            == b) by (bit_vector);
        assert((((((b & 15) << 2) | (c >> 6)) & 3) << 6) | (c & 63) == c) by (bit_vector);
        let e = b64_encode(s);
        if s.len() == 3 {
            assert(s.skip(3) =~= Seq::<u8>::empty());
            assert(e.len() == 4);
            assert(b64_last_block(e[0], e[1], e[2], e[3]) =~= Some(s));
        } else {
            assert(e.len() > 4);
            assert(e.skip(4) =~= b64_encode(s.skip(3)));
            assert(b64_block3(e[0], e[1], e[2], e[3]) + s.skip(3) =~= s);
        }
    }
}

/// Encoding distributes over splitting at a multiple of three bytes.
pub proof fn lemma_b64_encode_concat(u: Seq<u8>, w: Seq<u8>)
    requires
        u.len() % 3 == 0,
    ensures
        b64_encode(u + w) == b64_encode(u) + b64_encode(w),
    decreases u.len(),
{
    if u.len() == 0 {
        assert(u + w =~= w);
        assert(b64_encode(u) + b64_encode(w) =~= b64_encode(w));
    } else {
        assert(u.len() >= 3);
        if w.len() == 0 {
            assert(u + w =~= u);
            assert(b64_encode(u) + b64_encode(w) =~= b64_encode(u));
        } else {
            let t = u + w;
            assert(t.len() >= 3 + w.len());
            assert(t[0] == u[0] && t[1] == u[1] && t[2] == u[2]);
            assert(t.skip(3) =~= u.skip(3) + w);
            assert(u.skip(3).len() % 3 == 0);
            lemma_b64_encode_concat(u.skip(3), w);
            if u.len() == 3 {
                assert(u.skip(3) =~= Seq::<u8>::empty());
                assert(b64_encode(u.skip(3)) =~= Seq::<u8>::empty());
                assert(b64_encode(u) =~= b64_encode(t).take(4));
            }
            assert(b64_encode(t) =~= b64_encode(u) + b64_encode(w));
        }
    }
}

/// Exec form of `b64_char`.
fn b64_char_exec(v: u8) -> (r: u8)
    requires
        v < 64,
    ensures
        r == b64_char(v),
{
    if v < 26 {
        65 + v
    } else if v < 52 {
        71 + v
    } else if v < 62 {
        v - 4
    } else if v == 62 {
        43
    } else {
        47
    }
}

/// Exec form of `b64_digit`.
fn b64_digit_exec(b: u8) -> (r: bool)
    ensures
        r == b64_digit(b),
{
    (65 <= b && b <= 90) || (97 <= b && b <= 122) || (48 <= b && b <= 57) || b == 43 || b == 47
}

/// Exec form of `b64_val`.
fn b64_val_exec(b: u8) -> (r: u8)
    requires
        b64_digit(b),
    ensures
        r == b64_val(b),
{
    if 65 <= b && b <= 90 {
        b - 65
    } else if 97 <= b && b <= 122 {
        b - 71
    } else if 48 <= b && b <= 57 {
        b + 4
    } else if b == 43 {
        62
    } else {
        63
    }
}

/// Appends the base64 encoding of `v` to `out`.
pub fn push_b64(out: &mut Vec<u8>, v: &Vec<u8>)
    ensures
        final(out)@ == old(out)@ + b64_encode(v@),
{
    let ghost base = out@;
    let n = v.len();
    let mut i: usize = 0;
    proof {
        assert(v@.take(0) =~= Seq::<u8>::empty());
        assert(b64_encode(v@.take(0)) =~= Seq::<u8>::empty());
        assert(base + b64_encode(v@.take(0)) =~= base);
    }
    while n - i >= 3
        invariant
            n == v@.len(),
            i <= n,
            i % 3 == 0,
            out@ == base + b64_encode(v@.take(i as int)),
        decreases n - i,
    {
        let a = v[i];
        let b = v[i + 1];
        let c = v[i + 2];
        proof {
            assert((a >> 2) < 64 && (((a & 3) << 4) | (b >> 4)) < 64 && (((b & 15) << 2) | (c
                >> 6)) < 64 && (c & 63) < 64) by (bit_vector);
        }
        out.push(b64_char_exec(a >> 2));
        out.push(b64_char_exec(((a & 3) << 4) | (b >> 4)));
        out.push(b64_char_exec(((b & 15) << 2) | (c >> 6)));
        out.push(b64_char_exec(c & 63));
        proof {
            assert(v@.take(i + 3) =~= v@.take(i as int) + seq![a, b, c]);
            lemma_b64_encode_concat(v@.take(i as int), seq![a, b, c]);
            let g = seq![a, b, c];
            assert(g.len() == 3);
            assert(g.skip(3) =~= Seq::<u8>::empty());
            assert(b64_encode(g.skip(3)) =~= Seq::<u8>::empty());
            assert(b64_encode(g) =~= seq![
                b64_char(a >> 2),
                b64_char(((a & 3) << 4) | (b >> 4)),
                b64_char(((b & 15) << 2) | (c >> 6)),
                b64_char(c & 63),
            ]);
            assert(out@ =~= base + b64_encode(v@.take(i + 3)));
        }
        i += 3;
    }
    proof {
        assert(v@.take(i as int) + v@.skip(i as int) =~= v@);
        lemma_b64_encode_concat(v@.take(i as int), v@.skip(i as int));
    }
    if n - i == 2 {
        let a = v[i];
        let b = v[i + 1];
        proof {
            assert((a >> 2) < 64 && (((a & 3) << 4) | (b >> 4)) < 64 && ((b & 15) << 2) < 64)
                by (bit_vector);
            assert(v@.skip(i as int) =~= seq![a, b]);
        }
        out.push(b64_char_exec(a >> 2));
        out.push(b64_char_exec(((a & 3) << 4) | (b >> 4)));
        out.push(b64_char_exec((b & 15) << 2));
        out.push(B64_PAD);
        proof {
            assert(out@ =~= base + b64_encode(v@));
        }
    } else if n - i == 1 {
        let a = v[i];
        proof {
            assert((a >> 2) < 64 && ((a & 3) << 4) < 64) by (bit_vector);
            assert(v@.skip(i as int) =~= seq![a]);
        }
        out.push(b64_char_exec(a >> 2));
        out.push(b64_char_exec((a & 3) << 4));
        out.push(B64_PAD);
        out.push(B64_PAD);
        proof {
            assert(out@ =~= base + b64_encode(v@));
        }
    } else {
        proof {
            assert(v@.skip(i as int) =~= Seq::<u8>::empty());
            assert(out@ =~= base + b64_encode(v@));
        }
    }
}

/// Strict base64 decoding of `digits`; `None` exactly where the spec says.
pub fn b64_decode_exec(digits: &Vec<u8>) -> (r: Option<Vec<u8>>)
    ensures
        match r {
            Some(v) => b64_decode(digits@) == Some(v@),
            None => b64_decode(digits@) is None,
        },
{
    let n = digits.len();
    if n == 0 {
        proof {
            assert(b64_decode(digits@) =~= Some(Seq::<u8>::empty()));
        }
        return Some(Vec::new());
    }
    let mut out: Vec<u8> = Vec::new();
    let mut i: usize = 0;
    proof {
        assert(digits@.skip(0) =~= digits@);
    }
    while n - i > 4
        invariant
            n == digits@.len(),
            n > 0,
            i < n,
            i % 4 == 0,
            b64_decode(digits@) == match b64_decode(digits@.skip(i as int)) {
                Some(rest) => Some(out@ + rest),
                None => None::<Seq<u8>>,
            },
        decreases n - i,
    {
        let x0 = digits[i];
        let x1 = digits[i + 1];
        let x2 = digits[i + 2];
        let x3 = digits[i + 3];
        if !(b64_digit_exec(x0) && b64_digit_exec(x1) && b64_digit_exec(x2) && b64_digit_exec(x3)) {
            proof {
                assert(digits@.skip(i as int).len() > 4);
                assert(digits@.skip(i as int)[0] == x0 && digits@.skip(i as int)[1] == x1
                    && digits@.skip(i as int)[2] == x2 && digits@.skip(i as int)[3] == x3);
            }
            return None;
        }
        let v0 = b64_val_exec(x0);
        let v1 = b64_val_exec(x1);
        let v2 = b64_val_exec(x2);
        let v3 = b64_val_exec(x3);
        out.push((v0 << 2) | (v1 >> 4));
        out.push(((v1 & 15) << 4) | (v2 >> 2));
        out.push(((v2 & 3) << 6) | v3);
        proof {
            let s = digits@.skip(i as int);
            assert(s.len() > 4);
            assert(s[0] == x0 && s[1] == x1 && s[2] == x2 && s[3] == x3);
            assert(s.skip(4) =~= digits@.skip(i + 4));
            assert(b64_block3(x0, x1, x2, x3) =~= seq![
                (v0 << 2) | (v1 >> 4),
                ((v1 & 15) << 4) | (v2 >> 2),
                ((v2 & 3) << 6) | v3,
            ]);
            if b64_decode(digits@.skip(i + 4)) is Some {
                assert(out@ + b64_decode(digits@.skip(i + 4)).unwrap() =~= out@.subrange(
                    0,
                    out@.len() - 3,
                ) + b64_decode(s).unwrap());
            }
        }
        i += 4;
    }
    if n - i != 4 {
        proof {
            let s = digits@.skip(i as int);
            assert(s.len() == n - i);
            assert(s.len() != 0 && s.len() != 4);
            if s.len() > 4 {
                assert(false);
            }
            assert(b64_decode(s) is None);
        }
        return None;
    }
    let x0 = digits[i];
    let x1 = digits[i + 1];
    let x2 = digits[i + 2];
    let x3 = digits[i + 3];
    proof {
        let s = digits@.skip(i as int);
        assert(s.len() == 4);
        assert(s[0] == x0 && s[1] == x1 && s[2] == x2 && s[3] == x3);
    }
    if !(b64_digit_exec(x0) && b64_digit_exec(x1)) {
        return None;
    }
    let v0 = b64_val_exec(x0);
    let v1 = b64_val_exec(x1);
    if x2 == B64_PAD && x3 == B64_PAD {
        if v1 & 15 != 0 {
            return None;
        }
        out.push((v0 << 2) | (v1 >> 4));
        proof {
            let s = digits@.skip(i as int);
            assert(b64_decode(s) == Some(seq![(v0 << 2) | (v1 >> 4)]));
            assert(out@ =~= out@.subrange(0, out@.len() - 1) + b64_decode(s).unwrap());
        }
        return Some(out);
    }
    if b64_digit_exec(x2) && x3 == B64_PAD {
        let v2 = b64_val_exec(x2);
        if v2 & 3 != 0 {
            return None;
        }
        out.push((v0 << 2) | (v1 >> 4));
        out.push(((v1 & 15) << 4) | (v2 >> 2));
        proof {
            let s = digits@.skip(i as int);
            assert(b64_decode(s) == Some(seq![(v0 << 2) | (v1 >> 4), ((v1 & 15) << 4) | (v2 >> 2)]));
            assert(out@ =~= out@.subrange(0, out@.len() - 2) + b64_decode(s).unwrap());
        }
        return Some(out);
    }
    if b64_digit_exec(x2) && b64_digit_exec(x3) {
        let v2 = b64_val_exec(x2);
        let v3 = b64_val_exec(x3);
        out.push((v0 << 2) | (v1 >> 4));
        out.push(((v1 & 15) << 4) | (v2 >> 2));
        out.push(((v2 & 3) << 6) | v3);
        proof {
            let s = digits@.skip(i as int);
            assert(b64_decode(s) == Some(b64_block3(x0, x1, x2, x3)));
            assert(b64_block3(x0, x1, x2, x3) =~= seq![
                (v0 << 2) | (v1 >> 4),
                ((v1 & 15) << 4) | (v2 >> 2),
                ((v2 & 3) << 6) | v3,
            ]);
            assert(out@ =~= out@.subrange(0, out@.len() - 3) + b64_decode(s).unwrap());
        }
        return Some(out);
    }
    None
}

} // verus!
