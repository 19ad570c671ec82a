use vstd::prelude::*;

use crate::base64::{b64_decode, b64_encode, push_b64, b64_decode_exec, lemma_b64_encode_text_safe,
    lemma_b64_round_trip};
use crate::crypto::bytes_to_text;
use crate::entry::{Entry, EntryView};
use crate::errors::VaultError;
use crate::store::VaultMap;
use vstd::utf8::{encode_utf8, decode_utf8, valid_utf8};

verus! {

// ---------------------------------------------------------------------------
// The serialized form: a text blob, here treated as bytes. The whole vault is
// an object whose keys are the labels and whose values are objects with the
// three base64 fields:
//
//     {"label":{"salt":"...","nonce":"...","cipherText":"..."},...}
//
// `serialize` writes this canonical compact form; `materialize` accepts any
// blob that parses as a JSON object of this schema — whitespace between
// tokens, the three fields in any order, and the standard string escapes —
// and rejects everything else whole.
// ---------------------------------------------------------------------------

/// One hexadecimal digit, lowercase.
pub open spec fn hexdig(x: int) -> u8 {
    if x < 10 {
        (48 + x) as u8
    } else {
        (87 + x) as u8
    }
}

/// Escape of one label byte: quote and backslash get a backslash before
/// them; a control byte becomes a `\u00xx` escape; every other byte stands
/// for itself.
pub open spec fn esc_byte(b: u8) -> Seq<u8> {
    if b == 34 || b == 92 {
        seq![92u8, b]
    } else if b < 32 {
        seq![92u8, 117, 48, 48, hexdig(b as int / 16), hexdig(b as int % 16)]
    } else {
        seq![b]
    }
}

/// Escape of a label's bytes.
pub open spec fn esc(s: Seq<u8>) -> Seq<u8>
    decreases s.len(),
{
    if s.len() == 0 {
        Seq::empty()
    } else {
        esc_byte(s[0]) + esc(s.skip(1))
    }
}

/// The bytes `:{"salt":"` between a label and its first field.
pub open spec fn lit_salt() -> Seq<u8> {
    seq![58u8, 123, 34, 115, 97, 108, 116, 34, 58, 34]
}

/// The bytes `,"nonce":"` between the first and second field.
pub open spec fn lit_nonce() -> Seq<u8> {
    seq![44u8, 34, 110, 111, 110, 99, 101, 34, 58, 34]
}

/// The bytes `,"cipherText":"` between the second and third field.
pub open spec fn lit_ct() -> Seq<u8> {
    seq![44u8, 34, 99, 105, 112, 104, 101, 114, 84, 101, 120, 116, 34, 58, 34]
}

/// One serialized entry: the quoted, escaped label and the three base64
/// fields in a fixed order.
pub open spec fn entry_bytes(label: Seq<char>, e: EntryView) -> Seq<u8> {
    seq![34u8] + esc(encode_utf8(label)) + seq![34u8] + lit_salt() + b64_encode(e.salt)
        + seq![34u8] + lit_nonce() + b64_encode(e.nonce) + seq![34u8] + lit_ct() + b64_encode(
        e.cipher_text,
    ) + seq![34u8, 125]
}

/// The serialized entry list, comma-separated.
pub open spec fn entries_bytes(ps: Seq<(Seq<char>, EntryView)>) -> Seq<u8>
    decreases ps.len(),
{
    if ps.len() == 0 {
        Seq::empty()
    } else if ps.len() == 1 {
        entry_bytes(ps[0].0, ps[0].1)
    } else {
        entry_bytes(ps[0].0, ps[0].1) + seq![44u8] + entries_bytes(ps.drop_first())
    }
}

/// The whole serialized vault.
pub open spec fn vault_bytes(ps: Seq<(Seq<char>, EntryView)>) -> Seq<u8> {
    seq![123u8] + entries_bytes(ps) + seq![125u8]
}

/// Escaping distributes over concatenation.
pub proof fn lemma_esc_concat(u: Seq<u8>, w: Seq<u8>)
    ensures
        esc(u + w) == esc(u) + esc(w),
    decreases u.len(),
{
    if u.len() == 0 {
        assert(u + w =~= w);
        assert(esc(u) + esc(w) =~= esc(w));
    } else {
        let t = u + w;
        assert(t[0] == u[0]);
        assert(t.skip(1) =~= u.skip(1) + w);
        lemma_esc_concat(u.skip(1), w);
        assert(esc(t) =~= esc(u) + esc(w));
    }
}

/// The entry list grows at its end by a separator and one entry.
pub proof fn lemma_entries_bytes_last(ps: Seq<(Seq<char>, EntryView)>)
    requires
        ps.len() >= 1,
    ensures
        entries_bytes(ps) == if ps.len() == 1 {
            entry_bytes(ps.last().0, ps.last().1)
        } else {
            entries_bytes(ps.drop_last()) + seq![44u8] + entry_bytes(ps.last().0, ps.last().1)
        },
    decreases ps.len(),
{
    if ps.len() > 1 {
        lemma_entries_bytes_last(ps.drop_first());
        assert(ps.drop_first().last() == ps.last());
        assert(ps.drop_first().drop_last() =~= ps.drop_last().drop_first());
        if ps.len() == 2 {
            assert(ps.drop_first().len() == 1);
            assert(ps.drop_last().len() == 1);
            assert(ps.drop_last()[0] == ps[0]);
            assert(entries_bytes(ps.drop_last()) == entry_bytes(ps[0].0, ps[0].1));
            assert(entries_bytes(ps) =~= entries_bytes(ps.drop_last()) + seq![44u8] + entry_bytes(
                ps.last().0,
                ps.last().1,
            ));
        } else {
            assert(ps.drop_last().len() > 1);
            assert(ps.drop_last()[0] == ps[0]);
            assert(entries_bytes(ps.drop_last()) == entry_bytes(ps[0].0, ps[0].1) + seq![44u8]
                + entries_bytes(ps.drop_last().drop_first()));
            assert(entries_bytes(ps) =~= entries_bytes(ps.drop_last()) + seq![44u8] + entry_bytes(
                ps.last().0,
                ps.last().1,
            ));
        }
    }
}

/// Appends `lit_salt()` to `out`.
fn push_lit_salt(out: &mut Vec<u8>)
    ensures
        final(out)@ == old(out)@ + lit_salt(),
{
    out.push(58);
    out.push(123);
    out.push(34);
    out.push(115);
    out.push(97);
    out.push(108);
    out.push(116);
    out.push(34);
    out.push(58);
    out.push(34);
    proof {
        assert(out@ =~= old(out)@ + lit_salt());
    }
}

/// Appends `lit_nonce()` to `out`.
fn push_lit_nonce(out: &mut Vec<u8>)
    ensures
        final(out)@ == old(out)@ + lit_nonce(),
{
    out.push(44);
    out.push(34);
    out.push(110);
    out.push(111);
    out.push(110);
    out.push(99);
    out.push(101);
    out.push(34);
    out.push(58);
    out.push(34);
    proof {
        assert(out@ =~= old(out)@ + lit_nonce());
    }
}

/// Appends `lit_ct()` to `out`.
fn push_lit_ct(out: &mut Vec<u8>)
    ensures
        final(out)@ == old(out)@ + lit_ct(),
{
    out.push(44);
    out.push(34);
    out.push(99);
    out.push(105);
    out.push(112);
    out.push(104);
    out.push(101);
    out.push(114);
    out.push(84);
    out.push(101);
    out.push(120);
    out.push(116);
    out.push(34);
    out.push(58);
    out.push(34);
    proof {
        assert(out@ =~= old(out)@ + lit_ct());
    }
}

/// Exec form of `hexdig`.
fn hexdig_exec(x: u8) -> (r: u8)
    requires
        x < 16,
    ensures
        r == hexdig(x as int),
{
    if x < 10 {
        48 + x
    } else {
        87 + x
    }
}

/// Appends the escape of `s` to `out`.
fn push_escaped(out: &mut Vec<u8>, s: &Vec<u8>)
    ensures
        final(out)@ == old(out)@ + esc(s@),
{
    let ghost base = out@;
    let n = s.len();
    let mut i: usize = 0;
    proof {
        assert(s@.take(0) =~= Seq::<u8>::empty());
        assert(base + esc(s@.take(0)) =~= base);
    }
    while i < n
        invariant
            n == s@.len(),
            i <= n,
            out@ == base + esc(s@.take(i as int)),
        decreases n - i,
    {
        let b = s[i];
        if b == 34 || b == 92 {
            out.push(92);
            out.push(b);
        } else if b < 32 {
            out.push(92);
            out.push(117);
            out.push(48);
            out.push(48);
            out.push(hexdig_exec(b / 16));
            out.push(hexdig_exec(b % 16));
        } else {
            out.push(b);
        }
        proof {
            assert(s@.take(i + 1) =~= s@.take(i as int) + seq![b]);
            lemma_esc_concat(s@.take(i as int), seq![b]);
            assert(seq![b].skip(1) =~= Seq::<u8>::empty());
            assert(esc(Seq::<u8>::empty()) == Seq::<u8>::empty());
            assert(seq![b].len() == 1 && seq![b][0] == b);
            assert(esc(seq![b]) == esc_byte(b) + esc(seq![b].skip(1)));
            assert(esc(seq![b]) =~= esc_byte(b));
            assert(out@ =~= base + esc(s@.take(i + 1)));
        }
        i += 1;
    }
    proof {
        assert(s@.take(n as int) =~= s@);
    }
}

/// Serializes the mapping into its canonical text form: one object keyed by
/// the labels, each value holding the record's three byte fields in base64.
/// Total over every well-formed mapping; re-parseable by `materialize`.
#[verifier::rlimit(100)]
pub fn serialize(m: &VaultMap) -> (r: Vec<u8>)
    requires
        m.wf(),
    ensures
        r@ == vault_bytes(m.pairs()),
{
    let ghost ps = m.pairs();
    let mut out: Vec<u8> = Vec::new();
    out.push(123);
    let n = m.entries.len();
    proof {
        assert(ps.len() == n);
        assert(ps.take(0) =~= Seq::<(Seq<char>, EntryView)>::empty());
        assert(out@ =~= seq![123u8] + entries_bytes(ps.take(0)));
    }
    let mut idx: usize = 0;
    while idx < n
        invariant
            m.wf(),
            ps == m.pairs(),
            n == m.entries@.len(),
            idx <= n,
            out@ == seq![123u8] + entries_bytes(ps.take(idx as int)),
        decreases n - idx,
    {
        let ghost before = out@;
        if idx > 0 {
            out.push(44);
        }
        let label_bytes = m.entries[idx].0.as_str().as_bytes_vec();
        out.push(34);
        push_escaped(&mut out, &label_bytes);
        out.push(34);
        push_lit_salt(&mut out);
        push_b64(&mut out, &m.entries[idx].1.salt);
        out.push(34);
        push_lit_nonce(&mut out);
        push_b64(&mut out, &m.entries[idx].1.nonce);
        out.push(34);
        push_lit_ct(&mut out);
        push_b64(&mut out, &m.entries[idx].1.cipher_text);
        out.push(34);
        out.push(125);
        proof {
            let p = ps[idx as int];
            assert(p == (m.entries@[idx as int].0@, m.entries@[idx as int].1@));
            assert(entry_bytes(p.0, p.1) =~= seq![34u8] + esc(encode_utf8(p.0)) + seq![34u8]
                + lit_salt() + b64_encode(p.1.salt) + seq![34u8] + lit_nonce() + b64_encode(
                p.1.nonce,
            ) + seq![34u8] + lit_ct() + b64_encode(p.1.cipher_text) + seq![34u8, 125]);
            if idx == 0 {
                assert(out@ =~= before + entry_bytes(p.0, p.1));
            } else {
                assert(out@ =~= before + seq![44u8] + entry_bytes(p.0, p.1));
            }
            assert(ps.take(idx + 1).len() == idx + 1);
            assert(ps.take(idx + 1).drop_last() =~= ps.take(idx as int));
            assert(ps.take(idx + 1).last() == p);
            lemma_entries_bytes_last(ps.take(idx + 1));
            assert(out@ =~= seq![123u8] + entries_bytes(ps.take(idx + 1)));
        }
        idx += 1;
    }
    out.push(125);
    proof {
        assert(ps.take(n as int) =~= ps);
        assert(out@ =~= vault_bytes(ps));
    }
    out
}

// ---------------------------------------------------------------------------
// Parsing. The scanners walk the blob byte by byte; the parse functions are
// the specification of exactly which blobs `materialize` accepts: a JSON
// object whose keys are the labels and whose values are objects carrying
// the three base64 fields under `salt`, `nonce` and `cipherText`, each
// exactly once, in any order, with JSON whitespace and string escapes.
// ---------------------------------------------------------------------------

/// A parsed entry before labels are decoded: label bytes, salt, nonce,
/// ciphertext.
pub type RawEntry = (Seq<u8>, Seq<u8>, Seq<u8>, Seq<u8>);

/// JSON whitespace: space, tab, line feed, carriage return.
pub open spec fn is_ws(b: u8) -> bool {
    b == 32 || b == 9 || b == 10 || b == 13
}

/// First position at or after `i` holding no whitespace.
pub open spec fn skip_ws(d: Seq<u8>, i: int) -> int
    decreases d.len() - i,
{
    if 0 <= i < d.len() && is_ws(d[i]) {
        skip_ws(d, i + 1)
    } else {
        i
    }
}

/// The value of a hexadecimal digit, of either case; negative otherwise.
pub open spec fn hex_val(b: u8) -> int {
    if 48 <= b <= 57 {
        b - 48
    } else if 97 <= b <= 102 {
        b - 87
    } else if 65 <= b <= 70 {
        b - 55
    } else {
        -1
    }
}

/// The value of four hexadecimal digits at `i`; negative if out of range
/// or not all digits.
pub open spec fn hex4(d: Seq<u8>, i: int) -> int {
    if 0 <= i && i + 4 <= d.len() && hex_val(d[i]) >= 0 && hex_val(d[i + 1]) >= 0 && hex_val(
        d[i + 2],
    ) >= 0 && hex_val(d[i + 3]) >= 0 {
        hex_val(d[i]) * 4096 + hex_val(d[i + 1]) * 256 + hex_val(d[i + 2]) * 16 + hex_val(d[i + 3])
    } else {
        -1
    }
}

/// The byte a single-character string escape stands for; negative for
/// anything that is no such escape (`\u` is handled separately).
pub open spec fn esc_code(e: u8) -> int {
    if e == 34 {
        34
    } else if e == 92 {
        92
    } else if e == 47 {
        47
    } else if e == 98 {
        8
    } else if e == 102 {
        12
    } else if e == 110 {
        10
    } else if e == 114 {
        13
    } else if e == 116 {
        9
    } else {
        -1
    }
}

/// The UTF-8 bytes of a scalar value.
pub open spec fn scalar_bytes(cp: int) -> Seq<u8> {
    if cp < 0x80 {
        seq![cp as u8]
    } else if cp < 0x800 {
        seq![(0xC0 + cp / 0x40) as u8, (0x80 + cp % 0x40) as u8]
    } else if cp < 0x10000 {
        seq![(0xE0 + cp / 0x1000) as u8, (0x80 + (cp / 0x40) % 0x40) as u8, (0x80 + cp % 0x40) as u8]
    } else {
        seq![
            (0xF0 + cp / 0x40000) as u8,
            (0x80 + (cp / 0x1000) % 0x40) as u8,
            (0x80 + (cp / 0x40) % 0x40) as u8,
            (0x80 + cp % 0x40) as u8,
        ]
    }
}

/// Scans a JSON string body from `i` (the opening quote already consumed)
/// to its closing quote, unescaping as it goes: the single-character
/// escapes, `\uXXXX`, and surrogate pairs; raw control bytes are not valid.
/// Yields the unescaped bytes and the position after the closing quote.
pub open spec fn scan_string(d: Seq<u8>, i: int) -> Option<(Seq<u8>, int)>
    decreases d.len() - i,
{
    if i < 0 || i >= d.len() {
        None
    } else if d[i] == 34 {
        Some((Seq::empty(), i + 1))
    } else if d[i] == 92 {
        if i + 1 >= d.len() {
            None
        } else {
            let e = d[i + 1];
            if esc_code(e) >= 0 {
                match scan_string(d, i + 2) {
                    Some(p) => Some((seq![esc_code(e) as u8] + p.0, p.1)),
                    None => None,
                }
            } else if e == 117 {
                let cu = hex4(d, i + 2);
                if cu < 0 {
                    None
                } else if 0xD800 <= cu < 0xDC00 {
                    if i + 12 <= d.len() && d[i + 6] == 92 && d[i + 7] == 117 {
                        let cu2 = hex4(d, i + 8);
                        if 0xDC00 <= cu2 < 0xE000 {
                            match scan_string(d, i + 12) {
                                Some(p) => Some(
                                    (
                                        scalar_bytes(
                                            0x10000 + (cu - 0xD800) * 0x400 + (cu2 - 0xDC00),
                                        ) + p.0,
                                        p.1,
                                    ),
                                ),
                                None => None,
                            }
                        } else {
                            None
                        }
                    } else {
                        None
                    }
                } else if 0xDC00 <= cu < 0xE000 {
                    None
                } else {
                    match scan_string(d, i + 6) {
                        Some(p) => Some((scalar_bytes(cu) + p.0, p.1)),
                        None => None,
                    }
                }
            } else {
                None
            }
        }
    } else if d[i] < 32 {
        None
    } else {
        match scan_string(d, i + 1) {
            Some(p) => Some((seq![d[i]] + p.0, p.1)),
            None => None,
        }
    }
}

/// The literal `lit` stands at `i`; yields the position after it.
pub open spec fn expect(d: Seq<u8>, i: int, lit: Seq<u8>) -> Option<int> {
    if 0 <= i && i + lit.len() <= d.len() && d.subrange(i, i + lit.len()) == lit {
        Some(i + lit.len())
    } else {
        None
    }
}

/// The bytes of the key `salt`.
pub open spec fn name_salt() -> Seq<u8> {
    seq![115u8, 97, 108, 116]
}

/// The bytes of the key `nonce`.
pub open spec fn name_nonce() -> Seq<u8> {
    seq![110u8, 111, 110, 99, 101]
}

/// The bytes of the key `cipherText`.
pub open spec fn name_ct() -> Seq<u8> {
    seq![99u8, 105, 112, 104, 101, 114, 84, 101, 120, 116]
}

/// The record's fields from `i` (at the opening quote of a key) to the
/// record's closing brace: quoted key, colon, quoted base64 value, repeated
/// over commas. Each of the three keys must appear exactly once, in any
/// order; any other key, a repeat, or a missing one rejects the record.
pub open spec fn parse_fields(
    d: Seq<u8>,
    i: int,
    s: Option<Seq<u8>>,
    n: Option<Seq<u8>>,
    c: Option<Seq<u8>>,
) -> Option<((Seq<u8>, Seq<u8>, Seq<u8>), int)>
    decreases d.len() - i,
{
    match expect(d, i, seq![34u8]) {
        None => None,
        Some(i1) => match scan_string(d, i1) {
            None => None,
            Some((key, i2)) => {
                let i3 = skip_ws(d, i2);
                match expect(d, i3, seq![58u8]) {
                    None => None,
                    Some(i4a) => {
                        let i4 = skip_ws(d, i4a);
                        match expect(d, i4, seq![34u8]) {
                            None => None,
                            Some(i5) => match scan_string(d, i5) {
                                None => None,
                                Some((vraw, i6)) => match b64_decode(vraw) {
                                    None => None,
                                    Some(v) => {
                                        let upd = if key == name_salt() && s is None {
                                            Some((Some(v), n, c))
                                        } else if key == name_nonce() && n is None {
                                            Some((s, Some(v), c))
                                        } else if key == name_ct() && c is None {
                                            Some((s, n, Some(v)))
                                        } else {
                                            None
                                        };
                                        match upd {
                                            None => None,
                                            Some((s2, n2, c2)) => {
                                                let k = skip_ws(d, i6);
                                                if k < d.len() && d[k] == 44 {
                                                    let i7 = skip_ws(d, k + 1);
                                                    if i7 <= i || i7 > d.len() {
                                                        None
                                                    } else {
                                                        parse_fields(d, i7, s2, n2, c2)
                                                    }
                                                } else if k < d.len() && d[k] == 125 {
                                                    match (s2, n2, c2) {
                                                        (Some(a), Some(b), Some(cc)) => Some(
                                                            ((a, b, cc), k + 1),
                                                        ),
                                                        _ => None,
                                                    }
                                                } else {
                                                    None
                                                }
                                            },
                                        }
                                    },
                                },
                            },
                        }
                    },
                }
            },
        },
    }
}

/// One serialized entry from `i` (at the opening quote of its label): the
/// quoted label, a colon, and the record object with its three fields.
pub open spec fn parse_entry(d: Seq<u8>, i: int) -> Option<(RawEntry, int)> {
    match expect(d, i, seq![34u8]) {
        None => None,
        Some(i1) => match scan_string(d, i1) {
            None => None,
            Some((lab, i2)) => {
                let i3 = skip_ws(d, i2);
                match expect(d, i3, seq![58u8]) {
                    None => None,
                    Some(i4a) => {
                        let i4 = skip_ws(d, i4a);
                        match expect(d, i4, seq![123u8]) {
                            None => None,
                            Some(i5a) => {
                                let i5 = skip_ws(d, i5a);
                                match parse_fields(d, i5, None, None, None) {
                                    None => None,
                                    Some(((s, n, c), j)) => Some(((lab, s, n, c), j)),
                                }
                            },
                        }
                    },
                }
            },
        },
    }
}

/// Skipping whitespace stays inside the blob.
pub proof fn lemma_skip_ws_bounds(d: Seq<u8>, i: int)
    requires
        0 <= i <= d.len(),
    ensures
        i <= skip_ws(d, i) <= d.len(),
    decreases d.len() - i,
{
    if i < d.len() && is_ws(d[i]) {
        lemma_skip_ws_bounds(d, i + 1);
    }
}

/// A string scan that succeeds moves the position forward and stays in
/// the blob.
pub proof fn lemma_scan_string_bounds(d: Seq<u8>, i: int)
    ensures
        scan_string(d, i) matches Some(p) ==> i < p.1 <= d.len(),
    decreases d.len() - i,
{
    if 0 <= i && i < d.len() && d[i] != 34 {
        if d[i] == 92 {
            if i + 1 < d.len() {
                let e = d[i + 1];
                if esc_code(e) >= 0 {
                    lemma_scan_string_bounds(d, i + 2);
                } else if e == 117 {
                    let cu = hex4(d, i + 2);
                    if cu >= 0 {
                        if 0xD800 <= cu < 0xDC00 {
                            if i + 12 <= d.len() && d[i + 6] == 92 && d[i + 7] == 117 {
                                lemma_scan_string_bounds(d, i + 12);
                            }
                        } else if !(0xDC00 <= cu < 0xE000) {
                            lemma_scan_string_bounds(d, i + 6);
                        }
                    }
                }
            }
        } else if d[i] >= 32 {
            lemma_scan_string_bounds(d, i + 1);
        }
    }
}

/// A field parse that succeeds moves the position forward and stays in
/// the blob.
pub proof fn lemma_parse_fields_bounds(
    d: Seq<u8>,
    i: int,
    s: Option<Seq<u8>>,
    n: Option<Seq<u8>>,
    c: Option<Seq<u8>>,
)
    ensures
        parse_fields(d, i, s, n, c) matches Some(p) ==> i < p.1 <= d.len(),
    decreases d.len() - i,
{
    if parse_fields(d, i, s, n, c) is Some {
        lemma_scan_string_bounds(d, i + 1);
        let (key, i2) = scan_string(d, i + 1).unwrap();
        let i3 = skip_ws(d, i2);
        lemma_skip_ws_bounds(d, i2);
        let i4 = skip_ws(d, i3 + 1);
        lemma_skip_ws_bounds(d, i3 + 1);
        lemma_scan_string_bounds(d, i4 + 1);
        let (vraw, i6) = scan_string(d, i4 + 1).unwrap();
        let k = skip_ws(d, i6);
        lemma_skip_ws_bounds(d, i6);
        if k < d.len() && d[k] == 44 {
            let i7 = skip_ws(d, k + 1);
            if i < i7 <= d.len() {
                let key2 = key;
                let upd = if key2 == name_salt() && s is None {
                    Some((Some(b64_decode(vraw).unwrap()), n, c))
                } else if key2 == name_nonce() && n is None {
                    Some((s, Some(b64_decode(vraw).unwrap()), c))
                } else {
                    Some((s, n, Some(b64_decode(vraw).unwrap())))
                };
                let (s2, n2, c2) = upd.unwrap();
                lemma_parse_fields_bounds(d, i7, s2, n2, c2);
            }
        }
    }
}

/// An entry that parses moves the position forward and stays in the blob.
pub proof fn lemma_parse_entry_bounds(d: Seq<u8>, i: int)
    ensures
        parse_entry(d, i) matches Some(p) ==> i < p.1 <= d.len(),
{
    if parse_entry(d, i) is Some {
        lemma_scan_string_bounds(d, i + 1);
        let (lab, i2) = scan_string(d, i + 1).unwrap();
        let i3 = skip_ws(d, i2);
        lemma_skip_ws_bounds(d, i2);
        let i4 = skip_ws(d, i3 + 1);
        lemma_skip_ws_bounds(d, i3 + 1);
        let i5 = skip_ws(d, i4 + 1);
        lemma_skip_ws_bounds(d, i4 + 1);
        lemma_parse_fields_bounds(d, i5, None, None, None);
    }
}

/// The comma-separated entry list from `i` (at the opening quote of the
/// first label), ending at the first non-comma after an entry, whitespace
/// skipped.
pub open spec fn parse_entries(d: Seq<u8>, i: int) -> Option<(Seq<RawEntry>, int)>
    decreases d.len() - i,
{
    match parse_entry(d, i) {
        None => None,
        Some((e, j)) => if j <= i || j > d.len() {
            None
        } else {
            let k = skip_ws(d, j);
            if k < d.len() && d[k] == 44 {
                let i2 = skip_ws(d, k + 1);
                if i2 <= i || i2 > d.len() {
                    None
                } else {
                    match parse_entries(d, i2) {
                        Some((es, m)) => Some((seq![e] + es, m)),
                        None => None,
                    }
                }
            } else {
                Some((seq![e], k))
            }
        },
    }
}

/// The whole blob: one object of entries, whitespace allowed around and
/// between tokens, nothing else before or after.
pub open spec fn parse_vault(d: Seq<u8>) -> Option<Seq<RawEntry>> {
    let i0 = skip_ws(d, 0);
    if i0 >= d.len() || d[i0] != 123 {
        None
    } else {
        let i1 = skip_ws(d, i0 + 1);
        if i1 < d.len() && d[i1] == 125 {
            if skip_ws(d, i1 + 1) == d.len() {
                Some(Seq::empty())
            } else {
                None
            }
        } else {
            match parse_entries(d, i1) {
                Some((es, k)) => if k < d.len() && d[k] == 125 && skip_ws(d, k + 1) == d.len() {
                    Some(es)
                } else {
                    None
                },
                None => None,
            }
        }
    }
}

/// Every parsed label is valid UTF-8.
pub open spec fn raw_ok(raw: Seq<RawEntry>) -> bool {
    forall|k: int| 0 <= k < raw.len() ==> valid_utf8(#[trigger] raw[k].0)
}

/// The decoded pairs a raw parse denotes.
pub open spec fn raw_pairs(raw: Seq<RawEntry>) -> Seq<(Seq<char>, EntryView)> {
    raw.map_values(
        |r: RawEntry| (decode_utf8(r.0), EntryView { salt: r.1, nonce: r.2, cipher_text: r.3 }),
    )
}

/// The labels of a pair sequence are pairwise distinct.
pub open spec fn plabels_distinct(ps: Seq<(Seq<char>, EntryView)>) -> bool {
    forall|i: int, j: int| 0 <= i < j < ps.len() ==> ps[i].0 != ps[j].0
}

/// What `materialize` yields on a blob: the parsed pairs when the blob
/// parses, its labels decode, and no label repeats; nothing otherwise.
pub open spec fn spec_materialize(d: Seq<u8>) -> Option<Seq<(Seq<char>, EntryView)>> {
    match parse_vault(d) {
        None => None,
        Some(raw) => if raw_ok(raw) && plabels_distinct(raw_pairs(raw)) {
            Some(raw_pairs(raw))
        } else {
            None
        },
    }
}

/// Exec form of `skip_ws`.
fn skip_ws_exec(d: &Vec<u8>, start: usize) -> (r: usize)
    requires
        start <= d@.len(),
    ensures
        r == skip_ws(d@, start as int),
        start <= r <= d@.len(),
{
    let n = d.len();
    let mut i: usize = start;
    while i < n && (d[i] == 32 || d[i] == 9 || d[i] == 10 || d[i] == 13)
        invariant
            n == d@.len(),
            start <= i <= n,
            skip_ws(d@, start as int) == skip_ws(d@, i as int),
        decreases n - i,
    {
        i += 1;
    }
    proof {
        assert(skip_ws(d@, i as int) == i);
    }
    i
}

/// Exec form of `hex_val`.
fn hex_val_exec(b: u8) -> (r: Option<u8>)
    ensures
        match r {
            Some(v) => hex_val(b) == v,
            None => hex_val(b) < 0,
        },
{
    if 48 <= b && b <= 57 {
        Some(b - 48)
    } else if 97 <= b && b <= 102 {
        Some(b - 87)
    } else if 65 <= b && b <= 70 {
        Some(b - 55)
    } else {
        None
    }
}

/// Exec form of `hex4`.
fn hex4_exec(d: &Vec<u8>, at: usize) -> (r: Option<u32>)
    ensures
        match r {
            Some(v) => hex4(d@, at as int) == v && v < 0x10000,
            None => hex4(d@, at as int) < 0,
        },
{
    let n = d.len();
    if at > n || n - at < 4 {
        return None;
    }
    let h0 = match hex_val_exec(d[at]) {
        None => {
            return None;
        },
        Some(v) => v,
    };
    let h1 = match hex_val_exec(d[at + 1]) {
        None => {
            return None;
        },
        Some(v) => v,
    };
    let h2 = match hex_val_exec(d[at + 2]) {
        None => {
            return None;
        },
        Some(v) => v,
    };
    let h3 = match hex_val_exec(d[at + 3]) {
        None => {
            return None;
        },
        Some(v) => v,
    };
    Some((h0 as u32) * 4096 + (h1 as u32) * 256 + (h2 as u32) * 16 + (h3 as u32))
}

/// Exec form of `esc_code`.
fn esc_code_exec(e: u8) -> (r: Option<u8>)
    ensures
        match r {
            Some(v) => esc_code(e) == v,
            None => esc_code(e) < 0,
        },
{
    if e == 34 {
        Some(34)
    } else if e == 92 {
        Some(92)
    } else if e == 47 {
        Some(47)
    } else if e == 98 {
        Some(8)
    } else if e == 102 {
        Some(12)
    } else if e == 110 {
        Some(10)
    } else if e == 114 {
        Some(13)
    } else if e == 116 {
        Some(9)
    } else {
        None
    }
}

/// Appends the UTF-8 bytes of a scalar value to `acc`.
fn push_scalar(acc: &mut Vec<u8>, cp: u32)
    requires
        cp < 0x110000,
    ensures
        final(acc)@ == old(acc)@ + scalar_bytes(cp as int),
{
    if cp < 0x80 {
        acc.push(cp as u8);
    } else if cp < 0x800 {
        acc.push((0xC0 + cp / 0x40) as u8);
        acc.push((0x80 + cp % 0x40) as u8);
    } else if cp < 0x10000 {
        acc.push((0xE0 + cp / 0x1000) as u8);
        acc.push((0x80 + (cp / 0x40) % 0x40) as u8);
        acc.push((0x80 + cp % 0x40) as u8);
    } else {
        acc.push((0xF0 + cp / 0x40000) as u8);
        acc.push((0x80 + (cp / 0x1000) % 0x40) as u8);
        acc.push((0x80 + (cp / 0x40) % 0x40) as u8);
        acc.push((0x80 + cp % 0x40) as u8);
    }
    proof {
        assert(acc@ =~= old(acc)@ + scalar_bytes(cp as int));
    }
}

/// Exec form of `scan_string`.
#[verifier::rlimit(100)]
fn scan_string_exec(d: &Vec<u8>, start: usize) -> (r: Option<(Vec<u8>, usize)>)
    ensures
        match r {
            Some(p) => scan_string(d@, start as int) == Some((p.0@, p.1 as int)),
            None => scan_string(d@, start as int) is None,
        },
{
    let n = d.len();
    let mut i: usize = start;
    let mut acc: Vec<u8> = Vec::new();
    loop
        invariant
            n == d@.len(),
            start <= i,
            scan_string(d@, start as int) == (match scan_string(d@, i as int) {
                Some(p) => Some((acc@ + p.0, p.1)),
                None => None::<(Seq<u8>, int)>,
            }),
        decreases n - i,
    {
        if i >= n {
            return None;
        }
        let b = d[i];
        if b == 34 {
            proof {
                assert(scan_string(d@, i as int) == Some((Seq::<u8>::empty(), i + 1)));
                assert(acc@ + Seq::<u8>::empty() =~= acc@);
            }
            return Some((acc, i + 1));
        }
        if b == 92 {
            if i + 1 >= n {
                return None;
            }
            let e = d[i + 1];
            match esc_code_exec(e) {
                Some(cb) => {
                    acc.push(cb);
                    proof {
                        if scan_string(d@, i + 2) is Some {
                            let p = scan_string(d@, i + 2).unwrap();
                            assert(scan_string(d@, i as int) == Some((seq![cb] + p.0, p.1)));
                            assert(acc@.drop_last() + (seq![cb] + p.0) =~= acc@ + p.0);
                        }
                    }
                    i += 2;
                },
                None => {
                    if e != 117 {
                        return None;
                    }
                    let cu = match hex4_exec(d, i + 2) {
                        None => {
                            return None;
                        },
                        Some(v) => v,
                    };
                    if 0xD800 <= cu && cu < 0xDC00 {
                        if n - i < 12 || d[i + 6] != 92 || d[i + 7] != 117 {
                            return None;
                        }
                        let cu2 = match hex4_exec(d, i + 8) {
                            None => {
                                return None;
                            },
                            Some(v) => v,
                        };
                        if !(0xDC00 <= cu2 && cu2 < 0xE000) {
                            return None;
                        }
                        let cp = 0x10000 + (cu - 0xD800) * 0x400 + (cu2 - 0xDC00);
                        let ghost acc0 = acc@;
                        push_scalar(&mut acc, cp);
                        proof {
                            if scan_string(d@, i + 12) is Some {
                                let p = scan_string(d@, i + 12).unwrap();
                                assert(scan_string(d@, i as int) == Some(
                                    (scalar_bytes(cp as int) + p.0, p.1),
                                ));
                                assert(acc0 + (scalar_bytes(cp as int) + p.0) =~= acc@ + p.0);
                            }
                        }
                        i += 12;
                    } else if 0xDC00 <= cu && cu < 0xE000 {
                        return None;
                    } else {
                        let ghost acc0 = acc@;
                        push_scalar(&mut acc, cu);
                        proof {
                            if scan_string(d@, i + 6) is Some {
                                let p = scan_string(d@, i + 6).unwrap();
                                assert(scan_string(d@, i as int) == Some(
                                    (scalar_bytes(cu as int) + p.0, p.1),
                                ));
                                assert(acc0 + (scalar_bytes(cu as int) + p.0) =~= acc@ + p.0);
                            }
                        }
                        i += 6;
                    }
                },
            }
        } else if b < 32 {
            return None;
        } else {
            acc.push(b);
            proof {
                if scan_string(d@, i + 1) is Some {
                    let p = scan_string(d@, i + 1).unwrap();
                    assert(scan_string(d@, i as int) == Some((seq![b] + p.0, p.1)));
                    assert(acc@.drop_last() + (seq![b] + p.0) =~= acc@ + p.0);
                }
            }
            i += 1;
        }
    }
}

/// The two byte sequences are equal.
fn bytes_eq(a: &Vec<u8>, b: &Vec<u8>) -> (r: bool)
    ensures
        r == (a@ == b@),
{
    if a.len() != b.len() {
        proof {
            assert(a@ != b@);
        }
        return false;
    }
    let n = a.len();
    let mut i: usize = 0;
    while i < n
        invariant
            n == a@.len() == b@.len(),
            i <= n,
            forall|k: int| 0 <= k < i ==> a@[k] == b@[k],
        decreases n - i,
    {
        if a[i] != b[i] {
            return false;
        }
        i += 1;
    }
    proof {
        assert(a@ =~= b@);
    }
    true
}

/// The bytes of the key `salt`.
fn name_salt_vec() -> (r: Vec<u8>)
    ensures
        r@ == name_salt(),
{
    let mut v: Vec<u8> = Vec::new();
    v.push(115);
    v.push(97);
    v.push(108);
    v.push(116);
    proof {
        assert(v@ =~= name_salt());
    }
    v
}

/// The bytes of the key `nonce`.
fn name_nonce_vec() -> (r: Vec<u8>)
    ensures
        r@ == name_nonce(),
{
    let mut v: Vec<u8> = Vec::new();
    v.push(110);
    v.push(111);
    v.push(110);
    v.push(99);
    v.push(101);
    proof {
        assert(v@ =~= name_nonce());
    }
    v
}

/// The bytes of the key `cipherText`.
fn name_ct_vec() -> (r: Vec<u8>)
    ensures
        r@ == name_ct(),
{
    let mut v: Vec<u8> = Vec::new();
    v.push(99);
    v.push(105);
    v.push(112);
    v.push(104);
    v.push(101);
    v.push(114);
    v.push(84);
    v.push(101);
    v.push(120);
    v.push(116);
    proof {
        assert(v@ =~= name_ct());
    }
    v
}

/// The view of an optional byte vector.
pub open spec fn opt_bytes(o: Option<Vec<u8>>) -> Option<Seq<u8>> {
    match o {
        Some(v) => Some(v@),
        None => None,
    }
}

/// Exec form of `parse_fields`, from the all-unset start.
#[verifier::rlimit(100)]
fn parse_fields_exec(d: &Vec<u8>, start: usize) -> (r: Option<((Vec<u8>, Vec<u8>, Vec<u8>), usize)>)
    ensures
        match r {
            Some(p) => parse_fields(d@, start as int, None, None, None) == Some(
                (((p.0).0@, (p.0).1@, (p.0).2@), p.1 as int),
            ) && p.1 <= d@.len(),
            None => parse_fields(d@, start as int, None, None, None) is None,
        },
{
    let n = d.len();
    let mut i: usize = start;
    let mut salt: Option<Vec<u8>> = None;
    let mut nonce: Option<Vec<u8>> = None;
    let mut ct: Option<Vec<u8>> = None;
    loop
        invariant
            n == d@.len(),
            i <= n || i == start,
            parse_fields(d@, start as int, None, None, None) == parse_fields(
                d@,
                i as int,
                opt_bytes(salt),
                opt_bytes(nonce),
                opt_bytes(ct),
            ),
        decreases n - i,
    {
        let ghost i_at = i as int;
        let ghost s_at = opt_bytes(salt);
        let ghost n_at = opt_bytes(nonce);
        let ghost c_at = opt_bytes(ct);
        if i >= n || d[i] != 34 {
            proof {
                if i < n {
                    assert(d@.subrange(i as int, i + 1) =~= seq![d@[i as int]]);
                    assert(d@.subrange(i as int, i + 1) != seq![34u8]) by {
                        assert(d@.subrange(i as int, i + 1)[0] == d@[i as int]);
                    }
                }
                assert(expect(d@, i as int, seq![34u8]) is None);
            }
            return None;
        }
        proof {
            assert(d@.subrange(i as int, i + 1) =~= seq![34u8]);
            assert(expect(d@, i as int, seq![34u8]) == Some(i + 1));
        }
        let (key, i2) = match scan_string_exec(d, i + 1) {
            None => {
                return None;
            },
            Some(p) => p,
        };
        proof {
            lemma_scan_string_bounds(d@, i + 1);
        }
        let i3 = skip_ws_exec(d, i2);
        if i3 >= n || d[i3] != 58 {
            proof {
                if i3 < n {
                    assert(d@.subrange(i3 as int, i3 + 1) =~= seq![d@[i3 as int]]);
                    assert(d@.subrange(i3 as int, i3 + 1) != seq![58u8]) by {
                        assert(d@.subrange(i3 as int, i3 + 1)[0] == d@[i3 as int]);
                    }
                }
                assert(expect(d@, i3 as int, seq![58u8]) is None);
            }
            return None;
        }
        proof {
            assert(d@.subrange(i3 as int, i3 + 1) =~= seq![58u8]);
            assert(expect(d@, i3 as int, seq![58u8]) == Some(i3 + 1));
        }
        let i4 = skip_ws_exec(d, i3 + 1);
        if i4 >= n || d[i4] != 34 {
            proof {
                if i4 < n {
                    assert(d@.subrange(i4 as int, i4 + 1) =~= seq![d@[i4 as int]]);
                    assert(d@.subrange(i4 as int, i4 + 1) != seq![34u8]) by {
                        assert(d@.subrange(i4 as int, i4 + 1)[0] == d@[i4 as int]);
                    }
                }
                assert(expect(d@, i4 as int, seq![34u8]) is None);
            }
            return None;
        }
        proof {
            assert(d@.subrange(i4 as int, i4 + 1) =~= seq![34u8]);
            assert(expect(d@, i4 as int, seq![34u8]) == Some(i4 + 1));
        }
        let (vraw, i6) = match scan_string_exec(d, i4 + 1) {
            None => {
                return None;
            },
            Some(p) => p,
        };
        proof {
            lemma_scan_string_bounds(d@, i4 + 1);
        }
        let v = match b64_decode_exec(&vraw) {
            None => {
                return None;
            },
            Some(v) => v,
        };
        let ns = name_salt_vec();
        let nn = name_nonce_vec();
        let nc = name_ct_vec();
        if bytes_eq(&key, &ns) {
            if salt.is_some() {
                return None;
            }
            salt = Some(v);
        } else if bytes_eq(&key, &nn) {
            if nonce.is_some() {
                return None;
            }
            nonce = Some(v);
        } else if bytes_eq(&key, &nc) {
            if ct.is_some() {
                return None;
            }
            ct = Some(v);
        } else {
            return None;
        }
        let k = skip_ws_exec(d, i6);
        if k < n && d[k] == 44 {
            let i7 = skip_ws_exec(d, k + 1);
            proof {
                assert(i_at < i7 && i7 <= d@.len());
                assert(parse_fields(d@, i_at, s_at, n_at, c_at) == parse_fields(
                    d@,
                    i7 as int,
                    opt_bytes(salt),
                    opt_bytes(nonce),
                    opt_bytes(ct),
                ));
            }
            i = i7;
        } else if k < n && d[k] == 125 {
            proof {
                assert(parse_fields(d@, i_at, s_at, n_at, c_at) matches Some(q) ==> q.1 == k + 1);
            }
            match (salt, nonce, ct) {
                (Some(a), Some(b), Some(c)) => {
                    return Some(((a, b, c), k + 1));
                },
                _ => {
                    return None;
                },
            }
        } else {
            return None;
        }
    }
}

/// Exec form of `parse_entry`.
fn parse_entry_exec(d: &Vec<u8>, i: usize) -> (r: Option<((Vec<u8>, Vec<u8>, Vec<u8>, Vec<u8>), usize)>)
    ensures
        match r {
            Some(p) => parse_entry(d@, i as int) == Some(
                (((p.0).0@, (p.0).1@, (p.0).2@, (p.0).3@), p.1 as int),
            ),
            None => parse_entry(d@, i as int) is None,
        },
{
    let n = d.len();
    if i >= n || d[i] != 34 {
        proof {
            if i < n {
                assert(d@.subrange(i as int, i + 1) =~= seq![d@[i as int]]);
                assert(d@.subrange(i as int, i + 1) != seq![34u8]) by {
                    assert(d@.subrange(i as int, i + 1)[0] == d@[i as int]);
                }
            }
            assert(expect(d@, i as int, seq![34u8]) is None);
        }
        return None;
    }
    proof {
        assert(d@.subrange(i as int, i + 1) =~= seq![34u8]);
        assert(expect(d@, i as int, seq![34u8]) == Some(i + 1));
    }
    let (lab, i2) = match scan_string_exec(d, i + 1) {
        None => {
            return None;
        },
        Some(p) => p,
    };
    proof {
        lemma_scan_string_bounds(d@, i + 1);
    }
    let i3 = skip_ws_exec(d, i2);
    if i3 >= n || d[i3] != 58 {
        proof {
            if i3 < n {
                assert(d@.subrange(i3 as int, i3 + 1) =~= seq![d@[i3 as int]]);
                assert(d@.subrange(i3 as int, i3 + 1) != seq![58u8]) by {
                    assert(d@.subrange(i3 as int, i3 + 1)[0] == d@[i3 as int]);
                }
            }
            assert(expect(d@, i3 as int, seq![58u8]) is None);
        }
        return None;
    }
    proof {
        assert(d@.subrange(i3 as int, i3 + 1) =~= seq![58u8]);
        assert(expect(d@, i3 as int, seq![58u8]) == Some(i3 + 1));
    }
    let i4 = skip_ws_exec(d, i3 + 1);
    if i4 >= n || d[i4] != 123 {
        proof {
            if i4 < n {
                assert(d@.subrange(i4 as int, i4 + 1) =~= seq![d@[i4 as int]]);
                assert(d@.subrange(i4 as int, i4 + 1) != seq![123u8]) by {
                    assert(d@.subrange(i4 as int, i4 + 1)[0] == d@[i4 as int]);
                }
            }
            assert(expect(d@, i4 as int, seq![123u8]) is None);
        }
        return None;
    }
    proof {
        assert(d@.subrange(i4 as int, i4 + 1) =~= seq![123u8]);
        assert(expect(d@, i4 as int, seq![123u8]) == Some(i4 + 1));
    }
    let i5 = skip_ws_exec(d, i4 + 1);
    match parse_fields_exec(d, i5) {
        None => None,
        Some(((s, nn, c), j)) => Some(((lab, s, nn, c), j)),
    }
}

/// Builds the mapping from a serialized blob, or from nothing. No blob —
/// no vault yet — yields the empty mapping. A blob yields the mapping it
/// describes exactly when it parses as a JSON object of the vault schema:
/// label keys, each value an object with `salt`, `nonce` and `cipherText`
/// base64 fields, each exactly once in any order, whitespace and standard
/// string escapes allowed. Anything else — truncated or reshaped text, an
/// undecodable field or label, a repeated field or label — is rejected
/// whole as `VaultCorrupt`, and no partial mapping escapes.
#[verifier::rlimit(100)]
pub fn materialize(blob: Option<&Vec<u8>>) -> (r: Result<VaultMap, VaultError>)
    ensures
        match blob {
            None => r matches Ok(m) && m.wf() && m@ == Map::<Seq<char>, EntryView>::empty()
                && m.pairs() == Seq::<(Seq<char>, EntryView)>::empty(),
            Some(d) => match r {
                Ok(m) => m.wf() && spec_materialize(d@) == Some(m.pairs()),
                Err(e) => e == VaultError::VaultCorrupt && spec_materialize(d@) is None,
            },
        },
{
    let d = match blob {
        None => {
            let m = VaultMap::new();
            proof {
                assert(m.pairs() =~= Seq::<(Seq<char>, EntryView)>::empty());
            }
            return Ok(m);
        },
        Some(d) => d,
    };
    let n = d.len();
    let i0 = skip_ws_exec(d, 0);
    if i0 >= n || d[i0] != 123 {
        return Err(VaultError::VaultCorrupt);
    }
    let i1 = skip_ws_exec(d, i0 + 1);
    if i1 < n && d[i1] == 125 {
        let endp = skip_ws_exec(d, i1 + 1);
        if endp == n {
            let m = VaultMap::new();
            proof {
                let raw = Seq::<RawEntry>::empty();
                assert(parse_vault(d@) == Some(raw));
                assert(raw_pairs(raw) =~= Seq::<(Seq<char>, EntryView)>::empty());
                assert(m.pairs() =~= Seq::<(Seq<char>, EntryView)>::empty());
            }
            return Ok(m);
        }
        return Err(VaultError::VaultCorrupt);
    }
    proof {
        assert(parse_vault(d@) == (match parse_entries(d@, i1 as int) {
            Some(p) => if p.1 < d@.len() && d@[p.1] == 125 && skip_ws(d@, p.1 + 1) == d@.len() {
                Some(p.0)
            } else {
                None::<Seq<RawEntry>>
            },
            None => None::<Seq<RawEntry>>,
        }));
    }
    let mut vm = VaultMap::new();
    let ghost mut done: Seq<RawEntry> = Seq::empty();
    let mut i: usize = i1;
    proof {
        assert(vm.pairs() =~= raw_pairs(done));
        if parse_entries(d@, i1 as int) is Some {
            let p = parse_entries(d@, i1 as int).unwrap();
            assert(done + p.0 =~= p.0);
        }
    }
    loop
        invariant
            blob == Some(d),
            n == d@.len(),
            i1 <= i <= n,
            vm.wf(),
            raw_ok(done),
            vm.pairs() == raw_pairs(done),
            done.len() == vm.entries@.len(),
            plabels_distinct(raw_pairs(done)),
            parse_entries(d@, i1 as int) == (match parse_entries(d@, i as int) {
                Some(p) => Some((done + p.0, p.1)),
                None => None::<(Seq<RawEntry>, int)>,
            }),
            parse_vault(d@) == (match parse_entries(d@, i1 as int) {
                Some(p) => if p.1 < d@.len() && d@[p.1] == 125 && skip_ws(d@, p.1 + 1) == d@.len() {
                    Some(p.0)
                } else {
                    None::<Seq<RawEntry>>
                },
                None => None::<Seq<RawEntry>>,
            }),
        decreases n - i,
    {
        let ((lab_bytes, salt_v, nonce_v, ct_v), j) = match parse_entry_exec(d, i) {
            None => {
                proof {
                    assert(parse_entries(d@, i as int) is None);
                    assert(parse_entries(d@, i1 as int) is None);
                    assert(parse_vault(d@) is None);
                }
                return Err(VaultError::VaultCorrupt);
            },
            Some(p) => p,
        };
        let ghost raw_e: RawEntry = (lab_bytes@, salt_v@, nonce_v@, ct_v@);
        proof {
            lemma_parse_entry_bounds(d@, i as int);
        }
        let label = match bytes_to_text(lab_bytes) {
            None => {
                proof {
                    lemma_parse_prefix_none(d@, i1 as int, i as int, done, raw_e, j as int);
                    if parse_vault(d@) is Some {
                        let raw = parse_vault(d@).unwrap();
                        let q = parse_entries(d@, i1 as int).unwrap();
                        assert(q.0 == raw);
                        assert(raw[done.len() as int] == raw_e);
                        assert(!valid_utf8(raw_e.0));
                        assert(!raw_ok(raw));
                    }
                    assert(spec_materialize(d@) is None);
                }
                return Err(VaultError::VaultCorrupt);
            },
            Some(s) => s,
        };
        match crate::store::read_entry(&vm, &label) {
            Some(_) => {
                proof {
                    crate::store::lemma_pairs_to_map_key_origin(vm.entries@, label@);
                    lemma_parse_prefix_none(d@, i1 as int, i as int, done, raw_e, j as int);
                    vstd::utf8::encode_utf8_decode_utf8(label@);
                    if parse_vault(d@) is Some {
                        let raw = parse_vault(d@).unwrap();
                        let q = parse_entries(d@, i1 as int).unwrap();
                        assert(q.0 == raw);
                        let idx = choose|idx: int|
                            0 <= idx < vm.entries@.len() && vm.entries@[idx].0@ == label@;
                        assert(vm.pairs()[idx].0 == vm.entries@[idx].0@);
                        assert(raw[idx] == done[idx]);
                        assert(raw_pairs(raw)[idx].0 == decode_utf8(raw[idx].0));
                        assert(raw_pairs(done)[idx].0 == decode_utf8(done[idx].0));
                        assert(raw_pairs(raw)[idx].0 == label@);
                        assert(raw_pairs(raw)[done.len() as int].0 == decode_utf8(raw_e.0));
                        assert(decode_utf8(raw_e.0) == label@);
                        assert(!plabels_distinct(raw_pairs(raw)));
                    }
                    assert(spec_materialize(d@) is None);
                }
                return Err(VaultError::VaultCorrupt);
            },
            None => {},
        }
        let ghost vm_before = vm;
        let ghost lv: Seq<char> = label@;
        crate::store::add_entry(
            &mut vm,
            label,
            Entry { salt: salt_v, nonce: nonce_v, cipher_text: ct_v },
        );
        proof {
            let prev = vm_before.entries@;
            let p = vm.entries@.last();
            assert(vm.entries@ == prev.push(p));
            assert(p.0@ == lv);
            assert(encode_utf8(p.0@) == raw_e.0);
            vstd::utf8::encode_utf8_valid_utf8(lv);
            vstd::utf8::encode_utf8_decode_utf8(lv);
            assert(valid_utf8(raw_e.0));
            assert(decode_utf8(raw_e.0) == lv);
            assert forall|k2: int| 0 <= k2 < done.len() implies raw_pairs(done)[k2].0
                != decode_utf8(raw_e.0) by {
                assert(raw_pairs(done)[k2].0 == vm_before.pairs()[k2].0);
                assert(vm_before.pairs()[k2].0 == prev[k2].0@);
                if prev[k2].0@ == lv {
                    crate::store::lemma_pairs_to_map_index(prev, k2);
                }
            }
            lemma_step_extend(done, raw_e);
            done = done.push(raw_e);
            assert(p.1@ == (EntryView { salt: raw_e.1, nonce: raw_e.2, cipher_text: raw_e.3 }));
            assert(vm.pairs() =~= raw_pairs(done));
        }
        let k = skip_ws_exec(d, j);
        if k < n && d[k] == 44 {
            let i2 = skip_ws_exec(d, k + 1);
            proof {
                let old_done = done.drop_last();
                assert(old_done =~= done.subrange(0, done.len() - 1));
                if parse_entries(d@, i2 as int) is Some {
                    let p = parse_entries(d@, i2 as int).unwrap();
                    assert(parse_entries(d@, i as int) == Some((seq![raw_e] + p.0, p.1)));
                    assert(old_done + (seq![raw_e] + p.0) =~= done + p.0);
                } else {
                    assert(parse_entries(d@, i as int) is None);
                }
            }
            i = i2;
        } else {
            proof {
                assert(parse_entries(d@, i as int) == Some((seq![raw_e], k as int)));
                assert(done.drop_last() + seq![raw_e] =~= done);
                assert(parse_entries(d@, i1 as int) == Some((done, k as int)));
            }
            if k < n && d[k] == 125 {
                let endp = skip_ws_exec(d, k + 1);
                if endp == n {
                    proof {
                        assert(parse_vault(d@) == Some(done));
                        assert(spec_materialize(d@) == Some(raw_pairs(done)));
                    }
                    return Ok(vm);
                }
                proof {
                    assert(parse_vault(d@) is None);
                }
                return Err(VaultError::VaultCorrupt);
            }
            proof {
                assert(parse_vault(d@) is None);
            }
            return Err(VaultError::VaultCorrupt);
        }
    }
}

/// Appending a decodable entry whose label repeats no earlier one keeps
/// every label decodable, extends the decoded pairs by the new pair, and
/// keeps the decoded labels distinct.
proof fn lemma_step_extend(done: Seq<RawEntry>, raw_e: RawEntry)
    requires
        raw_ok(done),
        plabels_distinct(raw_pairs(done)),
        valid_utf8(raw_e.0),
        forall|k: int| 0 <= k < done.len() ==> raw_pairs(done)[k].0 != decode_utf8(raw_e.0),
    ensures
        raw_ok(done.push(raw_e)),
        raw_pairs(done.push(raw_e)) == raw_pairs(done).push(
            (decode_utf8(raw_e.0), (EntryView { salt: raw_e.1, nonce: raw_e.2, cipher_text: raw_e.3 })),
        ),
        plabels_distinct(raw_pairs(done.push(raw_e))),
{
    let done2 = done.push(raw_e);
    assert forall|k: int| 0 <= k < done2.len() implies valid_utf8(#[trigger] done2[k].0) by {
        if k < done.len() {
            assert(done2[k] == done[k]);
        }
    }
    assert(raw_pairs(done2) =~= raw_pairs(done).push(
        (decode_utf8(raw_e.0), (EntryView { salt: raw_e.1, nonce: raw_e.2, cipher_text: raw_e.3 })),
    ));
    assert forall|a: int, b: int| 0 <= a < b < raw_pairs(done2).len() implies raw_pairs(
        done2,
    )[a].0 != raw_pairs(done2)[b].0 by {
        if b < done.len() {
            assert(raw_pairs(done2)[a] == raw_pairs(done)[a]);
            assert(raw_pairs(done2)[b] == raw_pairs(done)[b]);
        } else {
            assert(raw_pairs(done2)[b].0 == decode_utf8(raw_e.0));
            assert(raw_pairs(done2)[a] == raw_pairs(done)[a]);
        }
    }
}

/// If the entry at `i` continues a parse whose earlier entries are `done`,
/// then in whatever full entry list parses from `start`, the entry at `i`
/// stands right after those of `done`: whatever the rest of the blob holds,
/// an undecodable or repeated label here corrupts the whole parse.
proof fn lemma_parse_prefix_none(
    d: Seq<u8>,
    start: int,
    i: int,
    done: Seq<RawEntry>,
    raw_e: RawEntry,
    j: int,
)
    requires
        parse_entry(d, i) == Some((raw_e, j)),
        i < j <= d.len(),
        parse_entries(d, start) == (match parse_entries(d, i) {
            Some(p) => Some((done + p.0, p.1)),
            None => None::<(Seq<RawEntry>, int)>,
        }),
    ensures
        parse_entries(d, start) matches Some(p) ==> {
            &&& done.len() < p.0.len()
            &&& p.0[done.len() as int] == raw_e
            &&& forall|k2: int| 0 <= k2 < done.len() ==> p.0[k2] == done[k2]
        },
{
    if parse_entries(d, start) is Some {
        let q = parse_entries(d, i).unwrap();
        let k = skip_ws(d, j);
        if k < d.len() && d[k] == 44 {
            let i2 = skip_ws(d, k + 1);
            if i2 <= i || i2 > d.len() {
                assert(parse_entries(d, i) is None);
                assert(false);
            } else if parse_entries(d, i2) is Some {
                let r2 = parse_entries(d, i2).unwrap();
                assert(q.0 == seq![raw_e] + r2.0);
                assert(q.0[0] == raw_e);
            } else {
                assert(false);
            }
        } else {
            assert(q.0 == seq![raw_e]);
        }
        assert(q.0.len() >= 1 && q.0[0] == raw_e);
        let p = parse_entries(d, start).unwrap();
        assert(p.0 == done + q.0);
        assert(p.0[done.len() as int] == raw_e);
        assert(forall|k2: int| 0 <= k2 < done.len() ==> p.0[k2] == done[k2]);
    }
}

/// A subrange of a matched region matches the region's subrange.
proof fn lemma_subrange_nested(d: Seq<u8>, i: int, whole: Seq<u8>, o1: int, o2: int)
    requires
        0 <= i,
        i + whole.len() <= d.len(),
        d.subrange(i, i + whole.len()) == whole,
        0 <= o1 <= o2 <= whole.len(),
    ensures
        d.subrange(i + o1, i + o2) == whole.subrange(o1, o2),
{
    assert forall|k: int| 0 <= k < o2 - o1 implies d.subrange(i + o1, i + o2)[k] == whole.subrange(
        o1,
        o2,
    )[k] by {
        assert(d.subrange(i, i + whole.len())[o1 + k] == whole[o1 + k]);
    }
    assert(d.subrange(i + o1, i + o2) =~= whole.subrange(o1, o2));
}

/// A byte that escaping leaves alone: printable and neither quote nor
/// backslash.
pub open spec fn text_safe(b: u8) -> bool {
    b >= 32 && b != 34 && b != 92
}

/// Escaping leaves a text-safe sequence unchanged.
proof fn lemma_esc_identity(s: Seq<u8>)
    requires
        forall|k: int| 0 <= k < s.len() ==> text_safe(#[trigger] s[k]),
    ensures
        esc(s) == s,
    decreases s.len(),
{
    if s.len() == 0 {
        assert(esc(s) =~= s);
    } else {
        lemma_esc_identity(s.skip(1));
        assert(esc_byte(s[0]) =~= seq![s[0]]);
        assert(esc(s) =~= s);
    }
}

/// Scanning a string region that was written as the escape of `c` followed
/// by its closing quote recovers `c` exactly.
#[verifier::rlimit(100)]
proof fn lemma_scan_string_complete(d: Seq<u8>, i: int, c: Seq<u8>)
    requires
        0 <= i,
        i + esc(c).len() + 1 <= d.len(),
        d.subrange(i, i + esc(c).len()) == esc(c),
        d[i + esc(c).len()] == 34,
    ensures
        scan_string(d, i) == Some((c, i + esc(c).len() + 1)),
    decreases c.len(),
{
    if c.len() == 0 {
        assert(esc(c).len() == 0);
        assert(scan_string(d, i) == Some((Seq::<u8>::empty(), i + 1)));
        assert(c =~= Seq::<u8>::empty());
    } else {
        let b = c[0];
        let c2 = c.skip(1);
        assert(esc(c) == esc_byte(b) + esc(c2));
        let off = esc_byte(b).len();
        assert forall|k: int| 0 <= k < esc(c2).len() implies d.subrange(
            i + off,
            i + off + esc(c2).len(),
        )[k] == esc(c2)[k] by {
            assert(d.subrange(i, i + esc(c).len())[off + k] == esc(c)[off + k]);
            assert(esc(c)[off + k] == esc(c2)[k]);
        }
        assert(d.subrange(i + off, i + off + esc(c2).len()) =~= esc(c2));
        assert forall|k: int| 0 <= k < off implies d[i + k] == esc_byte(b)[k] by {
            assert(d.subrange(i, i + esc(c).len())[k] == esc(c)[k]);
            assert(esc(c)[k] == esc_byte(b)[k]);
        }
        if b == 34 || b == 92 {
            assert(d[i] == 92 && d[i + 1] == b);
            assert(esc_code(b) == b);
            lemma_scan_string_complete(d, i + 2, c2);
            assert(scan_string(d, i) == Some((seq![b] + c2, i + esc(c).len() + 1)));
        } else if b < 32 {
            assert(d[i] == 92 && d[i + 1] == 117);
            assert(d[i + 2] == 48 && d[i + 3] == 48);
            assert(d[i + 4] == hexdig(b as int / 16) && d[i + 5] == hexdig(b as int % 16));
            assert(esc_code(117) == -1);
            assert(hex_val(48) == 0);
            assert(hex_val(hexdig(b as int / 16)) == b as int / 16);
            assert(hex_val(hexdig(b as int % 16)) == b as int % 16);
            assert(i + 6 <= d.len());
            assert(hex4(d, i + 2) == (b as int / 16) * 16 + (b as int % 16));
            assert((b as int / 16) * 16 + (b as int % 16) == b as int);
            assert(hex4(d, i + 2) == b as int);
            assert(b < 32);
            assert(scalar_bytes(b as int) =~= seq![b]);
            lemma_scan_string_complete(d, i + 6, c2);
            assert(scan_string(d, i) == Some((seq![b] + c2, i + esc(c).len() + 1)));
        } else {
            assert(esc_byte(b) =~= seq![b]);
            assert(d[i + 0] == esc_byte(b)[0]);
            assert(d[i] == b);
            lemma_scan_string_complete(d, i + 1, c2);
            assert(scan_string(d, i) == Some((seq![b] + c2, i + esc(c).len() + 1)));
        }
        assert(seq![b] + c2 =~= c);
    }
}

/// The raw form a pair's serialization parses to.
pub open spec fn raw_of(p: (Seq<char>, EntryView)) -> RawEntry {
    (encode_utf8(p.0), p.1.salt, p.1.nonce, p.1.cipher_text)
}

/// The serialized fields of a record, from the opening quote of `salt` to
/// the record's closing brace.
pub open spec fn fields_bytes(e: EntryView) -> Seq<u8> {
    lit_salt().skip(2) + b64_encode(e.salt) + seq![34u8] + lit_nonce() + b64_encode(e.nonce)
        + seq![34u8] + lit_ct() + b64_encode(e.cipher_text) + seq![34u8, 125]
}

/// One serialized field: quoted name, colon, quoted base64 value.
pub open spec fn field_bytes(name: Seq<u8>, v: Seq<u8>) -> Seq<u8> {
    seq![34u8] + name + seq![34u8, 58, 34] + b64_encode(v) + seq![34u8]
}

/// A base64 value region, written as the encoding of `v` followed by its
/// closing quote, scans and decodes back to `v` exactly.
proof fn lemma_b64_value_complete(d: Seq<u8>, i: int, v: Seq<u8>)
    requires
        0 <= i,
        i + b64_encode(v).len() + 1 <= d.len(),
        d.subrange(i, i + b64_encode(v).len()) == b64_encode(v),
        d[i + b64_encode(v).len()] == 34,
    ensures
        scan_string(d, i) == Some((b64_encode(v), i + b64_encode(v).len() + 1)),
        b64_decode(b64_encode(v)) == Some(v),
{
    lemma_b64_encode_text_safe(v);
    lemma_esc_identity(b64_encode(v));
    lemma_scan_string_complete(d, i, b64_encode(v));
    lemma_b64_round_trip(v);
}

/// A field region written as `field_bytes(name, v)` walks through the
/// parser piece by piece: the quoted name scans back, the colon and value
/// quote stand where expected with no whitespace between, and the value
/// scans and decodes back to `v`.
#[verifier::rlimit(100)]
proof fn lemma_field_parts(d: Seq<u8>, i: int, name: Seq<u8>, v: Seq<u8>)
    requires
        0 <= i,
        i + field_bytes(name, v).len() <= d.len(),
        d.subrange(i, i + field_bytes(name, v).len()) == field_bytes(name, v),
        forall|k: int| 0 <= k < name.len() ==> text_safe(#[trigger] name[k]),
    ensures
        expect(d, i, seq![34u8]) == Some(i + 1),
        scan_string(d, i + 1) == Some((name, i + 2 + name.len())),
        skip_ws(d, i + 2 + name.len() as int) == i + 2 + name.len(),
        expect(d, i + 2 + name.len() as int, seq![58u8]) == Some(i + 3 + name.len()),
        skip_ws(d, i + 3 + name.len() as int) == i + 3 + name.len(),
        expect(d, i + 3 + name.len() as int, seq![34u8]) == Some(i + 4 + name.len()),
        scan_string(d, i + 4 + name.len() as int) == Some(
            (b64_encode(v), i + field_bytes(name, v).len()),
        ),
        b64_decode(b64_encode(v)) == Some(v),
{
    let fb = field_bytes(name, v);
    let nl = name.len() as int;
    assert forall|k: int| 0 <= k < fb.len() implies d[i + k] == fb[k] by {
        assert(d.subrange(i, i + fb.len())[k] == fb[k]);
    }
    assert(fb[0] == 34);
    assert(d.subrange(i, i + 1) =~= seq![34u8]);
    lemma_subrange_nested(d, i, fb, 1, 1 + nl);
    assert(fb.subrange(1, 1 + nl) =~= name);
    lemma_esc_identity(name);
    assert(fb[1 + nl] == 34);
    lemma_scan_string_complete(d, i + 1, name);
    assert(fb[2 + nl] == 58 && !is_ws(fb[2 + nl]));
    assert(skip_ws(d, i + 2 + nl) == i + 2 + nl);
    assert(d.subrange(i + 2 + nl, i + 3 + nl) =~= seq![58u8]);
    assert(fb[3 + nl] == 34 && !is_ws(fb[3 + nl]));
    assert(skip_ws(d, i + 3 + nl) == i + 3 + nl);
    assert(d.subrange(i + 3 + nl, i + 4 + nl) =~= seq![34u8]);
    lemma_subrange_nested(d, i, fb, 4 + nl, 4 + nl + b64_encode(v).len());
    assert(fb.subrange(4 + nl, 4 + nl + b64_encode(v).len() as int) =~= b64_encode(v));
    assert(fb[4 + nl + b64_encode(v).len() as int] == 34);
    lemma_b64_value_complete(d, i + 4 + nl, v);
}

/// The three key names are pairwise different and text-safe.
proof fn lemma_names()
    ensures
        name_salt() != name_nonce() && name_salt() != name_ct() && name_nonce() != name_ct(),
        forall|k: int| 0 <= k < name_salt().len() ==> text_safe(#[trigger] name_salt()[k]),
        forall|k: int| 0 <= k < name_nonce().len() ==> text_safe(#[trigger] name_nonce()[k]),
        forall|k: int| 0 <= k < name_ct().len() ==> text_safe(#[trigger] name_ct()[k]),
{
    assert(name_salt().len() != name_nonce().len());
    assert(name_salt().len() != name_ct().len());
    assert(name_nonce().len() != name_ct().len());
}

/// The last field, `cipherText`, followed by the record's closing brace.
#[verifier::rlimit(100)]
proof fn lemma_parse_field_ct(d: Seq<u8>, i: int, e: EntryView)
    requires
        0 <= i,
        i + field_bytes(name_ct(), e.cipher_text).len() + 1 <= d.len(),
        d.subrange(i, i + field_bytes(name_ct(), e.cipher_text).len()) == field_bytes(
            name_ct(),
            e.cipher_text,
        ),
        d[i + field_bytes(name_ct(), e.cipher_text).len()] == 125,
    ensures
        parse_fields(d, i, Some(e.salt), Some(e.nonce), None) == Some(
            ((e.salt, e.nonce, e.cipher_text), i + field_bytes(name_ct(), e.cipher_text).len() + 1),
        ),
{
    lemma_names();
    lemma_field_parts(d, i, name_ct(), e.cipher_text);
    let endp = i + field_bytes(name_ct(), e.cipher_text).len();
    assert(!is_ws(d[endp]));
    assert(skip_ws(d, endp) == endp);
}

/// The middle field, `nonce`, followed by a comma and the rest.
#[verifier::rlimit(100)]
proof fn lemma_parse_field_nonce(d: Seq<u8>, i: int, e: EntryView, target: ((Seq<u8>, Seq<u8>, Seq<u8>), int))
    requires
        0 <= i,
        i + field_bytes(name_nonce(), e.nonce).len() + 2 <= d.len(),
        d.subrange(i, i + field_bytes(name_nonce(), e.nonce).len()) == field_bytes(
            name_nonce(),
            e.nonce,
        ),
        d[i + field_bytes(name_nonce(), e.nonce).len()] == 44,
        d[i + field_bytes(name_nonce(), e.nonce).len() + 1] == 34,
        parse_fields(
            d,
            i + field_bytes(name_nonce(), e.nonce).len() + 1,
            Some(e.salt),
            Some(e.nonce),
            None,
        ) == Some(target),
    ensures
        parse_fields(d, i, Some(e.salt), None, None) == Some(target),
{
    lemma_names();
    lemma_field_parts(d, i, name_nonce(), e.nonce);
    let sep = i + field_bytes(name_nonce(), e.nonce).len();
    assert(!is_ws(d[sep]));
    assert(skip_ws(d, sep) == sep);
    assert(!is_ws(d[sep + 1]));
    assert(skip_ws(d, sep + 1) == sep + 1);
}

/// The first field, `salt`, followed by a comma and the rest.
#[verifier::rlimit(100)]
proof fn lemma_parse_field_salt(d: Seq<u8>, i: int, e: EntryView, target: ((Seq<u8>, Seq<u8>, Seq<u8>), int))
    requires
        0 <= i,
        i + field_bytes(name_salt(), e.salt).len() + 2 <= d.len(),
        d.subrange(i, i + field_bytes(name_salt(), e.salt).len()) == field_bytes(
            name_salt(),
            e.salt,
        ),
        d[i + field_bytes(name_salt(), e.salt).len()] == 44,
        d[i + field_bytes(name_salt(), e.salt).len() + 1] == 34,
        parse_fields(
            d,
            i + field_bytes(name_salt(), e.salt).len() + 1,
            Some(e.salt),
            None,
            None,
        ) == Some(target),
    ensures
        parse_fields(d, i, None, None, None) == Some(target),
{
    lemma_names();
    lemma_field_parts(d, i, name_salt(), e.salt);
    let sep = i + field_bytes(name_salt(), e.salt).len();
    assert(!is_ws(d[sep]));
    assert(skip_ws(d, sep) == sep);
    assert(!is_ws(d[sep + 1]));
    assert(skip_ws(d, sep + 1) == sep + 1);
}

/// A fields region written as `fields_bytes(e)` parses back to the
/// record's three byte fields exactly.
#[verifier::rlimit(100)]
proof fn lemma_parse_fields_complete(d: Seq<u8>, f: int, e: EntryView)
    requires
        0 <= f,
        f + fields_bytes(e).len() <= d.len(),
        d.subrange(f, f + fields_bytes(e).len()) == fields_bytes(e),
    ensures
        parse_fields(d, f, None, None, None) == Some(
            ((e.salt, e.nonce, e.cipher_text), f + fields_bytes(e).len()),
        ),
{
    let f1 = field_bytes(name_salt(), e.salt);
    let f2 = field_bytes(name_nonce(), e.nonce);
    let f3 = field_bytes(name_ct(), e.cipher_text);
    let fr = fields_bytes(e);
    assert(lit_salt().skip(2) =~= seq![34u8, 115, 97, 108, 116, 34, 58, 34]);
    assert(fr =~= f1 + seq![44u8] + f2 + seq![44u8] + f3 + seq![125u8]);
    let p2 = f + f1.len() as int;
    let p3 = p2 + 1 + f2.len() as int;
    let p4 = p3 + 1 + f3.len() as int;
    assert(fr.len() == p4 + 1 - f);
    assert forall|k: int| 0 <= k < fr.len() implies d[f + k] == fr[k] by {
        assert(d.subrange(f, f + fr.len())[k] == fr[k]);
    }
    lemma_subrange_nested(d, f, fr, 0, f1.len() as int);
    assert(fr.subrange(0, f1.len() as int) =~= f1);
    lemma_subrange_nested(d, f, fr, f1.len() + 1 as int, f1.len() + 1 + f2.len() as int);
    assert(fr.subrange(f1.len() + 1 as int, f1.len() + 1 + f2.len() as int) =~= f2);
    lemma_subrange_nested(
        d,
        f,
        fr,
        f1.len() + 2 + f2.len() as int,
        f1.len() + 2 + f2.len() + f3.len() as int,
    );
    assert(fr.subrange(f1.len() + 2 + f2.len() as int, f1.len() + 2 + f2.len() + f3.len() as int)
        =~= f3);
    assert(fr[f1.len() as int] == 44);
    assert(fr[f1.len() + 1 as int] == 34);
    assert(fr[f1.len() + 1 + f2.len() as int] == 44);
    assert(fr[f1.len() + 2 + f2.len() as int] == 34);
    assert(fr[f1.len() + 2 + f2.len() + f3.len() as int] == 125);
    let target = ((e.salt, e.nonce, e.cipher_text), p4 + 1);
    lemma_parse_field_ct(d, p3 + 1, e);
    lemma_parse_field_nonce(d, p2 + 1, e, target);
    lemma_parse_field_salt(d, f, e, target);
}

/// An entry region written as `entry_bytes(label, e)` parses back exactly.
#[verifier::rlimit(100)]
proof fn lemma_parse_entry_complete(d: Seq<u8>, i: int, label: Seq<char>, e: EntryView)
    requires
        0 <= i,
        i + entry_bytes(label, e).len() <= d.len(),
        d.subrange(i, i + entry_bytes(label, e).len()) == entry_bytes(label, e),
    ensures
        parse_entry(d, i) == Some(
            ((encode_utf8(label), e.salt, e.nonce, e.cipher_text), i + entry_bytes(label, e).len()),
        ),
{
    let lb = esc(encode_utf8(label));
    let eb = entry_bytes(label, e);
    let fr = fields_bytes(e);
    let o2 = 1 + lb.len() as int;
    let o3 = o2 + 1;
    let f = i + o3 + 2;
    assert(eb =~= seq![34u8] + lb + seq![34u8, 58, 123] + fr);
    assert(eb.len() == o3 + 2 + fr.len());
    assert forall|k: int| 0 <= k < eb.len() implies d[i + k] == eb[k] by {
        assert(d.subrange(i, i + eb.len())[k] == eb[k]);
    }
    assert(eb[0] == 34);
    assert(d.subrange(i, i + 1) =~= seq![34u8]);
    assert(expect(d, i, seq![34u8]) == Some(i + 1));
    lemma_subrange_nested(d, i, eb, 1, o2);
    assert(eb.subrange(1, o2) =~= lb);
    assert(eb[o2] == 34);
    lemma_scan_string_complete(d, i + 1, encode_utf8(label));
    assert(scan_string(d, i + 1) == Some((encode_utf8(label), i + o3)));
    assert(eb[o3] == 58 && !is_ws(eb[o3]));
    assert(skip_ws(d, i + o3) == i + o3);
    assert(d.subrange(i + o3, i + o3 + 1) =~= seq![58u8]);
    assert(expect(d, i + o3, seq![58u8]) == Some(i + o3 + 1));
    assert(eb[o3 + 1] == 123 && !is_ws(eb[o3 + 1]));
    assert(skip_ws(d, i + o3 + 1) == i + o3 + 1);
    assert(d.subrange(i + o3 + 1, i + o3 + 2) =~= seq![123u8]);
    assert(expect(d, i + o3 + 1, seq![123u8]) == Some(i + o3 + 2));
    assert(eb[o3 + 2] == 34 && !is_ws(eb[o3 + 2]));
    assert(skip_ws(d, f) == f);
    lemma_subrange_nested(d, i, eb, o3 + 2, eb.len() as int);
    assert(eb.subrange(o3 + 2, eb.len() as int) =~= fr);
    lemma_parse_fields_complete(d, f, e);
    assert(parse_entry(d, i) == Some(
        ((encode_utf8(label), e.salt, e.nonce, e.cipher_text), i + eb.len()),
    ));
}

/// An entry-list region written as `entries_bytes(ps)`, followed by the
/// closing brace, parses back to the raw forms of `ps` exactly.
#[verifier::rlimit(100)]
proof fn lemma_parse_entries_complete(d: Seq<u8>, i: int, ps: Seq<(Seq<char>, EntryView)>)
    requires
        ps.len() >= 1,
        0 <= i,
        i + entries_bytes(ps).len() < d.len(),
        d.subrange(i, i + entries_bytes(ps).len()) == entries_bytes(ps),
        d[i + entries_bytes(ps).len()] == 125,
    ensures
        parse_entries(d, i) == Some(
            (ps.map_values(|p: (Seq<char>, EntryView)| raw_of(p)), i + entries_bytes(ps).len()),
        ),
    decreases ps.len(),
{
    let eb0 = entry_bytes(ps[0].0, ps[0].1);
    let el = entries_bytes(ps);
    if ps.len() == 1 {
        assert(el == eb0);
        lemma_parse_entry_complete(d, i, ps[0].0, ps[0].1);
        let j = i + eb0.len();
        assert(d[j] == 125 && !is_ws(d[j]));
        assert(skip_ws(d, j) == j);
        assert(eb0.len() >= 1);
        assert(parse_entries(d, i) == Some((seq![raw_of(ps[0])], j)));
        assert(seq![raw_of(ps[0])] =~= ps.map_values(|p: (Seq<char>, EntryView)| raw_of(p)));
    } else {
        let rest = ps.drop_first();
        assert(el == eb0 + seq![44u8] + entries_bytes(rest));
        assert forall|k: int| 0 <= k < el.len() implies d[i + k] == el[k] by {
            assert(d.subrange(i, i + el.len())[k] == el[k]);
        }
        lemma_subrange_nested(d, i, el, 0, eb0.len() as int);
        assert(el.subrange(0, eb0.len() as int) =~= eb0);
        lemma_parse_entry_complete(d, i, ps[0].0, ps[0].1);
        let j = i + eb0.len();
        assert(el[eb0.len() as int] == 44);
        assert(d[j] == 44 && !is_ws(d[j]));
        assert(skip_ws(d, j) == j);
        assert(entries_bytes(rest).len() >= 1) by {
            assert(entry_bytes(rest[0].0, rest[0].1).len() >= 1);
        }
        assert(el[eb0.len() + 1 as int] == entries_bytes(rest)[0]);
        assert(entries_bytes(rest)[0] == entry_bytes(rest[0].0, rest[0].1)[0]);
        assert(entry_bytes(rest[0].0, rest[0].1)[0] == 34);
        assert(d[j + 1] == 34 && !is_ws(d[j + 1]));
        assert(skip_ws(d, j + 1) == j + 1);
        lemma_subrange_nested(d, i, el, eb0.len() + 1 as int, el.len() as int);
        assert(el.subrange(eb0.len() + 1 as int, el.len() as int) =~= entries_bytes(rest));
        lemma_parse_entries_complete(d, j + 1, rest);
        assert(parse_entries(d, j + 1) == Some(
            (rest.map_values(|p: (Seq<char>, EntryView)| raw_of(p)), i + el.len()),
        ));
        assert(parse_entries(d, i) == Some(
            (
                seq![raw_of(ps[0])] + rest.map_values(|p: (Seq<char>, EntryView)| raw_of(p)),
                i + el.len(),
            ),
        ));
        assert(seq![raw_of(ps[0])] + rest.map_values(|p: (Seq<char>, EntryView)| raw_of(p)) =~= ps.map_values(
            |p: (Seq<char>, EntryView)| raw_of(p),
        ));
    }
}

/// Codec round-trip law: the canonical serialization of any pair sequence
/// with distinct labels — which is what `serialize` writes for every
/// well-formed mapping — materializes back to exactly that sequence.
/// Together with the contracts of `serialize` and `materialize`, feeding
/// `serialize`'s blob to `materialize` must return the mapping serialized.
#[verifier::rlimit(100)]
pub proof fn lemma_canonical_round_trip(ps: Seq<(Seq<char>, EntryView)>)
    requires
        plabels_distinct(ps),
    ensures
        spec_materialize(vault_bytes(ps)) == Some(ps),
{
    broadcast use vstd::utf8::encode_utf8_valid_utf8;
    broadcast use vstd::utf8::encode_utf8_decode_utf8;

    let d = vault_bytes(ps);
    let el = entries_bytes(ps);
    assert(d.len() == el.len() + 2);
    assert(d[0] == 123 && !is_ws(d[0]));
    assert(skip_ws(d, 0) == 0);
    assert(d[d.len() - 1] == 125);
    if ps.len() == 0 {
        assert(el =~= Seq::<u8>::empty());
        assert(d.len() == 2);
        assert(d[1] == 125 && !is_ws(d[1]));
        assert(skip_ws(d, 1) == 1);
        assert(skip_ws(d, 2) == 2);
        assert(parse_vault(d) == Some(Seq::<RawEntry>::empty()));
        assert(raw_pairs(Seq::<RawEntry>::empty()) =~= Seq::<(Seq<char>, EntryView)>::empty());
        assert(ps =~= Seq::<(Seq<char>, EntryView)>::empty());
    } else {
        assert(el.len() >= 1) by {
            assert(entry_bytes(ps[0].0, ps[0].1).len() >= 1);
        }
        assert(d.len() > 2);
        assert(el[0] == entry_bytes(ps[0].0, ps[0].1)[0]);
        assert(entry_bytes(ps[0].0, ps[0].1)[0] == 34);
        assert(d[1] == 34 && !is_ws(d[1]));
        assert(skip_ws(d, 1) == 1);
        assert forall|k: int| 0 <= k < el.len() implies d.subrange(1, 1 + el.len() as int)[k]
            == el[k] by {
            assert(d[1 + k] == el[k]);
        }
        assert(d.subrange(1, 1 + el.len() as int) =~= el);
        assert(d[1 + el.len() as int] == 125);
        lemma_parse_entries_complete(d, 1, ps);
        let raw = ps.map_values(|p: (Seq<char>, EntryView)| raw_of(p));
        assert(parse_entries(d, 1) == Some((raw, d.len() - 1)));
        assert(skip_ws(d, d.len() as int) == d.len());
        assert(parse_vault(d) == Some(raw));
        assert forall|k: int| 0 <= k < raw.len() implies valid_utf8(#[trigger] raw[k].0) by {
            assert(raw[k].0 == encode_utf8(ps[k].0));
        }
        assert(raw_ok(raw));
        assert forall|k: int| 0 <= k < raw.len() implies raw_pairs(raw)[k] == ps[k] by {
            assert(raw[k] == raw_of(ps[k]));
            assert(decode_utf8(encode_utf8(ps[k].0)) == ps[k].0);
            assert(raw_pairs(raw)[k].1 == (EntryView {
                salt: ps[k].1.salt,
                nonce: ps[k].1.nonce,
                cipher_text: ps[k].1.cipher_text,
            }));
        }
        assert(raw_pairs(raw) =~= ps);
        assert(spec_materialize(d) == Some(ps));
    }
}

/// A well-formed mapping's pairs have pairwise distinct labels.
pub proof fn lemma_wf_pairs_distinct(m: &VaultMap)
    requires
        m.wf(),
    ensures
        plabels_distinct(m.pairs()),
{
    assert forall|a: int, b: int| 0 <= a < b < m.pairs().len() implies m.pairs()[a].0
        != m.pairs()[b].0 by {
        assert(m.pairs()[a].0 == m.entries@[a].0@);
        assert(m.pairs()[b].0 == m.entries@[b].0@);
    }
}

} // verus!

