//! The canonical textual form of a manifest, and its reader.
//!
//! The form is compact JSON with the fields in a fixed order.  The reader is
//! strict: it accepts exactly the canonical form, and reading back what was
//! rendered yields the original manifest.

use crate::manifest::{chunk_name, chunk_name_bytes, FileChunkSplitResult, ManifestView};
use crate::numbers::{
    dec_rep, is_digit, lemma_dec_rep_digits, lemma_dec_rep_len, lemma_dec_roundtrip, num_at,
    parse_num, pow10, push_dec, scan_digits,
};
use crate::text::bytes_to_string;
use vstd::arithmetic::div_mod::lemma_fundamental_div_mod;
use vstd::prelude::*;
use vstd::seq_lib::lemma_concat_associative;
use vstd::slice::slice_index_get;
use vstd::string::StrSliceExecFns;
use vstd::utf8::{encode_utf8, valid_utf8};

verus! {

// ---------------------------------------------------------------------------
// String escaping
// ---------------------------------------------------------------------------
/// The lowercase hexadecimal digit byte for a value below 16.
pub open spec fn hex_digit(n: int) -> u8 {
    if n < 10 {
        (48 + n) as u8
    } else {
        (87 + n) as u8
    }
}

/// The numeric value of a lowercase hexadecimal digit byte, `-1` otherwise.
pub open spec fn hex_val(b: u8) -> int {
    if 48 <= b && b <= 57 {
        b - 48
    } else if 97 <= b && b <= 102 {
        b - 87
    } else {
        -1
    }
}

/// The escaped form of one byte inside a quoted string: quote and backslash
/// take a two-byte escape, control bytes the six-byte `\u00..` form, and
/// every other byte stands as itself.
pub open spec fn esc_byte(b: u8) -> Seq<u8> {
    if b == 0x22 {
        seq![0x5cu8, 0x22u8]
    } else if b == 0x5c {
        seq![0x5cu8, 0x5cu8]
    } else if b < 0x20 {
        seq![0x5cu8, 0x75u8, 0x30u8, 0x30u8, hex_digit(b as int / 16), hex_digit(b as int % 16)]
    } else {
        seq![b]
    }
}

/// The escaped form of a byte string.
pub open spec fn esc(s: Seq<u8>) -> Seq<u8>
    decreases s.len(),
{
    if s.len() == 0 {
        Seq::empty()
    } else {
        esc_byte(s[0]) + esc(s.drop_first())
    }
}

pub proof fn lemma_esc_push(s: Seq<u8>, b: u8)
    ensures
        esc(s.push(b)) == esc(s) + esc_byte(b),
    decreases s.len(),
{
    if s.len() == 0 {
        assert(s.push(b).drop_first() =~= Seq::<u8>::empty());
        assert(s.push(b)[0] == b);
        assert(esc(s.push(b)) == esc_byte(b) + esc(Seq::<u8>::empty()));
        assert(esc(Seq::<u8>::empty()) =~= Seq::<u8>::empty());
        assert(esc(s) =~= Seq::<u8>::empty());
        assert(esc(s.push(b)) =~= esc(s) + esc_byte(b));
    } else {
        lemma_esc_push(s.drop_first(), b);
        assert(s.push(b).drop_first() =~= s.drop_first().push(b));
        assert(s.push(b)[0] == s[0]);
        assert(esc(s.push(b)) == esc_byte(s[0]) + esc(s.drop_first().push(b)));
        assert(esc(s) == esc_byte(s[0]) + esc(s.drop_first()));
        assert(esc(s.push(b)) =~= esc(s) + esc_byte(b));
    }
}

/// Appends the escaped form of `s`.
pub fn push_esc(out: &mut Vec<u8>, s: &Vec<u8>)
    ensures
        final(out)@ == old(out)@ + esc(s@),
{
    let mut i: usize = 0;
    proof {
        assert(s@.take(0) =~= Seq::<u8>::empty());
        assert(out@ =~= out@ + esc(s@.take(0)));
    }
    while i < s.len()
        invariant
            i <= s@.len(),
            out@ == old(out)@ + esc(s@.take(i as int)),
        decreases s@.len() - i,
    {
        let b = s[i];
        if b == 0x22 {
            out.push(0x5c);
            out.push(0x22);
        } else if b == 0x5c {
            out.push(0x5c);
            out.push(0x5c);
        } else if b < 0x20 {
            out.push(0x5c);
            out.push(0x75);
            out.push(0x30);
            out.push(0x30);
            out.push(48 + b / 16);
            let low = b % 16;
            if low < 10 {
                out.push(48 + low);
            } else {
                out.push(87 + low);
            }
        } else {
            out.push(b);
        }
        proof {
            lemma_esc_push(s@.take(i as int), s@[i as int]);
            assert(s@.take(i + 1) =~= s@.take(i as int).push(s@[i as int]));
            assert(out@ =~= old(out)@ + esc(s@.take(i + 1)));
        }
        i = i + 1;
    }
    proof {
        assert(s@.take(s@.len() as int) =~= s@);
    }
}

/// Reading a quoted string's content at `pos`: the bytes it denotes and the
/// position after the closing quote.  Only the canonical escapes are
/// accepted; a raw control byte or a lone backslash is refused.
pub open spec fn unesc_at(s: Seq<u8>, pos: int) -> Option<(Seq<u8>, int)>
    decreases s.len() - pos,
{
    if pos < 0 || pos >= s.len() {
        None
    } else if s[pos] == 0x22 {
        Some((Seq::empty(), pos + 1))
    } else if s[pos] == 0x5c {
        if pos + 1 < s.len() && (s[pos + 1] == 0x22 || s[pos + 1] == 0x5c) {
            match unesc_at(s, pos + 2) {
                Some((t, e)) => Some((seq![s[pos + 1]] + t, e)),
                None => None,
            }
        } else if pos + 5 < s.len() && s[pos + 1] == 0x75 && s[pos + 2] == 0x30 && s[pos + 3]
            == 0x30 && (s[pos + 4] == 0x30 || s[pos + 4] == 0x31) && hex_val(s[pos + 5]) >= 0 {
            match unesc_at(s, pos + 6) {
                Some((t, e)) => Some(
                    (seq![(16 * (s[pos + 4] - 48) + hex_val(s[pos + 5])) as u8] + t, e),
                ),
                None => None,
            }
        } else {
            None
        }
    } else if s[pos] < 0x20 {
        None
    } else {
        match unesc_at(s, pos + 1) {
            Some((t, e)) => Some((seq![s[pos]] + t, e)),
            None => None,
        }
    }
}

/// Reading an escaped string followed by its closing quote yields the
/// original bytes.
pub proof fn lemma_unesc_esc(s: Seq<u8>, x: Seq<u8>, pos: int)
    requires
        0 <= pos,
        pos + esc(x).len() + 1 <= s.len(),
        s.subrange(pos, pos + esc(x).len() + 1) == esc(x) + seq![0x22u8],
    ensures
        unesc_at(s, pos) == Some((x, pos + esc(x).len() + 1)),
    decreases x.len(),
{
    let w = s.subrange(pos, pos + esc(x).len() + 1);
    if x.len() == 0 {
        assert(s[pos] == w[0]);
        assert(s[pos] == 0x22);
    } else {
        let b = x[0];
        let xr = x.drop_first();
        let k = esc_byte(b).len() as int;
        assert(esc(x) == esc_byte(b) + esc(xr));
        assert forall|j: int| 0 <= j < k implies s[pos + j] == esc_byte(b)[j] by {
            assert(w[j] == s[pos + j]);
            assert(w[j] == (esc(x) + seq![0x22u8])[j]);
            assert((esc(x) + seq![0x22u8])[j] == esc(x)[j]);
            assert(esc(x)[j] == (esc_byte(b) + esc(xr))[j]);
        }
        assert(s[pos] == esc_byte(b)[0]);
        assert(s.subrange(pos + k, pos + k + esc(xr).len() + 1) =~= esc(xr) + seq![0x22u8]) by {
            assert forall|j: int| 0 <= j < esc(xr).len() + 1 implies s[pos + k + j] == (esc(xr)
                + seq![0x22u8])[j] by {
                assert(w[k + j] == (esc(x) + seq![0x22u8])[k + j]);
            }
        }
        lemma_unesc_esc(s, xr, pos + k);
        if b == 0x22 || b == 0x5c {
            assert(s[pos + 1] == esc_byte(b)[1]);
            assert(s[pos] == 0x5c && s[pos + 1] == b);
            assert(seq![s[pos + 1]] + xr =~= x);
        } else if b < 0x20 {
            assert(s[pos + 1] == esc_byte(b)[1]);
            assert(s[pos + 2] == esc_byte(b)[2]);
            assert(s[pos + 3] == esc_byte(b)[3]);
            assert(s[pos + 4] == esc_byte(b)[4]);
            assert(s[pos + 5] == esc_byte(b)[5]);
            assert(s[pos] == 0x5c && s[pos + 1] == 0x75 && s[pos + 2] == 0x30 && s[pos + 3]
                == 0x30);
            assert(s[pos + 4] == hex_digit(b as int / 16));
            assert(s[pos + 5] == hex_digit(b as int % 16));
            lemma_fundamental_div_mod(b as int, 16);
            assert(b as int / 16 == 0 || b as int / 16 == 1);
            assert(s[pos + 4] == 0x30 || s[pos + 4] == 0x31);
            assert(hex_val(s[pos + 5]) == b as int % 16);
            assert((16 * (s[pos + 4] - 48) + hex_val(s[pos + 5])) as u8 == b);
            assert(seq![(16 * (s[pos + 4] - 48) + hex_val(s[pos + 5])) as u8] + xr =~= x);
        } else {
            assert(s[pos] == b);
            assert(s[pos] != 0x22 && s[pos] != 0x5c && s[pos] >= 0x20);
            assert(seq![s[pos]] + xr =~= x);
        }
    }
}

/// Reads a quoted string's content at `pos`, up to and over the closing
/// quote.
pub fn parse_string(s: &Vec<u8>, pos: usize) -> (r: Option<(Vec<u8>, usize)>)
    requires
        pos <= s@.len(),
    ensures
        match r {
            Some((v, e)) => unesc_at(s@, pos as int) == Some((v@, e as int)) && pos < e
                <= s@.len(),
            None => unesc_at(s@, pos as int) is None,
        },
{
    let mut acc: Vec<u8> = Vec::new();
    let mut p: usize = pos;
    proof {
        if let Some((t, e)) = unesc_at(s@, pos as int) {
            assert(Seq::<u8>::empty() + t =~= t);
        }
    }
    loop
        invariant
            pos <= p <= s@.len(),
            match unesc_at(s@, p as int) {
                Some((t, e)) => unesc_at(s@, pos as int) == Some((acc@ + t, e)),
                None => unesc_at(s@, pos as int) is None,
            },
        decreases s@.len() - p,
    {
        if p >= s.len() {
            return None;
        }
        let b = s[p];
        if b == 0x22 {
            proof {
                assert(acc@ + Seq::<u8>::empty() =~= acc@);
            }
            return Some((acc, p + 1));
        } else if b == 0x5c {
            if s.len() - p < 2 {
                return None;
            }
            let c = s[p + 1];
            if c == 0x22 || c == 0x5c {
                proof {
                    if let Some((t, e)) = unesc_at(s@, p + 2) {
                        assert(acc@ + (seq![c] + t) =~= acc@.push(c) + t);
                    }
                }
                acc.push(c);
                p = p + 2;
            } else if c == 0x75 {
                if s.len() - p < 6 {
                    return None;
                }
                let c2 = s[p + 2];
                let c3 = s[p + 3];
                let c4 = s[p + 4];
                let c5 = s[p + 5];
                if c2 != 0x30 || c3 != 0x30 || (c4 != 0x30 && c4 != 0x31) {
                    return None;
                }
                let v5: u8 = if 48 <= c5 && c5 <= 57 {
                    c5 - 48
                } else if 97 <= c5 && c5 <= 102 {
                    c5 - 87
                } else {
                    return None;
                };
                let decoded: u8 = 16 * (c4 - 48) + v5;
                proof {
                    assert(hex_val(c5) == v5 as int);
                    if let Some((t, e)) = unesc_at(s@, p + 6) {
                        assert(acc@ + (seq![decoded] + t) =~= acc@.push(decoded) + t);
                    }
                }
                acc.push(decoded);
                p = p + 6;
            } else {
                return None;
            }
        } else if b < 0x20 {
            return None;
        } else {
            proof {
                if let Some((t, e)) = unesc_at(s@, p + 1) {
                    assert(acc@ + (seq![b] + t) =~= acc@.push(b) + t);
                }
            }
            acc.push(b);
            p = p + 1;
        }
    }
}

// ---------------------------------------------------------------------------
// Tokens
// ---------------------------------------------------------------------------
/// The byte `b` stands at `pos`.
pub open spec fn byte_at(s: Seq<u8>, pos: int, b: u8) -> bool {
    0 <= pos < s.len() && s[pos] == b
}

/// The literal `l` stands at `pos`.
pub open spec fn lit_at(s: Seq<u8>, pos: int, l: Seq<u8>) -> bool {
    0 <= pos && pos + l.len() <= s.len() && s.subrange(pos, pos + l.len() as int) == l
}

/// Consumes the byte `b` at `pos`.
pub fn expect_byte(s: &Vec<u8>, pos: usize, b: u8) -> (r: Option<usize>)
    requires
        pos <= s@.len(),
    ensures
        match r {
            Some(e) => byte_at(s@, pos as int, b) && e == pos + 1,
            None => !byte_at(s@, pos as int, b),
        },
{
    if pos < s.len() && s[pos] == b {
        Some(pos + 1)
    } else {
        None
    }
}

/// Consumes the literal at `pos`.
pub fn expect_lit(s: &Vec<u8>, pos: usize, lit: &str) -> (r: Option<usize>)
    requires
        pos <= s@.len(),
    ensures
        match r {
            Some(e) => lit_at(s@, pos as int, encode_utf8(lit@)) && e == pos + encode_utf8(
                lit@,
            ).len(),
            None => !lit_at(s@, pos as int, encode_utf8(lit@)),
        },
{
    let lb = lit.as_bytes();
    let n = lb.len();
    if s.len() - pos < n {
        return None;
    }
    let mut j: usize = 0;
    while j < n
        invariant
            0 <= j <= n,
            n == lb@.len(),
            lb@ == encode_utf8(lit@),
            pos + n <= s@.len(),
            s@.len() <= usize::MAX,
            forall|k: int| 0 <= k < j ==> s@[pos + k] == lb@[k],
        decreases n - j,
    {
        if *slice_index_get(lb, j) != s[pos + j] {
            proof {
                assert(!lit_at(s@, pos as int, encode_utf8(lit@))) by {
                    if lit_at(s@, pos as int, encode_utf8(lit@)) {
                        assert(s@.subrange(pos as int, pos + lb@.len() as int)[j as int]
                            == lb@[j as int]);
                    }
                }
            }
            return None;
        }
        j = j + 1;
    }
    proof {
        assert(s@.subrange(pos as int, pos + lb@.len() as int) =~= lb@);
    }
    Some(pos + n)
}

// ---------------------------------------------------------------------------
// Number placement
// ---------------------------------------------------------------------------
pub proof fn lemma_scan_digits_exact(s: Seq<u8>, pos: int, end: int)
    requires
        0 <= pos <= end <= s.len(),
        forall|i: int| pos <= i < end ==> is_digit(#[trigger] s[i]),
        end == s.len() || !is_digit(s[end]),
    ensures
        scan_digits(s, pos) == end,
    decreases end - pos,
{
    if pos < end {
        lemma_scan_digits_exact(s, pos + 1, end);
    }
}

/// Reading a rendered number followed by a non-digit yields the value.
pub proof fn lemma_num_at_rep(s: Seq<u8>, pos: int, v: nat)
    requires
        0 <= pos,
        v <= usize::MAX,
        pos + dec_rep(v).len() <= s.len(),
        s.subrange(pos, pos + dec_rep(v).len() as int) == dec_rep(v),
        pos + dec_rep(v).len() == s.len() || !is_digit(s[pos + dec_rep(v).len()]),
    ensures
        num_at(s, pos) == Some((v as usize, pos + dec_rep(v).len())),
{
    let end = pos + dec_rep(v).len() as int;
    lemma_dec_rep_digits(v);
    assert forall|i: int| pos <= i < end implies is_digit(#[trigger] s[i]) by {
        assert(s[i] == s.subrange(pos, end)[i - pos]);
    }
    lemma_scan_digits_exact(s, pos, end);
    lemma_dec_roundtrip(v);
    assert(dec_rep(v).len() <= 20) by {
        reveal_with_fuel(pow10, 21);
        assert(pow10(20) == 100000000000000000000);
        lemma_dec_rep_len(v, 20);
    }
    assert(end > pos) by {
        lemma_dec_rep_digits(v);
    }
}

// ---------------------------------------------------------------------------
// Rendering
// ---------------------------------------------------------------------------
/// Appends one byte.
pub fn push_byte(out: &mut Vec<u8>, b: u8)
    ensures
        final(out)@ == old(out)@ + seq![b],
{
    out.push(b);
    proof {
        assert(out@ =~= old(out)@ + seq![b]);
    }
}

/// The separator before the entry with 1-based index `idx`.
pub open spec fn entry_sep(idx: nat) -> Seq<u8> {
    if idx > 1 {
        seq![0x2cu8]
    } else {
        Seq::empty()
    }
}

/// The quoted index key of a chunk table entry, colon included.
pub open spec fn entry_key(idx: nat) -> Seq<u8> {
    seq![0x22u8] + dec_rep(idx) + seq![0x22u8] + seq![0x3au8]
}

/// The value of a chunk table entry: the bare quoted fingerprint, or the
/// fingerprint and the artifact base name as a pair.
pub open spec fn entry_val(h: Seq<u8>, nm: Seq<u8>, compressed: bool) -> Seq<u8> {
    if compressed {
        seq![0x5bu8] + seq![0x22u8] + esc(h) + seq![0x22u8] + seq![0x2cu8] + seq![0x22u8] + esc(nm)
            + seq![0x22u8] + seq![0x5du8]
    } else {
        seq![0x22u8] + esc(h) + seq![0x22u8]
    }
}

/// One chunk table entry.
pub open spec fn render_entry(idx: nat, h: Seq<u8>, nm: Seq<u8>, compressed: bool) -> Seq<u8> {
    entry_key(idx) + entry_val(h, nm, compressed)
}

/// The chunk table entries from 1-based index `idx` on.
pub open spec fn render_entries(
    list: Seq<(Seq<u8>, Seq<u8>)>,
    idx: nat,
    compressed: bool,
) -> Seq<u8>
    decreases list.len(),
{
    if list.len() == 0 {
        Seq::empty()
    } else {
        entry_sep(idx) + render_entry(idx, list[0].0, list[0].1, compressed) + render_entries(
            list.drop_first(),
            idx + 1,
            compressed,
        )
    }
}

pub proof fn lemma_render_entries_snoc(
    list: Seq<(Seq<u8>, Seq<u8>)>,
    idx: nat,
    compressed: bool,
    p: (Seq<u8>, Seq<u8>),
)
    ensures
        render_entries(list.push(p), idx, compressed) == render_entries(list, idx, compressed)
            + entry_sep(idx + list.len()) + render_entry(idx + list.len(), p.0, p.1, compressed),
    decreases list.len(),
{
    if list.len() == 0 {
        assert(list.push(p).drop_first() =~= Seq::<(Seq<u8>, Seq<u8>)>::empty());
        assert(list.push(p)[0] == p);
        assert(render_entries(list.push(p), idx, compressed) == entry_sep(idx) + render_entry(
            idx,
            p.0,
            p.1,
            compressed,
        ) + render_entries(Seq::<(Seq<u8>, Seq<u8>)>::empty(), idx + 1, compressed));
        assert(render_entries(Seq::<(Seq<u8>, Seq<u8>)>::empty(), idx + 1, compressed)
            =~= Seq::<u8>::empty());
        assert(render_entries(list, idx, compressed) =~= Seq::<u8>::empty());
        assert(render_entries(list.push(p), idx, compressed) =~= render_entries(
            list,
            idx,
            compressed,
        ) + entry_sep(idx) + render_entry(idx, p.0, p.1, compressed));
    } else {
        lemma_render_entries_snoc(list.drop_first(), idx + 1, compressed, p);
        assert(list.push(p).drop_first() =~= list.drop_first().push(p));
        assert(list.push(p)[0] == list[0]);
        assert(render_entries(list.push(p), idx, compressed) == entry_sep(idx) + render_entry(
            idx,
            list[0].0,
            list[0].1,
            compressed,
        ) + render_entries(list.drop_first().push(p), idx + 1, compressed));
        assert(render_entries(list.push(p), idx, compressed) =~= render_entries(
            list,
            idx,
            compressed,
        ) + entry_sep(idx + list.len()) + render_entry(
            idx + list.len(),
            p.0,
            p.1,
            compressed,
        ));
    }
}

/// The leading `info_file` field of the canonical form, brace included.
pub open spec fn part_info(info: Seq<u8>) -> Seq<u8> {
    seq![0x7bu8] + encode_utf8("\"info_file\":"@) + seq![0x22u8] + esc(info) + seq![0x22u8]
        + seq![0x2cu8]
}

/// The `file_name` field of the canonical form.
pub open spec fn part_name(name: Seq<u8>) -> Seq<u8> {
    encode_utf8("\"file_name\":"@) + seq![0x22u8] + esc(name) + seq![0x22u8] + seq![0x2cu8]
}

/// The `file_hash` field of the canonical form.
pub open spec fn part_hash(hash: Seq<u8>) -> Seq<u8> {
    encode_utf8("\"file_hash\":"@) + seq![0x22u8] + esc(hash) + seq![0x22u8] + seq![0x2cu8]
}

/// The `file_size` and `chunk_size` fields of the canonical form.
pub open spec fn part_sizes(file_size: nat, chunk_size: nat) -> Seq<u8> {
    encode_utf8("\"file_size\":"@) + dec_rep(file_size) + seq![0x2cu8] + encode_utf8(
        "\"chunk_size\":"@,
    ) + dec_rep(chunk_size) + seq![0x2cu8]
}

/// The `chunk_count` field and the opening of the `list` field.
pub open spec fn part_count(chunk_count: nat) -> Seq<u8> {
    encode_utf8("\"chunk_count\":"@) + dec_rep(chunk_count) + seq![0x2cu8] + encode_utf8(
        "\"list\":"@,
    ) + seq![0x7bu8]
}

/// Everything of the canonical form that precedes the chunk table entries.
pub open spec fn render_header(m: ManifestView) -> Seq<u8> {
    part_info(m.info_file) + part_name(m.file_name) + part_hash(m.file_hash) + part_sizes(
        m.file_size as nat,
        m.chunk_size as nat,
    ) + part_count(m.chunk_count as nat)
}

/// The canonical textual form of a manifest.
pub open spec fn render_manifest(m: ManifestView) -> Seq<u8> {
    render_header(m) + render_entries(m.list, 1, m.compressed) + seq![0x7du8] + seq![0x7du8]
}

fn push_part_info(out: &mut Vec<u8>, info: &String)
    ensures
        final(out)@ == old(out)@ + part_info(encode_utf8(info@)),
{
    push_byte(out, 0x7b);
    out.extend_from_slice("\"info_file\":".as_bytes());
    push_byte(out, 0x22);
    push_esc(out, &info.as_str().as_bytes_vec());
    push_byte(out, 0x22);
    push_byte(out, 0x2c);
    proof {
        assert(out@ =~= old(out)@ + part_info(encode_utf8(info@)));
    }
}

fn push_part_name(out: &mut Vec<u8>, name: &String)
    ensures
        final(out)@ == old(out)@ + part_name(encode_utf8(name@)),
{
    out.extend_from_slice("\"file_name\":".as_bytes());
    push_byte(out, 0x22);
    push_esc(out, &name.as_str().as_bytes_vec());
    push_byte(out, 0x22);
    push_byte(out, 0x2c);
    proof {
        assert(out@ =~= old(out)@ + part_name(encode_utf8(name@)));
    }
}

fn push_part_hash(out: &mut Vec<u8>, hash: &String)
    ensures
        final(out)@ == old(out)@ + part_hash(encode_utf8(hash@)),
{
    out.extend_from_slice("\"file_hash\":".as_bytes());
    push_byte(out, 0x22);
    push_esc(out, &hash.as_str().as_bytes_vec());
    push_byte(out, 0x22);
    push_byte(out, 0x2c);
    proof {
        assert(out@ =~= old(out)@ + part_hash(encode_utf8(hash@)));
    }
}

fn push_part_sizes(out: &mut Vec<u8>, file_size: usize, chunk_size: usize)
    ensures
        final(out)@ == old(out)@ + part_sizes(file_size as nat, chunk_size as nat),
{
    out.extend_from_slice("\"file_size\":".as_bytes());
    push_dec(out, file_size);
    push_byte(out, 0x2c);
    out.extend_from_slice("\"chunk_size\":".as_bytes());
    push_dec(out, chunk_size);
    push_byte(out, 0x2c);
    proof {
        assert(out@ =~= old(out)@ + part_sizes(file_size as nat, chunk_size as nat));
    }
}

fn push_part_count(out: &mut Vec<u8>, chunk_count: usize)
    ensures
        final(out)@ == old(out)@ + part_count(chunk_count as nat),
{
    out.extend_from_slice("\"chunk_count\":".as_bytes());
    push_dec(out, chunk_count);
    push_byte(out, 0x2c);
    out.extend_from_slice("\"list\":".as_bytes());
    push_byte(out, 0x7b);
    proof {
        assert(out@ =~= old(out)@ + part_count(chunk_count as nat));
    }
}

fn push_entry_key(out: &mut Vec<u8>, idx: usize)
    ensures
        final(out)@ == old(out)@ + entry_key(idx as nat),
{
    push_byte(out, 0x22);
    push_dec(out, idx);
    push_byte(out, 0x22);
    push_byte(out, 0x3a);
    proof {
        assert(out@ =~= old(out)@ + entry_key(idx as nat));
    }
}

fn push_entry_val(out: &mut Vec<u8>, h: &String, nm: &String, compressed: bool)
    ensures
        final(out)@ == old(out)@ + entry_val(encode_utf8(h@), encode_utf8(nm@), compressed),
{
    if compressed {
        push_byte(out, 0x5b);
        push_byte(out, 0x22);
        push_esc(out, &h.as_str().as_bytes_vec());
        push_byte(out, 0x22);
        push_byte(out, 0x2c);
        push_byte(out, 0x22);
        push_esc(out, &nm.as_str().as_bytes_vec());
        push_byte(out, 0x22);
        push_byte(out, 0x5d);
        proof {
            assert(out@ =~= old(out)@ + entry_val(encode_utf8(h@), encode_utf8(nm@), compressed));
        }
    } else {
        push_byte(out, 0x22);
        push_esc(out, &h.as_str().as_bytes_vec());
        push_byte(out, 0x22);
        proof {
            assert(out@ =~= old(out)@ + entry_val(encode_utf8(h@), encode_utf8(nm@), compressed));
        }
    }
}

/// Appends the chunk table entries.
#[verifier::rlimit(50)]
fn push_entries(out: &mut Vec<u8>, list: &Vec<(String, String)>, compressed: bool)
    ensures
        final(out)@ == old(out)@ + render_entries(
            list@.map_values(|p: (String, String)| (encode_utf8(p.0@), encode_utf8(p.1@))),
            1,
            compressed,
        ),
{
    let ghost lv = list@.map_values(|p: (String, String)| (encode_utf8(p.0@), encode_utf8(p.1@)));
    let mut i: usize = 0;
    proof {
        assert(lv.take(0) =~= Seq::<(Seq<u8>, Seq<u8>)>::empty());
        assert(out@ =~= out@ + render_entries(lv.take(0), 1, compressed));
    }
    while i < list.len()
        invariant
            i <= lv.len(),
            lv == list@.map_values(|p: (String, String)| (encode_utf8(p.0@), encode_utf8(p.1@))),
            out@ == old(out)@ + render_entries(lv.take(i as int), 1, compressed),
        decreases lv.len() - i,
    {
        let ghost pre = out@;
        if i > 0 {
            push_byte(out, 0x2c);
        }
        push_entry_key(out, i + 1);
        push_entry_val(out, &list[i].0, &list[i].1, compressed);
        proof {
            let entry = lv[i as int];
            assert(entry == (encode_utf8(list@[i as int].0@), encode_utf8(list@[i as int].1@)));
            assert(out@ =~= pre + entry_sep((i + 1) as nat) + render_entry(
                (i + 1) as nat,
                entry.0,
                entry.1,
                compressed,
            ));
            lemma_render_entries_snoc(lv.take(i as int), 1, compressed, entry);
            assert(lv.take(i + 1) =~= lv.take(i as int).push(entry));
            assert(out@ =~= old(out)@ + render_entries(lv.take(i + 1), 1, compressed));
        }
        i = i + 1;
    }
    proof {
        assert(lv.take(lv.len() as int) =~= lv);
    }
}

/// Renders a manifest in its canonical textual form.
pub fn render_manifest_bytes(m: &FileChunkSplitResult) -> (r: Vec<u8>)
    ensures
        r@ == render_manifest(m@),
{
    let mut out: Vec<u8> = Vec::new();
    push_part_info(&mut out, &m.info_file);
    push_part_name(&mut out, &m.file_name);
    push_part_hash(&mut out, &m.file_hash);
    push_part_sizes(&mut out, m.file_size, m.chunk_size);
    push_part_count(&mut out, m.chunk_count);
    proof {
        assert(out@ =~= render_header(m@));
    }
    push_entries(&mut out, &m.list, m.compressed);
    push_byte(&mut out, 0x7d);
    push_byte(&mut out, 0x7d);
    proof {
        assert(out@ =~= render_manifest(m@));
    }
    out
}

// ---------------------------------------------------------------------------
// Reading
// ---------------------------------------------------------------------------
/// Consumes one byte.
pub open spec fn sep_at(s: Seq<u8>, pos: int, b: u8) -> Option<int> {
    if byte_at(s, pos, b) {
        Some(pos + 1)
    } else {
        None
    }
}

/// Consumes a key literal.
pub open spec fn key_at(s: Seq<u8>, pos: int, key: Seq<u8>) -> Option<int> {
    if lit_at(s, pos, key) {
        Some(pos + key.len() as int)
    } else {
        None
    }
}

/// Consumes a quoted string holding valid UTF-8.
pub open spec fn string_at(s: Seq<u8>, pos: int) -> Option<(Seq<u8>, int)> {
    match sep_at(s, pos, 0x22) {
        Some(p) => match unesc_at(s, p) {
            Some((t, e)) => if valid_utf8(t) {
                Some((t, e))
            } else {
                None
            },
            None => None,
        },
        None => None,
    }
}

/// Consumes the optional `info_file` field: when the key stands at `pos`,
/// its string value and the following comma; otherwise nothing, yielding an
/// empty value.  The field is self-referential and its value is ignored.
pub open spec fn info_at(s: Seq<u8>, pos: int) -> Option<(Seq<u8>, int)> {
    if lit_at(s, pos, encode_utf8("\"info_file\":"@)) {
        match string_at(s, pos + encode_utf8("\"info_file\":"@).len()) {
            Some((info, p)) => match sep_at(s, p, 0x2c) {
                Some(p2) => Some((info, p2)),
                None => None,
            },
            None => None,
        }
    } else {
        Some((Seq::empty(), pos))
    }
}

/// Consumes everything that precedes the chunk table entries, yielding the
/// three string fields and the three numeric fields.
pub open spec fn header_at(s: Seq<u8>) -> Option<
    ((Seq<u8>, Seq<u8>, Seq<u8>, usize, usize, usize), int),
> {
    match sep_at(s, 0, 0x7b) {
        None => None,
        Some(p0) => match info_at(s, p0) {
            None => None,
            Some((info, p3)) => match key_at(s, p3, encode_utf8("\"file_name\":"@)) {
                None => None,
                Some(p4) => match string_at(s, p4) {
                    None => None,
                    Some((name, p5)) => match sep_at(s, p5, 0x2c) {
                        None => None,
                        Some(p6) => match key_at(s, p6, encode_utf8("\"file_hash\":"@)) {
                            None => None,
                            Some(p7) => match string_at(s, p7) {
                                None => None,
                                Some((hash, p8)) => header_nums_at(s, p8, info, name, hash),
                            },
                        },
                    },
                },
            },
        },
    }
}

/// Consumes the numeric fields of the header and the opening of the list.
pub open spec fn header_nums_at(s: Seq<u8>, pos: int, info: Seq<u8>, name: Seq<u8>, hash: Seq<u8>) -> Option<
    ((Seq<u8>, Seq<u8>, Seq<u8>, usize, usize, usize), int),
> {
    match sep_at(s, pos, 0x2c) {
        None => None,
        Some(p0) => match key_at(s, p0, encode_utf8("\"file_size\":"@)) {
            None => None,
            Some(p1) => match num_at(s, p1) {
                None => None,
                Some((fsize, p2)) => match sep_at(s, p2, 0x2c) {
                    None => None,
                    Some(p3) => match key_at(s, p3, encode_utf8("\"chunk_size\":"@)) {
                        None => None,
                        Some(p4) => match num_at(s, p4) {
                            None => None,
                            Some((csize, p5)) => match sep_at(s, p5, 0x2c) {
                                None => None,
                                Some(p6) => match key_at(s, p6, encode_utf8("\"chunk_count\":"@)) {
                                    None => None,
                                    Some(p7) => match num_at(s, p7) {
                                        None => None,
                                        Some((count, p8)) => match sep_at(s, p8, 0x2c) {
                                            None => None,
                                            Some(p9) => match key_at(
                                                s,
                                                p9,
                                                encode_utf8("\"list\":"@),
                                            ) {
                                                None => None,
                                                Some(p10) => match sep_at(s, p10, 0x7b) {
                                                    None => None,
                                                    Some(p11) => Some(
                                                        ((info, name, hash, fsize, csize, count), p11),
                                                    ),
                                                },
                                            },
                                        },
                                    },
                                },
                            },
                        },
                    },
                },
            },
        },
    }
}

/// Consumes the key of the entry with 1-based index `idx`, separator
/// included.
pub open spec fn entry_key_at(s: Seq<u8>, pos: int, idx: nat, first: bool) -> Option<int> {
    let q = if first {
        Some(pos)
    } else {
        sep_at(s, pos, 0x2c)
    };
    match q {
        None => None,
        Some(p0) => match sep_at(s, p0, 0x22) {
            None => None,
            Some(p1) => match num_at(s, p1) {
                None => None,
                Some((v, p2)) => if v as nat != idx {
                    None
                } else {
                    match sep_at(s, p2, 0x22) {
                        None => None,
                        Some(p3) => sep_at(s, p3, 0x3a),
                    }
                },
            },
        },
    }
}

/// Consumes the value of the entry with 1-based index `idx`.
pub open spec fn entry_val_at(s: Seq<u8>, pos: int, idx: nat, compressed: bool) -> Option<
    ((Seq<u8>, Seq<u8>), int),
> {
    if compressed {
        match sep_at(s, pos, 0x5b) {
            None => None,
            Some(p0) => match string_at(s, p0) {
                None => None,
                Some((h, p1)) => match sep_at(s, p1, 0x2c) {
                    None => None,
                    Some(p2) => match string_at(s, p2) {
                        None => None,
                        Some((nm, p3)) => match sep_at(s, p3, 0x5d) {
                            None => None,
                            Some(p4) => Some(((h, nm), p4)),
                        },
                    },
                },
            },
        }
    } else {
        match string_at(s, pos) {
            None => None,
            Some((h, p0)) => Some(((h, chunk_name_bytes(idx)), p0)),
        }
    }
}

/// Consumes `rem` entries, the first having 1-based index `idx`.
pub open spec fn entries_at(s: Seq<u8>, pos: int, idx: nat, rem: nat, compressed: bool) -> Option<
    (Seq<(Seq<u8>, Seq<u8>)>, int),
>
    decreases rem,
{
    if rem == 0 {
        Some((Seq::empty(), pos))
    } else {
        match entry_key_at(s, pos, idx, idx == 1) {
            None => None,
            Some(p0) => match entry_val_at(s, p0, idx, compressed) {
                None => None,
                Some((pair, p1)) => match entries_at(s, p1, idx + 1, (rem - 1) as nat, compressed) {
                    None => None,
                    Some((rest, e)) => Some((seq![pair] + rest, e)),
                },
            },
        }
    }
}

/// Reads a whole manifest from its canonical textual form.  The compression
/// mode is inferred from the shape of the first entry; a manifest without
/// chunks reads as uncompressed.
pub open spec fn parse_manifest_at(s: Seq<u8>) -> Option<ManifestView> {
    match header_at(s) {
        None => None,
        Some(((info, name, hash, fsize, csize, count), p)) => if csize < 1 {
            None
        } else if count == 0 {
            match sep_at(s, p, 0x7d) {
                None => None,
                Some(p0) => match sep_at(s, p0, 0x7d) {
                    None => None,
                    Some(p1) => if p1 == s.len() {
                        Some(
                            ManifestView {
                                info_file: info,
                                file_name: name,
                                file_hash: hash,
                                file_size: fsize as int,
                                chunk_size: csize as int,
                                chunk_count: 0,
                                compressed: false,
                                list: Seq::empty(),
                            },
                        )
                    } else {
                        None
                    },
                },
            }
        } else {
            match entry_key_at(s, p, 1, true) {
                None => None,
                Some(pk) => {
                    let compressed = byte_at(s, pk, 0x5b);
                    match entries_at(s, p, 1, count as nat, compressed) {
                        None => None,
                        Some((list, p1)) => match sep_at(s, p1, 0x7d) {
                            None => None,
                            Some(p2) => match sep_at(s, p2, 0x7d) {
                                None => None,
                                Some(p3) => if p3 == s.len() {
                                    Some(
                                        ManifestView {
                                            info_file: info,
                                            file_name: name,
                                            file_hash: hash,
                                            file_size: fsize as int,
                                            chunk_size: csize as int,
                                            chunk_count: count as int,
                                            compressed,
                                            list,
                                        },
                                    )
                                } else {
                                    None
                                },
                            },
                        },
                    }
                },
            }
        },
    }
}


/// Reads a quoted string at `pos` into an owned string.
pub fn parse_text(s: &Vec<u8>, pos: usize) -> (r: Option<(String, usize)>)
    requires
        pos <= s@.len(),
    ensures
        match r {
            Some((t, e)) => string_at(s@, pos as int) == Some((encode_utf8(t@), e as int)) && pos
                < e <= s@.len(),
            None => string_at(s@, pos as int) is None,
        },
{
    match expect_byte(s, pos, 0x22) {
        None => None,
        Some(p) => match parse_string(s, p) {
            None => None,
            Some((bytes, e)) => {
                let ghost bv = bytes@;
                match bytes_to_string(bytes) {
                    None => None,
                    Some(t) => Some((t, e)),
                }
            },
        },
    }
}

/// Reads the key of the entry with 1-based index `idx`.
pub fn parse_key(s: &Vec<u8>, pos: usize, idx: usize, first: bool) -> (r: Option<usize>)
    requires
        pos <= s@.len(),
    ensures
        match r {
            Some(e) => entry_key_at(s@, pos as int, idx as nat, first) == Some(e as int) && pos < e
                <= s@.len(),
            None => entry_key_at(s@, pos as int, idx as nat, first) is None,
        },
{
    let p0 = if first {
        pos
    } else {
        match expect_byte(s, pos, 0x2c) {
            None => {
                return None;
            },
            Some(p) => p,
        }
    };
    match expect_byte(s, p0, 0x22) {
        None => None,
        Some(p1) => match parse_num(s, p1) {
            None => None,
            Some((v, p2)) => if v != idx {
                None
            } else {
                match expect_byte(s, p2, 0x22) {
                    None => None,
                    Some(p3) => expect_byte(s, p3, 0x3a),
                }
            },
        },
    }
}

/// Reads the value of the entry with 1-based index `idx`.
pub fn parse_val(s: &Vec<u8>, pos: usize, idx: usize, compressed: bool) -> (r: Option<
    ((String, String), usize),
>)
    requires
        pos <= s@.len(),
    ensures
        match r {
            Some(((h, nm), e)) => entry_val_at(s@, pos as int, idx as nat, compressed) == Some(
                ((encode_utf8(h@), encode_utf8(nm@)), e as int),
            ) && pos < e <= s@.len(),
            None => entry_val_at(s@, pos as int, idx as nat, compressed) is None,
        },
{
    if compressed {
        match expect_byte(s, pos, 0x5b) {
            None => None,
            Some(p0) => match parse_text(s, p0) {
                None => None,
                Some((h, p1)) => match expect_byte(s, p1, 0x2c) {
                    None => None,
                    Some(p2) => match parse_text(s, p2) {
                        None => None,
                        Some((nm, p3)) => match expect_byte(s, p3, 0x5d) {
                            None => None,
                            Some(p4) => Some(((h, nm), p4)),
                        },
                    },
                },
            },
        }
    } else {
        match parse_text(s, pos) {
            None => None,
            Some((h, p0)) => {
                let nm = chunk_name(idx);
                Some(((h, nm), p0))
            },
        }
    }
}

/// Reads everything that precedes the chunk table entries.
fn parse_header(s: &Vec<u8>) -> (r: Option<((String, String, String, usize, usize, usize), usize)>)
    ensures
        match r {
            Some(((info, name, hash, fsize, csize, count), p)) => header_at(s@) == Some(
                (
                    (
                        encode_utf8(info@),
                        encode_utf8(name@),
                        encode_utf8(hash@),
                        fsize,
                        csize,
                        count,
                    ),
                    p as int,
                ),
            ) && p <= s@.len(),
            None => header_at(s@) is None,
        },
{
    let p = match expect_byte(s, 0, 0x7b) {
        None => {
            return None;
        },
        Some(p) => p,
    };
    let (info, p) = match expect_lit(s, p, "\"info_file\":") {
        None => (String::new(), p),
        Some(pk) => {
            let (v, pv) = match parse_text(s, pk) {
                None => {
                    return None;
                },
                Some(x) => x,
            };
            match expect_byte(s, pv, 0x2c) {
                None => {
                    return None;
                },
                Some(pc) => (v, pc),
            }
        },
    };
    proof {
        assert(encode_utf8(Seq::<char>::empty()) =~= Seq::<u8>::empty());
        assert(info_at(s@, 1) == Some((encode_utf8(info@), p as int)));
    }
    let p = match expect_lit(s, p, "\"file_name\":") {
        None => {
            return None;
        },
        Some(p) => p,
    };
    let (name, p) = match parse_text(s, p) {
        None => {
            return None;
        },
        Some(x) => x,
    };
    let p = match expect_byte(s, p, 0x2c) {
        None => {
            return None;
        },
        Some(p) => p,
    };
    let p = match expect_lit(s, p, "\"file_hash\":") {
        None => {
            return None;
        },
        Some(p) => p,
    };
    let (hash, p) = match parse_text(s, p) {
        None => {
            return None;
        },
        Some(x) => x,
    };
    let p = match expect_byte(s, p, 0x2c) {
        None => {
            return None;
        },
        Some(p) => p,
    };
    let p = match expect_lit(s, p, "\"file_size\":") {
        None => {
            return None;
        },
        Some(p) => p,
    };
    let (fsize, p) = match parse_num(s, p) {
        None => {
            return None;
        },
        Some(x) => x,
    };
    let p = match expect_byte(s, p, 0x2c) {
        None => {
            return None;
        },
        Some(p) => p,
    };
    let p = match expect_lit(s, p, "\"chunk_size\":") {
        None => {
            return None;
        },
        Some(p) => p,
    };
    let (csize, p) = match parse_num(s, p) {
        None => {
            return None;
        },
        Some(x) => x,
    };
    let p = match expect_byte(s, p, 0x2c) {
        None => {
            return None;
        },
        Some(p) => p,
    };
    let p = match expect_lit(s, p, "\"chunk_count\":") {
        None => {
            return None;
        },
        Some(p) => p,
    };
    let (count, p) = match parse_num(s, p) {
        None => {
            return None;
        },
        Some(x) => x,
    };
    let p = match expect_byte(s, p, 0x2c) {
        None => {
            return None;
        },
        Some(p) => p,
    };
    let p = match expect_lit(s, p, "\"list\":") {
        None => {
            return None;
        },
        Some(p) => p,
    };
    let p = match expect_byte(s, p, 0x7b) {
        None => {
            return None;
        },
        Some(p) => p,
    };
    Some(((info, name, hash, fsize, csize, count), p))
}

/// The byte-level content of an owned chunk table.
pub open spec fn table_view(list: Seq<(String, String)>) -> Seq<(Seq<u8>, Seq<u8>)> {
    list.map_values(|p: (String, String)| (encode_utf8(p.0@), encode_utf8(p.1@)))
}

/// Reads a whole manifest from its canonical textual form.
#[verifier::rlimit(100)]
#[verifier::loop_isolation(false)]
pub fn parse_manifest_bytes(s: &Vec<u8>) -> (r: Option<FileChunkSplitResult>)
    ensures
        match r {
            Some(mm) => parse_manifest_at(s@) == Some(mm@),
            None => parse_manifest_at(s@) is None,
        },
{
    let ((info, name, hash, fsize, csize, count), p) = match parse_header(s) {
        None => {
            return None;
        },
        Some(x) => x,
    };
    if csize < 1 {
        return None;
    }
    if count == 0 {
        let p0 = match expect_byte(s, p, 0x7d) {
            None => {
                return None;
            },
            Some(x) => x,
        };
        let p1 = match expect_byte(s, p0, 0x7d) {
            None => {
                return None;
            },
            Some(x) => x,
        };
        if p1 != s.len() {
            return None;
        }
        let mm = FileChunkSplitResult {
            info_file: info,
            file_name: name,
            file_hash: hash,
            file_size: fsize,
            chunk_size: csize,
            chunk_count: 0,
            compressed: false,
            list: Vec::new(),
        };
        proof {
            assert(mm@.list =~= Seq::<(Seq<u8>, Seq<u8>)>::empty());
        }
        return Some(mm);
    }
    let pk = match parse_key(s, p, 1, true) {
        None => {
            return None;
        },
        Some(x) => x,
    };
    let compressed = pk < s.len() && s[pk] == 0x5b;
    proof {
        assert(compressed == byte_at(s@, pk as int, 0x5b));
    }
    let mut lvec: Vec<(String, String)> = Vec::new();
    let mut p2: usize = p;
    let mut j: usize = 0;
    proof {
        if let Some((rest, e)) = entries_at(s@, p2 as int, 1, count as nat, compressed) {
            assert(table_view(lvec@) + rest =~= rest);
        }
    }
    while j < count
        invariant
            j <= count,
            p <= p2 <= s@.len(),
            match entries_at(s@, p2 as int, (j + 1) as nat, (count - j) as nat, compressed) {
                Some((rest, e)) => entries_at(s@, p as int, 1, count as nat, compressed) == Some(
                    (table_view(lvec@) + rest, e),
                ),
                None => entries_at(s@, p as int, 1, count as nat, compressed) is None,
            },
        decreases count - j,
    {
        let idx = j + 1;
        let pk1 = match parse_key(s, p2, idx, j == 0) {
            None => {
                proof {
                    assert(entry_key_at(s@, p2 as int, idx as nat, idx == 1) is None);
                    assert(entries_at(s@, p2 as int, idx as nat, (count - j) as nat, compressed)
                        is None);
                    assert(entries_at(s@, p as int, 1, count as nat, compressed) is None);
                }
                return None;
            },
            Some(x) => x,
        };
        let ((h, nm), pv) = match parse_val(s, pk1, idx, compressed) {
            None => {
                proof {
                    assert(entries_at(s@, p2 as int, idx as nat, (count - j) as nat, compressed)
                        is None);
                    assert(entries_at(s@, p as int, 1, count as nat, compressed) is None);
                }
                return None;
            },
            Some(x) => x,
        };
        proof {
            let pairv = (encode_utf8(h@), encode_utf8(nm@));
            if let Some((rest, e)) = entries_at(
                s@,
                pv as int,
                (idx + 1) as nat,
                (count - idx) as nat,
                compressed,
            ) {
                assert(entries_at(s@, p2 as int, idx as nat, (count - j) as nat, compressed)
                    == Some((seq![pairv] + rest, e)));
                assert(table_view(lvec@.push((h, nm))) =~= table_view(lvec@).push(pairv));
                assert(table_view(lvec@) + (seq![pairv] + rest) =~= table_view(lvec@).push(pairv)
                    + rest);
            }
        }
        lvec.push((h, nm));
        p2 = pv;
        j = idx;
    }
    proof {
        assert(entries_at(s@, p2 as int, (j + 1) as nat, 0, compressed) == Some(
            (Seq::<(Seq<u8>, Seq<u8>)>::empty(), p2 as int),
        ));
        assert(table_view(lvec@) + Seq::<(Seq<u8>, Seq<u8>)>::empty() =~= table_view(lvec@));
    }
    let q0 = match expect_byte(s, p2, 0x7d) {
        None => {
            return None;
        },
        Some(x) => x,
    };
    let q1 = match expect_byte(s, q0, 0x7d) {
        None => {
            return None;
        },
        Some(x) => x,
    };
    if q1 != s.len() {
        return None;
    }
    let mm = FileChunkSplitResult {
        info_file: info,
        file_name: name,
        file_hash: hash,
        file_size: fsize,
        chunk_size: csize,
        chunk_count: count,
        compressed,
        list: lvec,
    };
    Some(mm)
}


// ---------------------------------------------------------------------------
// Reading back what was rendered
// ---------------------------------------------------------------------------
/// What remains of `s` from `pos` on.
pub open spec fn suffix(s: Seq<u8>, pos: int) -> Seq<u8> {
    s.subrange(pos, s.len() as int)
}

/// Peels the leading piece `a` off a suffix known to be `a + b`.
pub proof fn lemma_peel(s: Seq<u8>, pos: int, a: Seq<u8>, b: Seq<u8>)
    requires
        0 <= pos <= s.len(),
        suffix(s, pos) == a + b,
    ensures
        pos + a.len() + b.len() == s.len(),
        lit_at(s, pos, a),
        a.len() > 0 ==> byte_at(s, pos, a[0]),
        suffix(s, pos + a.len()) == b,
    decreases 0int,
{
    assert(suffix(s, pos).len() == a.len() + b.len());
    assert(s.subrange(pos, pos + a.len() as int) =~= a) by {
        assert forall|j: int| 0 <= j < a.len() implies s[pos + j] == a[j] by {
            assert(suffix(s, pos)[j] == (a + b)[j]);
        }
    }
    assert(suffix(s, pos + a.len()) =~= b) by {
        assert forall|j: int| 0 <= j < b.len() implies s[pos + a.len() + j] == b[j] by {
            assert(suffix(s, pos)[a.len() + j] == (a + b)[a.len() + j]);
        }
    }
    if a.len() > 0 {
        assert(s[pos] == s.subrange(pos, pos + a.len() as int)[0]);
    }
}

/// Reading a quoted string off a suffix of the shape
/// `quote, escaped content, quote, rest`.
pub proof fn lemma_string_step(s: Seq<u8>, pos: int, x: Seq<u8>, rest: Seq<u8>)
    requires
        0 <= pos <= s.len(),
        suffix(s, pos) == seq![0x22u8] + (esc(x) + (seq![0x22u8] + rest)),
        valid_utf8(x),
    ensures
        string_at(s, pos) == Some((x, pos + 2 + esc(x).len())),
        pos + 2 + esc(x).len() <= s.len(),
        suffix(s, pos + 2 + esc(x).len()) == rest,
{
    lemma_peel(s, pos, seq![0x22u8], esc(x) + (seq![0x22u8] + rest));
    let p1 = pos + 1;
    lemma_peel(s, p1, esc(x), seq![0x22u8] + rest);
    let p2 = p1 + esc(x).len();
    lemma_peel(s, p2, seq![0x22u8], rest);
    assert(s.subrange(p1, p1 + esc(x).len() + 1) =~= esc(x) + seq![0x22u8]) by {
        assert(s.subrange(p1, p2 as int) =~= esc(x));
        assert forall|j: int| 0 <= j < esc(x).len() + 1 implies s[p1 + j] == (esc(x)
            + seq![0x22u8])[j] by {
            if j < esc(x).len() {
                assert(s.subrange(p1, p2 as int)[j] == s[p1 + j]);
            } else {
                assert(s[p2] == 0x22);
            }
        }
    }
    lemma_unesc_esc(s, x, p1);
}

/// Reading a rendered number off a suffix of the shape `digits, rest`,
/// where `rest` does not begin with a digit.
pub proof fn lemma_num_step(s: Seq<u8>, pos: int, v: nat, rest: Seq<u8>)
    requires
        0 <= pos <= s.len(),
        v <= usize::MAX,
        suffix(s, pos) == dec_rep(v) + rest,
        rest.len() > 0,
        !is_digit(rest[0]),
    ensures
        num_at(s, pos) == Some((v as usize, pos + dec_rep(v).len())),
        pos + dec_rep(v).len() <= s.len(),
        suffix(s, pos + dec_rep(v).len()) == rest,
{
    lemma_peel(s, pos, dec_rep(v), rest);
    let p1 = pos + dec_rep(v).len() as int;
    lemma_peel(s, p1, rest, Seq::empty());
    assert(s[p1] == rest[0]);
    lemma_num_at_rep(s, pos, v);
}

/// Reading one string field off a suffix of the shape
/// `key, quote, escaped content, quote, comma, rest`.
pub proof fn lemma_field_step(s: Seq<u8>, pos: int, key: Seq<u8>, x: Seq<u8>, rest: Seq<u8>)
    requires
        0 <= pos <= s.len(),
        suffix(s, pos) == key + (seq![0x22u8] + (esc(x) + (seq![0x22u8] + (seq![0x2cu8] + rest)))),
        valid_utf8(x),
    ensures
        key_at(s, pos, key) == Some(pos + key.len()),
        string_at(s, pos + key.len()) == Some((x, pos + key.len() + 2 + esc(x).len())),
        sep_at(s, pos + key.len() + 2 + esc(x).len(), 0x2c) == Some(
            pos + key.len() + 3 + esc(x).len(),
        ),
        pos + key.len() + 3 + esc(x).len() <= s.len(),
        suffix(s, pos + key.len() + 3 + esc(x).len()) == rest,
{
    lemma_peel(s, pos, key, seq![0x22u8] + (esc(x) + (seq![0x22u8] + (seq![0x2cu8] + rest))));
    let p1 = pos + key.len() as int;
    lemma_string_step(s, p1, x, seq![0x2cu8] + rest);
    let p2 = p1 + 2 + esc(x).len() as int;
    lemma_peel(s, p2, seq![0x2cu8], rest);
}

/// Reading one numeric field off a suffix of the shape
/// `key, digits, comma, rest`.
pub proof fn lemma_numfield_step(s: Seq<u8>, pos: int, key: Seq<u8>, v: nat, rest: Seq<u8>)
    requires
        0 <= pos <= s.len(),
        suffix(s, pos) == key + (dec_rep(v) + (seq![0x2cu8] + rest)),
        v <= usize::MAX,
    ensures
        key_at(s, pos, key) == Some(pos + key.len()),
        num_at(s, pos + key.len()) == Some(
            (v as usize, pos + key.len() + dec_rep(v).len()),
        ),
        sep_at(s, pos + key.len() + dec_rep(v).len(), 0x2c) == Some(
            pos + key.len() + dec_rep(v).len() + 1,
        ),
        pos + key.len() + dec_rep(v).len() + 1 <= s.len(),
        suffix(s, pos + key.len() + dec_rep(v).len() + 1) == rest,
{
    lemma_peel(s, pos, key, dec_rep(v) + (seq![0x2cu8] + rest));
    let p1 = pos + key.len() as int;
    lemma_num_step(s, p1, v, seq![0x2cu8] + rest);
    let p2 = p1 + dec_rep(v).len() as int;
    lemma_peel(s, p2, seq![0x2cu8], rest);
}

/// `part_info` glued to a tail, written fully right-associated.
pub proof fn bridge_part_info(info: Seq<u8>, rest: Seq<u8>)
    ensures
        part_info(info) + rest == seq![0x7bu8] + (encode_utf8("\"info_file\":"@) + (seq![0x22u8] + (
        esc(info) + (seq![0x22u8] + (seq![0x2cu8] + rest))))),
{
    let t1 = seq![0x7bu8];
    let t2 = encode_utf8("\"info_file\":"@);
    let t3 = seq![0x22u8];
    let t4 = esc(info);
    let t5 = seq![0x22u8];
    let t6 = seq![0x2cu8];
    lemma_concat_associative(t1 + t2 + t3 + t4 + t5, t6, rest);
    lemma_concat_associative(t1 + t2 + t3 + t4, t5, t6 + rest);
    lemma_concat_associative(t1 + t2 + t3, t4, t5 + (t6 + rest));
    lemma_concat_associative(t1 + t2, t3, t4 + (t5 + (t6 + rest)));
    lemma_concat_associative(t1, t2, t3 + (t4 + (t5 + (t6 + rest))));
}

/// A string field glued to a tail, written fully right-associated.
pub proof fn bridge_field(key: Seq<u8>, x: Seq<u8>, rest: Seq<u8>)
    ensures
        (key + seq![0x22u8] + esc(x) + seq![0x22u8] + seq![0x2cu8]) + rest == key + (seq![0x22u8]
            + (esc(x) + (seq![0x22u8] + (seq![0x2cu8] + rest)))),
{
    let t3 = seq![0x22u8];
    let t4 = esc(x);
    let t5 = seq![0x22u8];
    let t6 = seq![0x2cu8];
    lemma_concat_associative(key + t3 + t4 + t5, t6, rest);
    lemma_concat_associative(key + t3 + t4, t5, t6 + rest);
    lemma_concat_associative(key + t3, t4, t5 + (t6 + rest));
    lemma_concat_associative(key, t3, t4 + (t5 + (t6 + rest)));
}

/// A numeric field glued to a tail, written fully right-associated.
pub proof fn bridge_numfield(key: Seq<u8>, v: nat, rest: Seq<u8>)
    ensures
        (key + dec_rep(v) + seq![0x2cu8]) + rest == key + (dec_rep(v) + (seq![0x2cu8] + rest)),
{
    lemma_concat_associative(key + dec_rep(v), seq![0x2cu8], rest);
    lemma_concat_associative(key, dec_rep(v), seq![0x2cu8] + rest);
}

/// `part_sizes` glued to a tail, written as two numeric fields.
pub proof fn bridge_part_sizes(fsize: nat, csize: nat, rest: Seq<u8>)
    ensures
        part_sizes(fsize, csize) + rest == (encode_utf8("\"file_size\":"@) + dec_rep(fsize)
            + seq![0x2cu8]) + ((encode_utf8("\"chunk_size\":"@) + dec_rep(csize) + seq![0x2cu8])
            + rest),
{
    let a = encode_utf8("\"file_size\":"@) + dec_rep(fsize) + seq![0x2cu8];
    let kc = encode_utf8("\"chunk_size\":"@);
    lemma_concat_associative(a + kc + dec_rep(csize), seq![0x2cu8], rest);
    lemma_concat_associative(a + kc, dec_rep(csize), seq![0x2cu8] + rest);
    lemma_concat_associative(a, kc, dec_rep(csize) + (seq![0x2cu8] + rest));
    lemma_concat_associative(kc, dec_rep(csize), seq![0x2cu8] + rest);
    lemma_concat_associative(kc + dec_rep(csize), seq![0x2cu8], rest);
}

/// `part_count` glued to a tail, written as a numeric field and the list
/// opening.
pub proof fn bridge_part_count(count: nat, rest: Seq<u8>)
    ensures
        part_count(count) + rest == (encode_utf8("\"chunk_count\":"@) + dec_rep(count)
            + seq![0x2cu8]) + (encode_utf8("\"list\":"@) + (seq![0x7bu8] + rest)),
{
    let a = encode_utf8("\"chunk_count\":"@) + dec_rep(count) + seq![0x2cu8];
    let kl = encode_utf8("\"list\":"@);
    lemma_concat_associative(a + kl, seq![0x7bu8], rest);
    lemma_concat_associative(a, kl, seq![0x7bu8] + rest);
}

/// Reading the three string fields of the header.
#[verifier::rlimit(100)]
pub proof fn lemma_header_strings(
    s: Seq<u8>,
    info: Seq<u8>,
    name: Seq<u8>,
    hash: Seq<u8>,
    rest: Seq<u8>,
)
    requires
        suffix(s, 0) == part_info(info) + (part_name(name) + (part_hash(hash) + rest)),
        valid_utf8(info),
        valid_utf8(name),
        valid_utf8(hash),
    ensures
        rest.len() <= s.len(),
        header_at(s) == header_nums_at(s, s.len() - rest.len() - 1, info, name, hash),
        suffix(s, s.len() - rest.len() - 1) == seq![0x2cu8] + rest,
{
    assert(s.subrange(0, s.len() as int) =~= s);
    let ki = encode_utf8("\"info_file\":"@);
    let kn = encode_utf8("\"file_name\":"@);
    let kh = encode_utf8("\"file_hash\":"@);
    let r1 = part_name(name) + (part_hash(hash) + rest);
    bridge_part_info(info, r1);
    lemma_peel(s, 0, seq![0x7bu8], ki + (seq![0x22u8] + (esc(info) + (seq![0x22u8] + (seq![0x2cu8]
        + r1)))));
    lemma_field_step(s, 1, ki, info, r1);
    let p4 = 1 + ki.len() + 3 + esc(info).len() as int;
    assert(lit_at(s, 1, ki));
    assert(info_at(s, 1) == Some((info, p4)));
    let r2 = part_hash(hash) + rest;
    bridge_field(kn, name, r2);
    assert(part_name(name) == kn + seq![0x22u8] + esc(name) + seq![0x22u8] + seq![0x2cu8]);
    lemma_field_step(s, p4, kn, name, r2);
    let p7 = p4 + kn.len() + 3 + esc(name).len() as int;
    bridge_field(kh, hash, rest);
    assert(part_hash(hash) == kh + seq![0x22u8] + esc(hash) + seq![0x22u8] + seq![0x2cu8]);
    lemma_field_step(s, p7, kh, hash, rest);
    let p9 = p7 + kh.len() + 2 + esc(hash).len() as int;
    assert(p9 == s.len() - rest.len() - 1);
    assert(suffix(s, p9) =~= seq![0x2cu8] + rest) by {
        assert(sep_at(s, p9, 0x2c) == Some(p9 + 1));
        assert(suffix(s, p9 + 1) == rest);
        assert(byte_at(s, p9, 0x2c));
        assert forall|j: int| 0 <= j < s.len() - p9 implies suffix(s, p9)[j] == (seq![0x2cu8]
            + rest)[j] by {
            if j > 0 {
                assert(suffix(s, p9 + 1)[j - 1] == rest[j - 1]);
            }
        }
    }
    assert(header_at(s) == header_nums_at(s, p9, info, name, hash));
}

/// Reading the numeric fields of the header and the opening of the list.
pub proof fn lemma_header_nums(
    s: Seq<u8>,
    pos: int,
    info: Seq<u8>,
    name: Seq<u8>,
    hash: Seq<u8>,
    fsize: nat,
    csize: nat,
    count: nat,
    rest: Seq<u8>,
)
    requires
        0 <= pos <= s.len(),
        suffix(s, pos) == seq![0x2cu8] + (part_sizes(fsize, csize) + (part_count(count) + rest)),
        fsize <= usize::MAX,
        csize <= usize::MAX,
        count <= usize::MAX,
    ensures
        rest.len() <= s.len(),
        header_nums_at(s, pos, info, name, hash) == Some(
            (
                (info, name, hash, fsize as usize, csize as usize, count as usize),
                s.len() - rest.len(),
            ),
        ),
        suffix(s, s.len() - rest.len()) == rest,
{
    let kf = encode_utf8("\"file_size\":"@);
    let kc = encode_utf8("\"chunk_size\":"@);
    let kn = encode_utf8("\"chunk_count\":"@);
    let kl = encode_utf8("\"list\":"@);
    let r1 = part_count(count) + rest;
    lemma_peel(s, pos, seq![0x2cu8], part_sizes(fsize, csize) + r1);
    let p0 = pos + 1;
    bridge_part_sizes(fsize, csize, r1);
    let rc = (kc + dec_rep(csize) + seq![0x2cu8]) + r1;
    bridge_numfield(kf, fsize, rc);
    lemma_numfield_step(s, p0, kf, fsize, rc);
    let p1 = p0 + kf.len() + dec_rep(fsize).len() + 1int;
    bridge_numfield(kc, csize, r1);
    lemma_numfield_step(s, p1, kc, csize, r1);
    let p2 = p1 + kc.len() + dec_rep(csize).len() + 1int;
    let rl = kl + (seq![0x7bu8] + rest);
    bridge_part_count(count, rest);
    bridge_numfield(kn, count, rl);
    lemma_numfield_step(s, p2, kn, count, rl);
    let p3 = p2 + kn.len() + dec_rep(count).len() + 1int;
    lemma_peel(s, p3, kl, seq![0x7bu8] + rest);
    let p4 = p3 + kl.len() as int;
    lemma_peel(s, p4, seq![0x7bu8], rest);
    assert(p4 + 1 == s.len() - rest.len());
    assert(header_nums_at(s, pos, info, name, hash) == Some(
        ((info, name, hash, fsize as usize, csize as usize, count as usize), p4 + 1),
    ));
}


/// Reading an entry key off a suffix of the shape
/// `separator, quote, digits, quote, colon, rest`.
pub proof fn lemma_entry_key_step(s: Seq<u8>, pos: int, idx: nat, rest: Seq<u8>)
    requires
        0 <= pos <= s.len(),
        1 <= idx <= usize::MAX,
        suffix(s, pos) == entry_sep(idx) + (entry_key(idx) + rest),
        rest.len() > 0,
    ensures
        entry_key_at(s, pos, idx, idx == 1) == Some(s.len() - rest.len()),
        s.len() - rest.len() <= s.len(),
        suffix(s, s.len() - rest.len()) == rest,
{
    lemma_peel(s, pos, entry_sep(idx), entry_key(idx) + rest);
    let p0 = pos + entry_sep(idx).len() as int;
    lemma_concat_associative(seq![0x22u8] + dec_rep(idx) + seq![0x22u8], seq![0x3au8], rest);
    lemma_concat_associative(seq![0x22u8] + dec_rep(idx), seq![0x22u8], seq![0x3au8] + rest);
    lemma_concat_associative(seq![0x22u8], dec_rep(idx), seq![0x22u8] + (seq![0x3au8] + rest));
    assert(entry_key(idx) + rest == seq![0x22u8] + (dec_rep(idx) + (seq![0x22u8] + (seq![0x3au8]
        + rest))));
    lemma_peel(s, p0, seq![0x22u8], dec_rep(idx) + (seq![0x22u8] + (seq![0x3au8] + rest)));
    let p1 = p0 + 1;
    lemma_num_step(s, p1, idx, seq![0x22u8] + (seq![0x3au8] + rest));
    let p2 = p1 + dec_rep(idx).len() as int;
    lemma_peel(s, p2, seq![0x22u8], seq![0x3au8] + rest);
    let p3 = p2 + 1;
    lemma_peel(s, p3, seq![0x3au8], rest);
    assert(p3 + 1 == s.len() - rest.len());
    if idx > 1 {
        assert(byte_at(s, pos, 0x2c));
        assert(sep_at(s, pos, 0x2c) == Some(pos + 1));
    }
    assert(entry_key_at(s, pos, idx, idx == 1) == Some(p3 + 1));
}

/// Reading an entry value off a suffix of the shape `value, rest`.
pub proof fn lemma_entry_val_step(
    s: Seq<u8>,
    pos: int,
    idx: nat,
    h: Seq<u8>,
    nm: Seq<u8>,
    compressed: bool,
    rest: Seq<u8>,
)
    requires
        0 <= pos <= s.len(),
        suffix(s, pos) == entry_val(h, nm, compressed) + rest,
        valid_utf8(h),
        valid_utf8(nm),
        !compressed ==> nm == chunk_name_bytes(idx),
    ensures
        entry_val_at(s, pos, idx, compressed) == Some(((h, nm), s.len() - rest.len())),
        s.len() - rest.len() <= s.len(),
        suffix(s, s.len() - rest.len()) == rest,
        byte_at(s, pos, 0x5b) == compressed,
{
    if compressed {
        let t1 = seq![0x5bu8];
        let t2 = seq![0x22u8];
        let t3 = esc(h);
        let t4 = seq![0x22u8];
        let t5 = seq![0x2cu8];
        let t6 = seq![0x22u8];
        let t7 = esc(nm);
        let t8 = seq![0x22u8];
        let t9 = seq![0x5du8];
        lemma_concat_associative(t1 + t2 + t3 + t4 + t5 + t6 + t7 + t8, t9, rest);
        lemma_concat_associative(t1 + t2 + t3 + t4 + t5 + t6 + t7, t8, t9 + rest);
        lemma_concat_associative(t1 + t2 + t3 + t4 + t5 + t6, t7, t8 + (t9 + rest));
        lemma_concat_associative(t1 + t2 + t3 + t4 + t5, t6, t7 + (t8 + (t9 + rest)));
        lemma_concat_associative(t1 + t2 + t3 + t4, t5, t6 + (t7 + (t8 + (t9 + rest))));
        lemma_concat_associative(t1 + t2 + t3, t4, t5 + (t6 + (t7 + (t8 + (t9 + rest)))));
        lemma_concat_associative(t1 + t2, t3, t4 + (t5 + (t6 + (t7 + (t8 + (t9 + rest))))));
        lemma_concat_associative(t1, t2, t3 + (t4 + (t5 + (t6 + (t7 + (t8 + (t9 + rest)))))));
        assert(entry_val(h, nm, compressed) + rest == t1 + (t2 + (t3 + (t4 + (t5 + (t6 + (t7 + (t8
            + (t9 + rest)))))))));
        lemma_peel(s, pos, t1, t2 + (t3 + (t4 + (t5 + (t6 + (t7 + (t8 + (t9 + rest))))))));
        let p0 = pos + 1;
        lemma_string_step(s, p0, h, t5 + (t6 + (t7 + (t8 + (t9 + rest)))));
        let p1 = p0 + 2 + esc(h).len() as int;
        lemma_peel(s, p1, t5, t6 + (t7 + (t8 + (t9 + rest))));
        let p2 = p1 + 1;
        lemma_string_step(s, p2, nm, t9 + rest);
        let p3 = p2 + 2 + esc(nm).len() as int;
        lemma_peel(s, p3, t9, rest);
        assert(p3 + 1 == s.len() - rest.len());
        assert(entry_val_at(s, pos, idx, compressed) == Some(((h, nm), p3 + 1)));
    } else {
        lemma_concat_associative(seq![0x22u8] + esc(h), seq![0x22u8], rest);
        lemma_concat_associative(seq![0x22u8], esc(h), seq![0x22u8] + rest);
        assert(entry_val(h, nm, compressed) + rest == seq![0x22u8] + (esc(h) + (seq![0x22u8]
            + rest)));
        lemma_string_step(s, pos, h, rest);
        assert(byte_at(s, pos, 0x22));
        assert(entry_val_at(s, pos, idx, compressed) == Some(((h, nm), s.len() - rest.len())));
    }
}

/// Reading a run of rendered entries yields exactly the rendered table.
pub proof fn lemma_entries_step(
    s: Seq<u8>,
    pos: int,
    list: Seq<(Seq<u8>, Seq<u8>)>,
    idx: nat,
    compressed: bool,
    rest: Seq<u8>,
)
    requires
        0 <= pos <= s.len(),
        1 <= idx,
        idx + list.len() <= usize::MAX + 1,
        suffix(s, pos) == render_entries(list, idx, compressed) + rest,
        rest.len() > 0,
        forall|j: int|
            0 <= j < list.len() ==> valid_utf8((#[trigger] list[j]).0) && valid_utf8(list[j].1),
        !compressed ==> forall|j: int|
            0 <= j < list.len() ==> (#[trigger] list[j]).1 == chunk_name_bytes((idx + j) as nat),
    ensures
        entries_at(s, pos, idx, list.len() as nat, compressed) == Some(
            (list, s.len() - rest.len()),
        ),
        s.len() - rest.len() <= s.len(),
        suffix(s, s.len() - rest.len()) == rest,
        list.len() > 0 ==> match entry_key_at(s, pos, idx, idx == 1) {
            Some(pk) => byte_at(s, pk, 0x5b) == compressed,
            None => false,
        },
    decreases list.len(),
{
    if list.len() == 0 {
        lemma_peel(s, pos, render_entries(list, idx, compressed), rest);
        assert(pos == s.len() - rest.len());
    } else {
        let h = list[0].0;
        let nm = list[0].1;
        let rec = render_entries(list.drop_first(), idx + 1, compressed);
        let entry = render_entry(idx, h, nm, compressed);
        assert(render_entries(list, idx, compressed) == entry_sep(idx) + entry + rec);
        lemma_concat_associative(entry_sep(idx) + entry, rec, rest);
        lemma_concat_associative(entry_sep(idx), entry, rec + rest);
        lemma_concat_associative(entry_key(idx), entry_val(h, nm, compressed), rec + rest);
        assert(suffix(s, pos) == entry_sep(idx) + ((entry_key(idx) + (entry_val(h, nm, compressed)
            + (rec + rest)))));
        lemma_concat_associative(entry_sep(idx), entry_key(idx), entry_val(h, nm, compressed) + (
        rec + rest));
        assert(suffix(s, pos) == entry_sep(idx) + (entry_key(idx) + (entry_val(h, nm, compressed)
            + (rec + rest))));
        lemma_entry_key_step(s, pos, idx, entry_val(h, nm, compressed) + (rec + rest));
        let pk = s.len() - (entry_val(h, nm, compressed) + (rec + rest)).len();
        lemma_entry_val_step(s, pk, idx, h, nm, compressed, rec + rest);
        let pv = s.len() - (rec + rest).len();
        assert forall|j: int|
            0 <= j < list.drop_first().len() implies valid_utf8(
            (#[trigger] list.drop_first()[j]).0,
        ) && valid_utf8(list.drop_first()[j].1) by {
            assert(list.drop_first()[j] == list[j + 1]);
        }
        if !compressed {
            assert forall|j: int| 0 <= j < list.drop_first().len() implies (
            #[trigger] list.drop_first()[j]).1 == chunk_name_bytes((idx + 1 + j) as nat) by {
                assert(list.drop_first()[j] == list[j + 1]);
            }
        }
        lemma_entries_step(s, pv, list.drop_first(), idx + 1, compressed, rest);
        assert(seq![list[0]] + list.drop_first() =~= list);
        assert(entries_at(s, pos, idx, list.len() as nat, compressed) == Some(
            (list, s.len() - rest.len()),
        ));
    }
}

/// Reading what follows the header: the chunk table and the two closing
/// braces.
#[verifier::rlimit(100)]
proof fn lemma_parse_finish(s: Seq<u8>, m: ManifestView, hp: int)
    requires
        crate::manifest::manifest_wf(m),
        0 <= hp <= s.len(),
        header_at(s) == Some(
            (
                (
                    m.info_file,
                    m.file_name,
                    m.file_hash,
                    m.file_size as usize,
                    m.chunk_size as usize,
                    m.chunk_count as usize,
                ),
                hp,
            ),
        ),
        suffix(s, hp) == render_entries(m.list, 1, m.compressed) + (seq![0x7du8] + seq![0x7du8]),
    ensures
        parse_manifest_at(s) == Some(m),
{
    if m.chunk_count == 0 {
        assert(m.list.len() == 0);
        assert(render_entries(m.list, 1, m.compressed) == Seq::<u8>::empty());
        assert(suffix(s, hp) =~= seq![0x7du8] + (seq![0x7du8] + Seq::<u8>::empty()));
        lemma_peel(s, hp, seq![0x7du8], seq![0x7du8] + Seq::<u8>::empty());
        lemma_peel(s, hp + 1, seq![0x7du8], Seq::<u8>::empty());
        assert(hp + 2 == s.len());
        let mv = parse_manifest_at(s);
        assert(mv is Some);
        assert(mv.unwrap() =~= m) by {
            assert(m.list =~= Seq::<(Seq<u8>, Seq<u8>)>::empty());
        }
    } else {
        lemma_entries_step(s, hp, m.list, 1, m.compressed, seq![0x7du8] + seq![0x7du8]);
        let p2e = s.len() - 2;
        assert(entries_at(s, hp, 1, m.list.len() as nat, m.compressed) == Some((m.list, p2e)));
        assert(suffix(s, p2e) == seq![0x7du8] + seq![0x7du8]);
        assert(seq![0x7du8] + seq![0x7du8] =~= seq![0x7du8] + (seq![0x7du8] + Seq::<u8>::empty()));
        lemma_peel(s, p2e, seq![0x7du8], seq![0x7du8] + Seq::<u8>::empty());
        lemma_peel(s, p2e + 1, seq![0x7du8], Seq::<u8>::empty());
        let mv = parse_manifest_at(s);
        assert(mv is Some);
        assert(mv.unwrap() =~= m);
    }
}

/// Reading back the canonical form of a structurally sound manifest yields
/// that manifest.
#[verifier::rlimit(100)]
pub proof fn lemma_parse_render(m: ManifestView)
    requires
        crate::manifest::manifest_wf(m),
    ensures
        parse_manifest_at(render_manifest(m)) == Some(m),
{
    let s = render_manifest(m);
    let d2 = seq![0x7du8] + seq![0x7du8];
    let ent = render_entries(m.list, 1, m.compressed);
    let e7 = ent + (seq![0x7du8] + seq![0x7du8]);
    let hd = render_header(m);
    lemma_concat_associative(hd + ent, seq![0x7du8], seq![0x7du8]);
    lemma_concat_associative(hd, ent, d2);
    lemma_concat_associative(ent, seq![0x7du8], seq![0x7du8]);
    assert(s == hd + e7);
    let p1 = part_info(m.info_file);
    let p2 = part_name(m.file_name);
    let p3 = part_hash(m.file_hash);
    let p4 = part_sizes(m.file_size as nat, m.chunk_size as nat);
    let p5 = part_count(m.chunk_count as nat);
    lemma_concat_associative(p1 + p2 + p3 + p4, p5, e7);
    lemma_concat_associative(p1 + p2 + p3, p4, p5 + e7);
    lemma_concat_associative(p1 + p2, p3, p4 + (p5 + e7));
    lemma_concat_associative(p1, p2, p3 + (p4 + (p5 + e7)));
    assert(s == p1 + (p2 + (p3 + (p4 + (p5 + e7)))));
    assert(suffix(s, 0) =~= s);
    lemma_header_strings(s, m.info_file, m.file_name, m.file_hash, p4 + (p5 + e7));
    lemma_header_nums(
        s,
        s.len() - (p4 + (p5 + e7)).len() - 1,
        m.info_file,
        m.file_name,
        m.file_hash,
        m.file_size as nat,
        m.chunk_size as nat,
        m.chunk_count as nat,
        e7,
    );
    let hp = s.len() - e7.len();
    lemma_parse_finish(s, m, hp);
}

} // verus!
