//! Byte-level building blocks of the wire formats: little-endian integers and
//! length-prefixed UTF-8 strings.
use vstd::bytes::{spec_u64_from_le_bytes, spec_u64_to_le_bytes, lemma_auto_spec_u64_to_from_le_bytes, u64_from_le_bytes, u64_to_le_bytes};
use vstd::prelude::*;
use vstd::slice::{slice_subrange, slice_to_vec};
use vstd::utf8::{decode_utf8, encode_utf8, valid_utf8, encode_utf8_decode_utf8};

verus! {

/// The eight little-endian bytes of `x`.
pub open spec fn le(x: u64) -> Seq<u8> {
    spec_u64_to_le_bytes(x)
}

/// `part` stands in `s` from position `pos` on.
pub open spec fn holds_at(s: Seq<u8>, pos: int, part: Seq<u8>) -> bool {
    &&& 0 <= pos
    &&& pos + part.len() <= s.len()
    &&& s.subrange(pos, pos + part.len()) == part
}

/// Reads an integer at `pos`; gives it and the position after it.
pub open spec fn parse_u64(s: Seq<u8>, pos: int) -> Option<(u64, int)> {
    if 0 <= pos && pos + 8 <= s.len() {
        Some((spec_u64_from_le_bytes(s.subrange(pos, pos + 8)), pos + 8))
    } else {
        None
    }
}

/// A string on the wire: the length of its UTF-8 bytes, then those bytes.
pub open spec fn str_bytes(c: Seq<char>) -> Seq<u8> {
    le(encode_utf8(c).len() as u64) + encode_utf8(c)
}

/// A string encodes without loss when its byte length fits the prefix.
pub open spec fn str_fits(c: Seq<char>) -> bool {
    encode_utf8(c).len() <= u64::MAX
}

/// Reads a length-prefixed UTF-8 string at `pos`.
pub open spec fn parse_str(s: Seq<u8>, pos: int) -> Option<(Seq<char>, int)> {
    match parse_u64(s, pos) {
        Some((n, p)) => if p + n <= s.len() && valid_utf8(s.subrange(p, p + n)) {
            Some((decode_utf8(s.subrange(p, p + n)), p + n))
        } else {
            None
        },
        None => None,
    }
}

pub proof fn lemma_le_len(x: u64)
    ensures
        le(x).len() == 8,
{
    lemma_auto_spec_u64_to_from_le_bytes();
}

pub proof fn lemma_holds_at_split(s: Seq<u8>, pos: int, a: Seq<u8>, b: Seq<u8>)
    requires
        holds_at(s, pos, a + b),
    ensures
        holds_at(s, pos, a),
        holds_at(s, pos + a.len(), b),
{
    let whole = s.subrange(pos, pos + a.len() + b.len());
    assert(whole == a + b);
    assert(s.subrange(pos, pos + a.len()) =~= whole.subrange(0, a.len() as int));
    assert((a + b).subrange(0, a.len() as int) =~= a);
    assert(s.subrange(pos + a.len(), pos + a.len() + b.len()) =~= whole.subrange(
        a.len() as int,
        (a.len() + b.len()) as int,
    ));
    assert((a + b).subrange(a.len() as int, (a.len() + b.len()) as int) =~= b);
}

pub proof fn lemma_parse_u64(s: Seq<u8>, pos: int, x: u64)
    requires
        holds_at(s, pos, le(x)),
    ensures
        parse_u64(s, pos) == Some((x, pos + 8)),
{
    lemma_auto_spec_u64_to_from_le_bytes();
}

pub proof fn lemma_parse_str(s: Seq<u8>, pos: int, c: Seq<char>)
    requires
        holds_at(s, pos, str_bytes(c)),
        str_fits(c),
    ensures
        parse_str(s, pos) == Some((c, pos + str_bytes(c).len())),
{
    lemma_le_len(encode_utf8(c).len() as u64);
    lemma_holds_at_split(s, pos, le(encode_utf8(c).len() as u64), encode_utf8(c));
    lemma_parse_u64(s, pos, encode_utf8(c).len() as u64);
    encode_utf8_decode_utf8(c);
    vstd::utf8::encode_utf8_valid_utf8(c);
}

/// Relies on `String::from_utf8`: it accepts exactly the valid UTF-8 byte
/// sequences, and the string it builds has those bytes.
#[verifier::external_body]
pub(crate) fn string_from_utf8(bytes: Vec<u8>) -> (r: Option<String>)
    ensures
        r is Some <==> valid_utf8(bytes@),
        r matches Some(s) ==> encode_utf8(s@) == bytes@,
{
    String::from_utf8(bytes).ok()
}

/// Appends the eight little-endian bytes of `x`.
pub fn put_u64(out: &mut Vec<u8>, x: u64)
    ensures
        final(out)@ == old(out)@ + le(x),
{
    let mut b = u64_to_le_bytes(x);
    out.append(&mut b);
}

/// Appends a length-prefixed UTF-8 string.
pub fn put_str(out: &mut Vec<u8>, s: &String)
    ensures
        final(out)@ == old(out)@ + str_bytes(s@),
        str_fits(s@),
{
    let bytes = s.as_str().as_bytes();
    put_u64(out, bytes.len() as u64);
    out.extend_from_slice(bytes);
    assert(final(out)@ =~= old(out)@ + str_bytes(s@));
}

/// Reads an integer at `pos`, exactly as `parse_u64` says.
pub fn get_u64(buf: &[u8], pos: usize) -> (r: Option<(u64, usize)>)
    ensures
        match r {
            Some((v, p)) => parse_u64(buf@, pos as int) == Some((v, p as int)),
            None => parse_u64(buf@, pos as int) is None,
        },
{
    if pos <= buf.len() && buf.len() - pos >= 8 {
        let part = slice_subrange(buf, pos, pos + 8);
        let v = u64_from_le_bytes(part);
        Some((v, pos + 8))
    } else {
        None
    }
}

/// Reads a length-prefixed UTF-8 string at `pos`, exactly as `parse_str` says.
pub fn get_str(buf: &[u8], pos: usize) -> (r: Option<(String, usize)>)
    ensures
        match r {
            Some((v, p)) => parse_str(buf@, pos as int) == Some((v@, p as int)),
            None => parse_str(buf@, pos as int) is None,
        },
{
    match get_u64(buf, pos) {
        None => None,
        Some((n, p)) => {
            if n > (buf.len() - p) as u64 {
                None
            } else {
                let end = p + n as usize;
                let part = slice_to_vec(slice_subrange(buf, p, end));
                proof {
                    assert(part@ == buf@.subrange(p as int, p + n));
                }
                match string_from_utf8(part) {
                    None => None,
                    Some(s) => {
                        proof {
                            encode_utf8_decode_utf8(s@);
                        }
                        Some((s, end))
                    },
                }
            }
        },
    }
}

} // verus!
