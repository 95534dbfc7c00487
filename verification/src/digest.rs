//! Revision hashes and attachment digests.

use vstd::prelude::*;
use base64::Engine;
use crate::revision::{AdapterError, chars_of, opt_text, push_char, string_of};

verus! {

#[verifier::external_type_specification]
#[verifier::external_body]
pub struct ExJsonValue(serde_json::Value);

#[verifier::external_type_specification]
#[verifier::external_body]
pub struct ExJsonError(serde_json::Error);

/// The MD5 digest of a byte string.
pub uninterp spec fn spec_md5(data: Seq<u8>) -> Seq<u8>;

/// Computes the MD5 digest of `data` with the `md-5` crate (`Md5::digest`).
/// The contract names the result `spec_md5` of the input bytes and states the
/// digest length of 16 bytes; the digest algorithm itself is not stated.
#[verifier::external_body]
fn md5_digest(data: &[u8]) -> (res: Vec<u8>)
    ensures
        res@ == spec_md5(data@),
        res@.len() == 16,
{
    <md5::Md5 as md5::Digest>::digest(data).to_vec()
}

/// The character of a 6-bit value in the standard base64 alphabet.
pub open spec fn base64_char(v: nat) -> char {
    if v < 26 {
        (65 + v) as char
    } else if v < 52 {
        (97 + (v - 26)) as char
    } else if v < 62 {
        (48 + (v - 52)) as char
    } else if v == 62 {
        '+'
    } else {
        '/'
    }
}

/// Standard base64 (RFC 4648, with `=` padding) of a byte string.
pub open spec fn base64_spec(b: Seq<u8>) -> Seq<char>
    decreases b.len(),
{
    if b.len() == 0 {
        seq![]
    } else if b.len() == 1 {
        seq![base64_char(b[0] as nat / 4), base64_char((b[0] as nat % 4) * 16), '=', '=']
    } else if b.len() == 2 {
        seq![
            base64_char(b[0] as nat / 4),
            base64_char((b[0] as nat % 4) * 16 + b[1] as nat / 16),
            base64_char((b[1] as nat % 16) * 4),
            '=',
        ]
    } else {
        seq![
            base64_char(b[0] as nat / 4),
            base64_char((b[0] as nat % 4) * 16 + b[1] as nat / 16),
            base64_char((b[1] as nat % 16) * 4 + b[2] as nat / 64),
            base64_char(b[2] as nat % 64),
        ] + base64_spec(b.subrange(3, b.len() as int))
    }
}

/// Encodes `data` with the `base64` crate's `general_purpose::STANDARD`
/// engine. The contract states that this is standard base64 with padding,
/// as the crate documents for that engine.
#[verifier::external_body]
fn base64_standard(data: &[u8]) -> (res: String)
    ensures
        res@ == base64_spec(data@),
{
    base64::engine::general_purpose::STANDARD.encode(data)
}

/// The compact JSON text of a value, as `serde_json::to_string` writes it.
pub uninterp spec fn json_text(v: serde_json::Value) -> Seq<char>;

/// Serialises a JSON value to text with `serde_json::to_string`. The
/// contract names the text `json_text` of the value and states that it
/// succeeds: a `Value`'s map keys are strings and its numbers are finite (the
/// `arbitrary_precision` feature is not enabled), so its `Serialize` impl
/// never fails, and writing into a `Vec<u8>` cannot fail.
#[verifier::external_body]
pub(crate) fn json_to_string(v: &serde_json::Value) -> (res: Result<String, serde_json::Error>)
    ensures
        res is Ok,
        res matches Ok(t) ==> t@ == json_text(*v),
{
    serde_json::to_string(v)
}

/// The `Debug` text of a `serde_json` error, which that crate writes from
/// the error's message and position.
pub uninterp spec fn json_error_text(e: serde_json::Error) -> Seq<char>;

/// Formats a `serde_json` error with its `Debug` impl. The contract names
/// the text `json_error_text` of the error.
#[verifier::external_body]
fn json_error_debug(e: &serde_json::Error) -> (res: String)
    ensures
        res@ == json_error_text(*e),
{
    format!("{:?}", e)
}

/// The lower-case hexadecimal digit of a 4-bit value.
pub open spec fn hex_char(v: nat) -> char {
    if v < 10 { (48 + v) as char } else { (97 + (v - 10)) as char }
}

/// Lower-case hexadecimal text of a byte string, two digits per byte.
pub open spec fn hex_lower(b: Seq<u8>) -> Seq<char>
    decreases b.len(),
{
    if b.len() == 0 {
        seq![]
    } else {
        hex_lower(b.drop_last()) + seq![hex_char(b.last() as nat / 16), hex_char(b.last() as nat % 16)]
    }
}

fn hex_digit(v: u8) -> (c: char)
    requires
        v < 16,
    ensures
        c == hex_char(v as nat),
{
    let table: [char; 16] = ['0', '1', '2', '3', '4', '5', '6', '7', '8', '9', 'a', 'b', 'c', 'd', 'e', 'f'];
    let c = table[v as usize];
    assert(c == hex_char(v as nat)) by {
        assert(table@[v as int] == c);
    }
    c
}

/// Lower-case hexadecimal text of `bytes`.
pub fn to_hex_lower(bytes: &[u8]) -> (res: String)
    ensures
        res@ == hex_lower(bytes@),
{
    let mut res = String::new();
    let mut i: usize = 0;
    while i < bytes.len()
        invariant
            i <= bytes.len(),
            res@ == hex_lower(bytes@.subrange(0, i as int)),
        decreases bytes.len() - i,
    {
        let b = bytes[i];
        push_char(&mut res, hex_digit(b / 16));
        push_char(&mut res, hex_digit(b % 16));
        proof {
            let next = bytes@.subrange(0, i + 1);
            assert(next.drop_last() =~= bytes@.subrange(0, i as int));
            assert(next.last() == b);
        }
        i = i + 1;
    }
    proof {
        assert(bytes@.subrange(0, bytes@.len() as int) =~= bytes@);
    }
    res
}

/// The bytes that a revision hash digests: the previous revision's text
/// where there is one, then `1` for a deletion or `0` otherwise, then the
/// serialised body.
pub open spec fn rev_hash_input(body: Seq<char>, deleted: bool, prev_rev: Option<Seq<char>>) -> Seq<u8> {
    let prefix = match prev_rev {
        Some(p) => vstd::utf8::encode_utf8(p),
        None => seq![],
    };
    prefix + seq![if deleted { 49u8 } else { 48u8 }] + vstd::utf8::encode_utf8(body)
}

/// The revision hash of a body given as serialised JSON text.
pub open spec fn rev_hash_spec(body: Seq<char>, deleted: bool, prev_rev: Option<Seq<char>>) -> Seq<char> {
    hex_lower(spec_md5(rev_hash_input(body, deleted, prev_rev)))
}

fn append_bytes(v: &mut Vec<u8>, b: &[u8])
    ensures
        final(v)@ == old(v)@ + b@,
{
    let mut i: usize = 0;
    let ghost start = v@;
    while i < b.len()
        invariant
            i <= b.len(),
            v@ == start + b@.subrange(0, i as int),
        decreases b.len() - i,
    {
        v.push(b[i]);
        i = i + 1;
    }
    proof {
        assert(b@.subrange(0, b@.len() as int) =~= b@);
    }
}

/// The revision hash of a document whose body serialises to `body`: the
/// lower-case hex MD5 of the previous revision, the deletion flag and the
/// body.
pub fn rev_hash_of_json(body: &str, deleted: bool, prev_rev: Option<&str>) -> (res: String)
    ensures
        res@ == rev_hash_spec(body@, deleted, opt_text(prev_rev)),
        res@.len() == 32,
{
    let mut input: Vec<u8> = Vec::new();
    match prev_rev {
        Some(p) => append_bytes(&mut input, p.as_bytes()),
        None => {},
    }
    input.push(if deleted { 49u8 } else { 48u8 });
    append_bytes(&mut input, body.as_bytes());
    proof {
        let prefix = match prev_rev {
            Some(p) => vstd::utf8::encode_utf8(p@),
            None => Seq::<u8>::empty(),
        };
        assert(input@ =~= rev_hash_input(body@, deleted, opt_text(prev_rev)));
    }
    let digest = md5_digest(input.as_slice());
    proof {
        lemma_hex_lower_len(digest@);
    }
    to_hex_lower(digest.as_slice())
}

/// Hex text has two digits per byte.
pub proof fn lemma_hex_lower_len(b: Seq<u8>)
    ensures
        hex_lower(b).len() == 2 * b.len(),
    decreases b.len(),
{
    if b.len() > 0 {
        lemma_hex_lower_len(b.drop_last());
    }
}

/// The error that a failed serialisation turns into: a storage error whose
/// text is `serde: ` and the error's `Debug` text.
pub fn serde_err(e: &serde_json::Error) -> (res: AdapterError)
    ensures
        res matches AdapterError::DatabaseError(t) && t@ == "serde: "@ + json_error_text(*e),
{
    let mut cs: Vec<char> = Vec::new();
    cs.push('s');
    cs.push('e');
    cs.push('r');
    cs.push('d');
    cs.push('e');
    cs.push(':');
    cs.push(' ');
    let detail = chars_of(json_error_debug(e).as_str());
    let ghost prefix = seq!['s', 'e', 'r', 'd', 'e', ':', ' '];
    let mut i: usize = 0;
    while i < detail.len()
        invariant
            i <= detail.len(),
            detail@ == json_error_text(*e),
            cs@ == prefix + detail@.subrange(0, i as int),
        decreases detail.len() - i,
    {
        cs.push(detail[i]);
        i = i + 1;
        assert(cs@ =~= prefix + detail@.subrange(0, i as int));
    }
    proof {
        reveal_strlit("serde: ");
        assert(detail@.subrange(0, detail@.len() as int) =~= detail@);
        assert("serde: "@ =~= prefix);
    }
    AdapterError::DatabaseError(string_of(&cs))
}

/// Generates the hash of a new revision: serialises the body, then hashes
/// the previous revision, the deletion flag and the body text with MD5.
/// Serialising a JSON value does not fail, so the result is always `Ok`.
pub fn generate_rev_hash(doc_data: &serde_json::Value, deleted: bool, prev_rev: Option<&str>) -> (res: Result<String, AdapterError>)
    ensures
        res matches Ok(h) && h@ == rev_hash_spec(json_text(*doc_data), deleted, opt_text(prev_rev)) && h@.len() == 32,
{
    match json_to_string(doc_data) {
        Ok(body) => Ok(rev_hash_of_json(body.as_str(), deleted, prev_rev)),
        Err(e) => Err(serde_err(&e)),
    }
}

/// The digest under which an attachment's bytes are stored: `md5-` then the
/// standard base64 of their MD5.
pub open spec fn attachment_digest_spec(data: Seq<u8>) -> Seq<char> {
    seq!['m', 'd', '5', '-'] + base64_spec(spec_md5(data))
}

/// Computes the content digest of attachment bytes.
pub fn compute_attachment_digest(data: &[u8]) -> (res: String)
    ensures
        res@ == attachment_digest_spec(data@),
{
    let digest = md5_digest(data);
    let b64 = base64_standard(digest.as_slice());
    let mut cs: Vec<char> = Vec::new();
    cs.push('m');
    cs.push('d');
    cs.push('5');
    cs.push('-');
    let bs = chars_of(b64.as_str());
    let mut i: usize = 0;
    while i < bs.len()
        invariant
            i <= bs.len(),
            bs@ == b64@,
            cs@ == seq!['m', 'd', '5', '-'] + b64@.subrange(0, i as int),
        decreases bs.len() - i,
    {
        cs.push(bs[i]);
        i = i + 1;
    }
    proof {
        assert(b64@.subrange(0, b64@.len() as int) =~= b64@);
    }
    string_of(&cs)
}

} // verus!
