//! Hex names of digests and the two-level layout of the store's directory tree.

use vstd::prelude::*;

verus! {

/// The lowercase hex digit of a nibble.
pub open spec fn hex_digit(n: int) -> char {
    seq!['0', '1', '2', '3', '4', '5', '6', '7', '8', '9', 'a', 'b', 'c', 'd', 'e', 'f'][n]
}

/// Two lowercase hex digits per byte, high nibble first.
pub open spec fn hex_encode(b: Seq<u8>) -> Seq<char> {
    Seq::new(
        2 * b.len(),
        |i: int|
            if i % 2 == 0 {
                hex_digit(b[i / 2] as int / 16)
            } else {
                hex_digit(b[i / 2] as int % 16)
            },
    )
}

/// A hex digit of either case.
pub open spec fn is_hex_char(c: char) -> bool {
    ('0' <= c && c <= '9') || ('a' <= c && c <= 'f') || ('A' <= c && c <= 'F')
}

/// The value of a hex digit of either case.
pub open spec fn hex_value(c: char) -> int {
    if '0' <= c && c <= '9' {
        c as int - '0' as int
    } else if 'a' <= c && c <= 'f' {
        c as int - 'a' as int + 10
    } else {
        c as int - 'A' as int + 10
    }
}

/// The bytes that a hex text stands for: absent where its length is odd or
/// a character is no hex digit.
pub open spec fn hex_decode(s: Seq<char>) -> Option<Seq<u8>> {
    if s.len() % 2 == 0 && forall|i: int| 0 <= i < s.len() ==> is_hex_char(#[trigger] s[i]) {
        Some(
            Seq::new(
                s.len() / 2,
                |i: int| (16 * hex_value(s[2 * i]) + hex_value(s[2 * i + 1])) as u8,
            ),
        )
    } else {
        None
    }
}

/// The path of `name` under `base`: `name` alone under an empty base, and one
/// separator between the two unless `base` already ends with one.
pub open spec fn path_join(base: Seq<char>, name: Seq<char>) -> Seq<char> {
    if base.len() == 0 {
        name
    } else if base.last() == '/' {
        base + name
    } else {
        base + seq!['/'] + name
    }
}

/// The fan-out directory of a digest: the first two hex digits under `root`.
pub open spec fn bucket_dir(root: Seq<char>, digest: Seq<u8>) -> Seq<char> {
    path_join(root, hex_encode(digest).subrange(0, 2))
}

/// The file that holds a digest's content: the remaining hex digits in its
/// fan-out directory.
pub open spec fn content_file(root: Seq<char>, digest: Seq<u8>) -> Seq<char> {
    path_join(bucket_dir(root, digest), hex_encode(digest).subrange(2, 2 * digest.len() as int))
}

/// A name in the tree that is no hex text of whole bytes.
#[derive(Debug, PartialEq, Eq, Structural)]
pub enum NameError {
    NotHex,
}

#[verifier::external_type_specification]
#[verifier::external_body]
pub struct ExFromHexError(hex::FromHexError);

/// Relies on hex::encode: two lowercase digits per byte, high nibble first.
#[verifier::external_body]
fn encode_hex(b: &[u8]) -> (r: String)
    ensures
        r@ == hex_encode(b@),
{
    hex::encode(b)
}

/// Relies on hex::decode: it accepts an even number of hex digits of either
/// case and gives one byte per pair, high nibble first; anything else is an
/// error (a character outside ASCII is never a hex digit).
#[verifier::external_body]
fn decode_hex(s: &str) -> (r: Result<Vec<u8>, hex::FromHexError>)
    ensures
        match r {
            Ok(v) => hex_decode(s@) == Some(v@),
            Err(_) => hex_decode(s@) is None,
        },
{
    hex::decode(s)
}

/// The hex form of a digest.
pub fn hex_name(digest: &[u8]) -> (r: String)
    ensures
        r@ == hex_encode(digest@),
{
    encode_hex(digest)
}

/// Joins `name` under `base` with a `/` separator.
pub fn join_path(base: &str, name: &str) -> (r: String)
    ensures
        r@ == path_join(base@, name@),
{
    let n = base.unicode_len();
    let mut r = String::from_str(base);
    if n > 0 && base.get_char(n - 1) != '/' {
        proof {
            reveal_strlit("/");
        }
        r.append("/");
    }
    r.append(name);
    proof {
        if n > 0 && base@.last() != '/' {
            assert(r@ =~= base@ + seq!['/'] + name@);
        }
    }
    r
}

/// The fan-out directory of a digest under `root` and the file inside it
/// that holds the digest's content.
pub fn fan_out_path(root: &str, digest: &[u8]) -> (r: (String, String))
    requires
        digest@.len() >= 1,
    ensures
        r.0@ == bucket_dir(root@, digest@),
        r.1@ == content_file(root@, digest@),
{
    let h = encode_hex(digest);
    let hs = h.as_str();
    let n = hs.unicode_len();
    let dir = join_path(root, hs.substring_char(0, 2));
    let file = join_path(dir.as_str(), hs.substring_char(2, n));
    (dir, file)
}

/// The digest that a pair of names in the tree stands for: the hex text of
/// the directory's name followed by the file's.
pub fn digest_from_names(dir: &str, file: &str) -> (r: Result<Vec<u8>, NameError>)
    ensures
        match r {
            Ok(v) => hex_decode(dir@ + file@) == Some(v@),
            Err(_) => hex_decode(dir@ + file@) is None,
        },
{
    let mut joined = String::from_str(dir);
    joined.append(file);
    match decode_hex(joined.as_str()) {
        Ok(v) => Ok(v),
        Err(_) => Err(NameError::NotHex),
    }
}

proof fn lemma_hex_digit(n: int)
    requires
        0 <= n < 16,
    ensures
        is_hex_char(hex_digit(n)),
        hex_value(hex_digit(n)) == n,
{
    let t = seq!['0', '1', '2', '3', '4', '5', '6', '7', '8', '9', 'a', 'b', 'c', 'd', 'e', 'f'];
    assert(hex_digit(n) == t[n]);
    if n == 0 { assert(t[0] == '0'); } else if n == 1 { assert(t[1] == '1'); }
    else if n == 2 { assert(t[2] == '2'); } else if n == 3 { assert(t[3] == '3'); }
    else if n == 4 { assert(t[4] == '4'); } else if n == 5 { assert(t[5] == '5'); }
    else if n == 6 { assert(t[6] == '6'); } else if n == 7 { assert(t[7] == '7'); }
    else if n == 8 { assert(t[8] == '8'); } else if n == 9 { assert(t[9] == '9'); }
    else if n == 10 { assert(t[10] == 'a'); } else if n == 11 { assert(t[11] == 'b'); }
    else if n == 12 { assert(t[12] == 'c'); } else if n == 13 { assert(t[13] == 'd'); }
    else if n == 14 { assert(t[14] == 'e'); } else { assert(t[15] == 'f'); }
}

/// Decoding the hex form of any bytes gives those bytes back.
pub proof fn lemma_hex_round_trip(b: Seq<u8>)
    ensures
        hex_decode(hex_encode(b)) == Some(b),
{
    let s = hex_encode(b);
    assert forall|i: int| 0 <= i < s.len() implies is_hex_char(#[trigger] s[i]) by {
        lemma_hex_digit(b[i / 2] as int / 16);
        lemma_hex_digit(b[i / 2] as int % 16);
    }
    let d = hex_decode(s)->Some_0;
    assert forall|i: int| 0 <= i < b.len() implies #[trigger] d[i] == b[i] by {
        assert((2 * i) / 2 == i && (2 * i + 1) / 2 == i);
        assert((2 * i) % 2 == 0 && (2 * i + 1) % 2 == 1);
        lemma_hex_digit(b[i] as int / 16);
        lemma_hex_digit(b[i] as int % 16);
    }
    assert(d =~= b);
}

/// The names that a digest is stored under decode back to that digest, which
/// is how the store finds its blocks again when it starts.
pub proof fn lemma_stored_names_decode(digest: Seq<u8>)
    requires
        digest.len() >= 1,
    ensures
        hex_decode(
            hex_encode(digest).subrange(0, 2) + hex_encode(digest).subrange(
                2,
                2 * digest.len() as int,
            ),
        ) == Some(digest),
{
    let s = hex_encode(digest);
    assert(s.subrange(0, 2) + s.subrange(2, 2 * digest.len() as int) =~= s);
    lemma_hex_round_trip(digest);
}

} // verus!
