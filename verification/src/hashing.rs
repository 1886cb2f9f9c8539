use vstd::prelude::*;
use sha2::Digest;
use crate::text::string_from_chars;

verus! {

/// The SHA-256 digest of a byte sequence, as the `sha2` crate computes it.
pub uninterp spec fn sha256_digest(data: Seq<u8>) -> Seq<u8>;

/// `sha2::Sha256::digest`: the contract claims that the result is the digest
/// named `sha256_digest` of the input, and that it is 32 bytes long (the
/// output size `U32` with which `sha2` declares `Sha256`).
#[verifier::external_body]
fn sha256(data: &[u8]) -> (r: Vec<u8>)
    ensures
        r@ == sha256_digest(data@),
        r@.len() == 32,
{
    sha2::Sha256::digest(data).to_vec()
}

/// The lower-case hexadecimal digit of a value below 16.
pub open spec fn hex_digit(n: u8) -> char {
    if n < 10 {
        (48 + n) as char
    } else {
        (87 + n) as char
    }
}

/// Lower-case hexadecimal text of a byte sequence, two digits per byte, the
/// high half of each byte first.
pub open spec fn hex_lower(data: Seq<u8>) -> Seq<char>
    decreases data.len(),
{
    if data.len() == 0 {
        Seq::empty()
    } else {
        hex_lower(data.drop_last()) + seq![
            hex_digit(data.last() / 16),
            hex_digit(data.last() % 16),
        ]
    }
}

pub proof fn lemma_hex_lower_len(data: Seq<u8>)
    ensures
        hex_lower(data).len() == 2 * data.len(),
    decreases data.len(),
{
    if data.len() > 0 {
        lemma_hex_lower_len(data.drop_last());
    }
}

/// The value of a lower-case hexadecimal digit, or -1 for any other
/// character.
pub open spec fn hex_value(c: char) -> int {
    if '0' <= c && c <= '9' {
        c as int - 48
    } else if 'a' <= c && c <= 'f' {
        c as int - 87
    } else {
        -1
    }
}

proof fn lemma_hex_digit_value(n: u8)
    requires
        n < 16,
    ensures
        hex_value(hex_digit(n)) == n,
{
    if n < 10 {
        assert(((48 + n) as char) as int == 48 + n);
    } else {
        assert(((87 + n) as char) as int == 87 + n);
    }
}

/// Hexadecimal text reads back as the bytes it was made from: two digits per
/// byte, each a lower-case hexadecimal digit, the high half first.
pub proof fn law_hex_reads_back(data: Seq<u8>)
    ensures
        hex_lower(data).len() == 2 * data.len(),
        forall|i: int|
            0 <= i < data.len() ==> 0 <= hex_value(#[trigger] hex_lower(data)[2 * i]) < 16 && 0 <= hex_value(
                hex_lower(data)[2 * i + 1],
            ) < 16 && hex_value(hex_lower(data)[2 * i]) * 16 + hex_value(hex_lower(data)[2 * i + 1]) == data[i],
    decreases data.len(),
{
    lemma_hex_lower_len(data);
    if data.len() > 0 {
        let d = data.drop_last();
        law_hex_reads_back(d);
        let h = hex_lower(data);
        let hd = hex_lower(d);
        let b = data.last();
        lemma_hex_digit_value(b / 16);
        lemma_hex_digit_value(b % 16);
        assert forall|i: int| 0 <= i < data.len() implies 0 <= hex_value(#[trigger] h[2 * i]) < 16 && 0 <= hex_value(
            h[2 * i + 1],
        ) < 16 && hex_value(h[2 * i]) * 16 + hex_value(h[2 * i + 1]) == data[i] by {
            if i < d.len() {
                assert(h[2 * i] == hd[2 * i]);
                assert(h[2 * i + 1] == hd[2 * i + 1]);
                assert(data[i] == d[i]);
            } else {
                assert(h[2 * i] == hex_digit(b / 16));
                assert(h[2 * i + 1] == hex_digit(b % 16));
                assert(data[i] == b);
            }
        }
    }
}

fn hex_char(n: u8) -> (c: char)
    requires
        n < 16,
    ensures
        c == hex_digit(n),
{
    if n < 10 {
        (48 + n) as char
    } else {
        (87 + n) as char
    }
}

/// Lower-case hexadecimal text of `data`.
pub fn to_hex(data: &[u8]) -> (s: String)
    ensures
        s@ == hex_lower(data@),
        s@.len() == 2 * data@.len(),
{
    let mut out: Vec<char> = Vec::new();
    let mut i: usize = 0;
    while i < data.len()
        invariant
            i <= data@.len(),
            out@ == hex_lower(data@.take(i as int)),
        decreases data.len() - i,
    {
        let b: u8 = data[i];
        out.push(hex_char(b / 16));
        out.push(hex_char(b % 16));
        assert(data@.take(i + 1).drop_last() =~= data@.take(i as int));
        i = i + 1;
    }
    assert(data@.take(data@.len() as int) =~= data@);
    proof {
        lemma_hex_lower_len(data@);
    }
    string_from_chars(&out)
}

/// The text under which a snapshot records a file's contents: the SHA-256
/// digest of the bytes, in lower-case hexadecimal.
pub fn content_digest(data: &[u8]) -> (s: String)
    ensures
        s@ == hex_lower(sha256_digest(data@)),
        s@.len() == 64,
{
    let d = sha256(data);
    to_hex(d.as_slice())
}

} // verus!
