//! Checksum algorithms for the S3 workload. The digests themselves come
//! from outside crates; this module names their results, parses algorithm
//! names, and maps each algorithm to its request header.

use vstd::prelude::*;
use vstd::string::StrSliceExecFns;

verus! {

/// The checksum algorithms a PUT request can carry.
#[derive(Clone, Copy, Debug, PartialEq, Eq, Structural, Hash)]
pub enum Checksum {
    Md5,
    Crc32,
    Crc32c,
    Sha1,
    Sha2,
}

/// The lowercase-hex MD5 digest of the bytes.
pub uninterp spec fn md5_hex_of(data: Seq<u8>) -> Seq<char>;

/// The lowercase-hex CRC-32 (CKSUM polynomial) of the bytes.
pub uninterp spec fn crc32_hex_of(data: Seq<u8>) -> Seq<char>;

/// The lowercase-hex CRC-32C (Castagnoli) of the bytes.
pub uninterp spec fn crc32c_hex_of(data: Seq<u8>) -> Seq<char>;

/// The lowercase-hex SHA-1 digest of the bytes.
pub uninterp spec fn sha1_hex_of(data: Seq<u8>) -> Seq<char>;

/// The lowercase-hex SHA-256 digest of the bytes.
pub uninterp spec fn sha256_hex_of(data: Seq<u8>) -> Seq<char>;

/// The digest an algorithm produces for the given bytes.
pub open spec fn digest_hex_of(algo: Checksum, data: Seq<u8>) -> Seq<char> {
    match algo {
        Checksum::Md5 => md5_hex_of(data),
        Checksum::Crc32 => crc32_hex_of(data),
        Checksum::Crc32c => crc32c_hex_of(data),
        Checksum::Sha1 => sha1_hex_of(data),
        Checksum::Sha2 => sha256_hex_of(data),
    }
}

/// Relies on `md5::Md5::digest` of the `md-5` crate: the digest depends on
/// the input bytes alone; `{:x}` renders its 16 bytes as two lowercase hex
/// digits each.
#[verifier::external_body]
fn md5_hex(data: &Vec<u8>) -> (r: String)
    ensures
        r@ == md5_hex_of(data@),
        r@.len() == 32,
{
    format!("{:x}", <md5::Md5 as md5::Digest>::digest(data))
}

/// Relies on `crc::Crc::<u32>::checksum` with the `CRC_32_CKSUM` algorithm:
/// the checksum depends on the input bytes alone; `{:x}` renders the 32-bit
/// value as one to eight lowercase hex digits, without leading zeros.
#[verifier::external_body]
fn crc32_hex(data: &Vec<u8>) -> (r: String)
    ensures
        r@ == crc32_hex_of(data@),
        1 <= r@.len() <= 8,
{
    let crc = crc::Crc::<u32>::new(&crc::CRC_32_CKSUM);
    format!("{:x}", crc.checksum(data))
}

/// Relies on `crc32c_hw::update` from an initial state of 0: the CRC-32C
/// value depends on the input bytes alone; `{:x}` renders the 32-bit value
/// as one to eight lowercase hex digits, without leading zeros.
#[verifier::external_body]
fn crc32c_hex(data: &Vec<u8>) -> (r: String)
    ensures
        r@ == crc32c_hex_of(data@),
        1 <= r@.len() <= 8,
{
    format!("{:x}", crc32c_hw::update(0, data))
}

/// Relies on `sha1::Sha1::digest`: the digest depends on the input bytes
/// alone; `{:x}` renders its 20 bytes as two lowercase hex digits each.
#[verifier::external_body]
fn sha1_hex(data: &Vec<u8>) -> (r: String)
    ensures
        r@ == sha1_hex_of(data@),
        r@.len() == 40,
{
    format!("{:x}", <sha1::Sha1 as sha1::Digest>::digest(data))
}

/// Relies on `sha2::Sha256::digest`: the digest depends on the input bytes
/// alone; `{:x}` renders its 32 bytes as two lowercase hex digits each.
#[verifier::external_body]
fn sha256_hex(data: &Vec<u8>) -> (r: String)
    ensures
        r@ == sha256_hex_of(data@),
        r@.len() == 64,
{
    format!("{:x}", <sha2::Sha256 as sha2::Digest>::digest(data))
}

/// The character with any ASCII uppercase letter folded to lowercase.
pub open spec fn lower_char(c: char) -> char {
    if 65 <= c as u32 && c as u32 <= 90 {
        (((c as u8) + 32) as u8) as char
    } else {
        c
    }
}

/// The sequence with every ASCII uppercase letter folded to lowercase.
pub open spec fn lower_seq(s: Seq<char>) -> Seq<char> {
    s.map_values(|c: char| lower_char(c))
}

/// The algorithm a name designates, matched case-insensitively; `None` for
/// any other name.
pub open spec fn spec_checksum_of_name(s: Seq<char>) -> Option<Checksum> {
    if lower_seq(s) == "md5"@ {
        Some(Checksum::Md5)
    } else if lower_seq(s) == "crc32"@ {
        Some(Checksum::Crc32)
    } else if lower_seq(s) == "crc32c"@ {
        Some(Checksum::Crc32c)
    } else if lower_seq(s) == "sha1"@ {
        Some(Checksum::Sha1)
    } else if lower_seq(s) == "sha2"@ {
        Some(Checksum::Sha2)
    } else {
        None
    }
}

/// Whether two characters are equal once uppercase is folded away.
fn lower_eq(a: char, b: char) -> (r: bool)
    ensures
        r == (lower_char(a) == lower_char(b)),
{
    let au = a as u32;
    let bu = b as u32;
    let al = if au >= 65 && au <= 90 {
        au + 32
    } else {
        au
    };
    let bl = if bu >= 65 && bu <= 90 {
        bu + 32
    } else {
        bu
    };
    proof {
        assert(al == lower_char(a) as u32);
        assert(bl == lower_char(b) as u32);
    }
    al == bl
}

/// Whether `s` equals `t` up to ASCII case folding.
fn eq_ignore_case(s: &str, t: &str) -> (r: bool)
    ensures
        r == (lower_seq(s@) == lower_seq(t@)),
{
    let sl = s.unicode_len();
    let tl = t.unicode_len();
    if sl != tl {
        proof {
            assert(lower_seq(s@).len() != lower_seq(t@).len());
        }
        return false;
    }
    let mut i: usize = 0;
    while i < sl
        invariant
            i <= sl,
            sl == s@.len(),
            sl == t@.len(),
            forall|j: int| 0 <= j < i ==> lower_seq(s@)[j] == lower_seq(t@)[j],
        decreases sl - i,
    {
        let a = s.get_char(i);
        let b = t.get_char(i);
        if !lower_eq(a, b) {
            proof {
                assert(lower_seq(s@)[i as int] != lower_seq(t@)[i as int]);
            }
            return false;
        }
        i += 1;
    }
    proof {
        assert(lower_seq(s@) =~= lower_seq(t@));
    }
    true
}

impl Checksum {
    /// Parses an algorithm name, case-insensitively.
    pub fn from_name(s: &str) -> (r: Option<Checksum>)
        ensures
            r == spec_checksum_of_name(s@),
    {
        proof {
            reveal_strlit("md5");
            reveal_strlit("crc32");
            reveal_strlit("crc32c");
            reveal_strlit("sha1");
            reveal_strlit("sha2");
            lemma_lower_fixed("md5"@);
            lemma_lower_fixed("crc32"@);
            lemma_lower_fixed("crc32c"@);
            lemma_lower_fixed("sha1"@);
            lemma_lower_fixed("sha2"@);
        }
        if eq_ignore_case(s, "md5") {
            Some(Checksum::Md5)
        } else if eq_ignore_case(s, "crc32") {
            Some(Checksum::Crc32)
        } else if eq_ignore_case(s, "crc32c") {
            Some(Checksum::Crc32c)
        } else if eq_ignore_case(s, "sha1") {
            Some(Checksum::Sha1)
        } else if eq_ignore_case(s, "sha2") {
            Some(Checksum::Sha2)
        } else {
            None
        }
    }

    /// The digest of the given bytes, as lowercase hex: a fixed 32, 40 or
    /// 64 digits for the cryptographic digests, up to 8 for the CRCs.
    pub fn apply(&self, data: &Vec<u8>) -> (r: String)
        ensures
            r@ == digest_hex_of(*self, data@),
            1 <= r@.len() <= 64,
            *self is Md5 ==> r@.len() == 32,
            *self is Sha1 ==> r@.len() == 40,
            *self is Sha2 ==> r@.len() == 64,
            (*self is Crc32 || *self is Crc32c) ==> r@.len() <= 8,
    {
        match self {
            Checksum::Md5 => md5_hex(data),
            Checksum::Crc32 => crc32_hex(data),
            Checksum::Crc32c => crc32c_hex(data),
            Checksum::Sha1 => sha1_hex(data),
            Checksum::Sha2 => sha256_hex(data),
        }
    }

    /// The request header that carries this algorithm's digest.
    pub open spec fn spec_header_name(&self) -> Seq<char> {
        match *self {
            Checksum::Md5 => "Content-MD5"@,
            Checksum::Crc32 => "x-amz-checksum-crc32"@,
            Checksum::Crc32c => "x-amz-checksum-crc32c"@,
            Checksum::Sha1 => "x-amz-checksum-sha1"@,
            Checksum::Sha2 => "x-amz-checksum-sha256"@,
        }
    }

    /// The request header that carries this algorithm's digest.
    pub fn header_name(&self) -> (r: &'static str)
        ensures
            r@ == self.spec_header_name(),
    {
        match self {
            Checksum::Md5 => "Content-MD5",
            Checksum::Crc32 => "x-amz-checksum-crc32",
            Checksum::Crc32c => "x-amz-checksum-crc32c",
            Checksum::Sha1 => "x-amz-checksum-sha1",
            Checksum::Sha2 => "x-amz-checksum-sha256",
        }
    }
}

/// A sequence without ASCII uppercase letters is unchanged by folding.
proof fn lemma_lower_fixed(s: Seq<char>)
    requires
        forall|j: int| 0 <= j < s.len() ==> !(65 <= #[trigger] s[j] as u32 && s[j] as u32 <= 90),
    ensures
        lower_seq(s) == s,
{
    assert(lower_seq(s) =~= s);
}

} // verus!
