//! Run configuration: the engine argument bundles, the output format, and
//! the small parsers the command line hands its raw strings to.

use crate::checksum::Checksum;
use crate::traffic::TrafficPattern;
use vstd::prelude::*;
use vstd::string::StrSliceExecFns;

verus! {

/// How the final summary is rendered.
#[derive(Clone, Copy)]
pub enum FormatType {
    Pretty,
    Json,
}

/// Arguments of the simple engine: one request shape, repeated.
pub struct SimpleArgs {
    pub method: String,
    pub headers: Vec<(String, String)>,
    pub body: Option<String>,
    pub body_from_file: Option<String>,
}

/// Arguments of the S3 engine.
pub struct S3Args {
    pub bucket: String,
    pub object_size: usize,
    pub obj_prefix: String,
    pub traffic_pattern: TrafficPattern,
    pub prefix_folder_depth: usize,
    pub num_objs_per_prefix_folder: usize,
    pub num_branches_per_folder_depth: usize,
    pub checksum_algorithm: Option<Checksum>,
}

/// Which engine a run drives, with its arguments.
pub enum Engine {
    Simple(SimpleArgs),
    S3(S3Args),
}

/// Whether the character is a decimal digit.
pub open spec fn is_digit_char(c: char) -> bool {
    48 <= c as u32 <= 57
}

/// The number a string of decimal digits denotes.
pub open spec fn digits_val(s: Seq<char>) -> int
    decreases s.len(),
{
    if s.len() == 0 {
        0
    } else {
        digits_val(s.drop_last()) * 10 + (s.last() as u32 - 48)
    }
}

/// Parses a whole number of seconds: `Some` exactly for a non-empty
/// all-digit string whose value fits, and then the denoted value.
pub fn parse_duration(arg: &str) -> (r: Option<u64>)
    ensures
        match r {
            Some(v) => {
                &&& arg@.len() > 0
                &&& forall|j: int| 0 <= j < arg@.len() ==> is_digit_char(#[trigger] arg@[j])
                &&& v == digits_val(arg@)
            },
            None => arg@.len() == 0 || (exists|j: int|
                0 <= j < arg@.len() && !is_digit_char(#[trigger] arg@[j])) || digits_val(arg@)
                > u64::MAX,
        },
{
    let n = arg.unicode_len();
    if n == 0 {
        return None;
    }
    let mut acc: u64 = 0;
    let mut i: usize = 0;
    while i < n
        invariant
            n == arg@.len(),
            i <= n,
            forall|j: int| 0 <= j < i ==> is_digit_char(#[trigger] arg@[j]),
            acc == digits_val(arg@.take(i as int)),
        decreases n - i,
    {
        let c = arg.get_char(i);
        let cu = c as u32;
        if cu < 48 || cu > 57 {
            return None;
        }
        let d = (cu - 48) as u64;
        proof {
            assert(arg@.take(i as int + 1).drop_last() =~= arg@.take(i as int));
            assert(arg@.take(i as int + 1).last() == arg@[i as int]);
        }
        if acc > (u64::MAX - d) / 10 {
            proof {
                lemma_digits_val_nonneg(arg@.take(i as int));
                assert(acc as int * 10 + d > u64::MAX) by (nonlinear_arith)
                    requires
                        acc as int > (u64::MAX - d) as int / 10,
                        0 <= d < 10,
                ;
                if forall|j: int| 0 <= j < arg@.len() ==> is_digit_char(#[trigger] arg@[j]) {
                    lemma_digits_val_monotone(arg@, i as int + 1);
                    assert(arg@.take(arg@.len() as int) =~= arg@);
                }
            }
            return None;
        }
        acc = acc * 10 + d;
        i += 1;
    }
    proof {
        assert(arg@.take(n as int) =~= arg@);
    }
    Some(acc)
}

/// A digit string denotes a non-negative number.
proof fn lemma_digits_val_nonneg(s: Seq<char>)
    requires
        forall|j: int| 0 <= j < s.len() ==> is_digit_char(#[trigger] s[j]),
    ensures
        digits_val(s) >= 0,
    decreases s.len(),
{
    if s.len() > 0 {
        lemma_digits_val_nonneg(s.drop_last());
        assert(digits_val(s.drop_last()) * 10 >= 0) by (nonlinear_arith)
            requires
                digits_val(s.drop_last()) >= 0,
        ;
    }
}

/// Appending digits never shrinks the denoted number.
proof fn lemma_digits_val_monotone(s: Seq<char>, k: int)
    requires
        0 <= k <= s.len(),
        forall|j: int| 0 <= j < s.len() ==> is_digit_char(#[trigger] s[j]),
    ensures
        digits_val(s) >= digits_val(s.take(k)),
    decreases s.len() - k,
{
    if k == s.len() {
        assert(s.take(k) =~= s);
    } else {
        assert(s.take(k + 1).drop_last() =~= s.take(k));
        assert(s.take(k + 1).last() == s[k]);
        lemma_digits_val_nonneg(s.take(k));
        assert(digits_val(s.take(k)) * 10 >= digits_val(s.take(k))) by (nonlinear_arith)
            requires
                digits_val(s.take(k)) >= 0,
        ;
        lemma_digits_val_monotone(s, k + 1);
    }
}

/// Splits `key=value` at the first `=`: `Some` exactly when the string
/// holds one, with the text before it and the text after it.
pub fn parse_key_val(s: &str) -> (r: Option<(String, String)>)
    ensures
        match r {
            Some(kv) => exists|i: int|
                {
                    &&& 0 <= i < s@.len()
                    &&& #[trigger] s@[i] == '='
                    &&& (forall|j: int| 0 <= j < i ==> s@[j] != '=')
                    &&& kv.0@ == s@.take(i)
                    &&& kv.1@ == s@.skip(i + 1)
                },
            None => forall|j: int| 0 <= j < s@.len() ==> s@[j] != '=',
        },
{
    let n = s.unicode_len();
    let mut i: usize = 0;
    while i < n
        invariant
            n == s@.len(),
            i <= n,
            forall|j: int| 0 <= j < i ==> s@[j] != '=',
        decreases n - i,
    {
        let c = s.get_char(i);
        if c == '=' {
            let key = s.substring_char(0, i);
            let val = s.substring_char(i + 1, n);
            proof {
                assert(key@ =~= s@.take(i as int));
                assert(val@ =~= s@.skip(i as int + 1));
            }
            return Some((key.to_owned(), val.to_owned()));
        }
        i += 1;
    }
    None
}

} // verus!
