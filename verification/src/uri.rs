//! Deterministic URI generation for the S3 workload: an arbitrary-radix
//! folder counter and the provider that walks object names under it.

use crate::duration_format::{dec_str, u128_to_string};
use vstd::arithmetic::div_mod::{
    lemma_add_mod_noop, lemma_fundamental_div_mod, lemma_fundamental_div_mod_converse,
    lemma_mod_self_0, lemma_small_mod,
};
use vstd::arithmetic::power::pow;
use vstd::prelude::*;
use vstd::string::StringExecFns;

verus! {

/// The number represented by a big-endian digit sequence in base `radix`.
pub open spec fn radix_val(digits: Seq<usize>, radix: usize) -> int
    decreases digits.len(),
{
    if digits.len() == 0 {
        0
    } else {
        radix_val(digits.drop_last(), radix) * radix as int + digits.last() as int
    }
}

/// A counter of `digits.len()` digits, each in `[0, radix)`, incremented
/// from the least-significant (rightmost) digit with carry.
#[derive(Clone)]
pub struct ArbitraryRadixNumber {
    pub digits: Vec<usize>,
    pub radix: usize,
}

impl ArbitraryRadixNumber {
    /// Every digit is a valid digit of the radix.
    pub open spec fn wf(&self) -> bool {
        &&& self.radix >= 1
        &&& forall|i: int| 0 <= i < self.digits@.len() ==> #[trigger] self.digits@[i] < self.radix
    }

    pub open spec fn spec_digits(&self) -> Seq<usize> {
        self.digits@
    }

    pub open spec fn spec_radix(&self) -> usize {
        self.radix
    }

    /// The value this counter currently represents.
    pub open spec fn value(&self) -> int {
        radix_val(self.digits@, self.radix)
    }

    pub fn new(num_digits: usize, radix: usize) -> (r: Self)
        requires
            radix >= 1,
        ensures
            r.wf(),
            r.spec_radix() == radix,
            r.spec_digits() =~= Seq::new(num_digits as nat, |i: int| 0usize),
            r.value() == 0,
    {
        let mut digits: Vec<usize> = Vec::new();
        let mut i: usize = 0;
        while i < num_digits
            invariant
                i <= num_digits,
                digits@ =~= Seq::new(i as nat, |j: int| 0usize),
            decreases num_digits - i,
        {
            digits.push(0);
            i += 1;
        }
        let r = ArbitraryRadixNumber { digits, radix };
        proof {
            lemma_radix_val_zero(r.digits@, radix);
        }
        r
    }

    /// Adds one to the counter, wrapping modulo `radix ^ digits.len()`.
    pub fn increment(&mut self)
        requires
            old(self).wf(),
            old(self).spec_digits().len() >= 1,
        ensures
            final(self).wf(),
            final(self).spec_radix() == old(self).spec_radix(),
            final(self).spec_digits().len() == old(self).spec_digits().len(),
            final(self).value() == (old(self).value() + 1) % pow(
                old(self).spec_radix() as int,
                old(self).spec_digits().len() as nat,
            ),
    {
        let ghost orig = self.digits@;
        let ghost r = self.radix as int;
        let ghost len = self.digits@.len() as int;
        let mut i: usize = self.digits.len() - 1;
        proof {
            lemma_radix_val_bound(orig, self.radix);
            vstd::arithmetic::power::lemma_pow0(r);
            assert((len - 1 - i) as nat == 0);
        }
        loop
            invariant_except_break
                0 <= i < len,
                forall|j: int| 0 <= j <= i ==> self.digits@[j] == orig[j],
                radix_val(self.digits@, self.radix) + pow(r, (len - 1 - i) as nat) == radix_val(
                    orig,
                    self.radix,
                ) + 1,
                radix_val(orig, self.radix) < pow(r, len as nat),
            invariant
                self.radix >= 1,
                r == self.radix as int,
                self.digits@.len() == len,
                forall|j: int| 0 <= j < len ==> #[trigger] self.digits@[j] < self.radix,
            ensures
                radix_val(self.digits@, self.radix) == (radix_val(orig, self.radix) + 1) % pow(
                    r,
                    len as nat,
                ),
            decreases i,
        {
            let ghost before = self.digits@;
            let ghost p = pow(r, (len - 1 - i) as nat);
            let di = self.digits[i];
            let nd = (di + 1) % self.radix;
            self.digits.set(i, nd);
            proof {
                lemma_radix_val_update(before, self.radix, i as int, nd);
            }
            if nd == 0 && i != 0 {
                proof {
                    // The digit wrapped: di + 1 == r, so the carry moves the
                    // pending unit one position up.
                    assert(di + 1 == r) by {
                        if di + 1 < r {
                            lemma_small_mod((di + 1) as nat, self.radix as nat);
                        }
                    };
                    lemma_pow_succ(r, (len - 1 - i) as nat);
                    assert(pow(r, (len - 1 - (i - 1)) as nat) == r * p) by {
                        assert((len - 1 - (i - 1)) as nat == ((len - 1 - i) as nat) + 1);
                    };
                    assert(radix_val(self.digits@, self.radix) + r * p == radix_val(orig, self.radix)
                        + 1) by {
                        assert(radix_val(self.digits@, self.radix) == radix_val(before, self.radix)
                            + (0 - di) * p);
                        assert((0 - di) * p == p - r * p) by (nonlinear_arith)
                            requires di + 1 == r;
                    };
                }
                i -= 1;
            } else if nd == 0 {
                proof {
                    // Every digit wrapped: the counter returns to zero, which
                    // is exactly (value + 1) modulo radix ^ len.
                    assert(di + 1 == r) by {
                        if di + 1 < r {
                            lemma_small_mod((di + 1) as nat, self.radix as nat);
                        }
                    };
                    let m = pow(r, len as nat);
                    lemma_pow_succ(r, (len - 1) as nat);
                    assert(m == r * pow(r, (len - 1) as nat)) by {
                        assert(len as nat == ((len - 1) as nat) + 1);
                    };
                    assert(r * pow(r, (len - 1) as nat) == r * p) by {
                        assert((len - 1) as nat == (len - 1 - i) as nat);
                    };
                    assert(radix_val(self.digits@, self.radix) == radix_val(orig, self.radix) + 1
                        - m) by {
                        assert(radix_val(self.digits@, self.radix) == radix_val(before, self.radix)
                            + (0 - di) * p);
                        assert((0 - di) * p == p - r * p) by (nonlinear_arith)
                            requires di + 1 == r;
                    };

                    lemma_radix_val_nonneg(self.digits@, self.radix);
                    assert(radix_val(orig, self.radix) + 1 == m);
                    vstd::arithmetic::power::lemma_pow_positive(r, len as nat);
                    lemma_mod_self_0(m);
                    assert(radix_val(self.digits@, self.radix) == 0);
                }
                break ;
            } else {
                proof {
                    // No carry: the value went up by exactly one and stays
                    // below radix ^ len.
                    assert(nd == di + 1) by {
                        if di + 1 == self.radix {
                            lemma_mod_self_0(r);
                        } else {
                            lemma_small_mod((di + 1) as nat, self.radix as nat);
                        }
                    };
                    assert(radix_val(self.digits@, self.radix) == radix_val(orig, self.radix) + 1)
                        by {
                        assert(radix_val(self.digits@, self.radix) == radix_val(before, self.radix)
                            + 1 * p);
                    };
                    lemma_radix_val_bound(self.digits@, self.radix);
                    lemma_radix_val_nonneg(orig, self.radix);
                    vstd::arithmetic::power::lemma_pow_positive(r, len as nat);
                    lemma_small_mod(
                        (radix_val(orig, self.radix) + 1) as nat,
                        pow(r, len as nat) as nat,
                    );
                }
                break ;
            }
        }
    }

    pub fn to_digits(&self) -> (r: Vec<usize>)
        ensures
            r@ =~= self.spec_digits(),
    {
        let mut out: Vec<usize> = Vec::new();
        let mut i: usize = 0;
        while i < self.digits.len()
            invariant
                i <= self.digits@.len(),
                out@ =~= self.digits@.take(i as int),
            decreases self.digits@.len() - i,
        {
            out.push(self.digits[i]);
            i += 1;
        }
        out
    }
}

/// An all-zero digit sequence represents zero.
proof fn lemma_radix_val_zero(digits: Seq<usize>, radix: usize)
    requires
        forall|i: int| 0 <= i < digits.len() ==> #[trigger] digits[i] == 0,
    ensures
        radix_val(digits, radix) == 0,
    decreases digits.len(),
{
    if digits.len() > 0 {
        lemma_radix_val_zero(digits.drop_last(), radix);
    }
}

/// The represented value is never negative.
proof fn lemma_radix_val_nonneg(digits: Seq<usize>, radix: usize)
    ensures
        radix_val(digits, radix) >= 0,
    decreases digits.len(),
{
    if digits.len() > 0 {
        lemma_radix_val_nonneg(digits.drop_last(), radix);
        assert(radix_val(digits.drop_last(), radix) * radix as int >= 0) by (nonlinear_arith)
            requires
                radix_val(digits.drop_last(), radix) >= 0,
                radix as int >= 0,
        ;
    }
}

/// A well-formed digit sequence represents a value below `radix ^ len`.
proof fn lemma_radix_val_bound(digits: Seq<usize>, radix: usize)
    requires
        radix >= 1,
        forall|i: int| 0 <= i < digits.len() ==> #[trigger] digits[i] < radix,
    ensures
        0 <= radix_val(digits, radix) < pow(radix as int, digits.len()),
    decreases digits.len(),
{
    let r = radix as int;
    if digits.len() == 0 {
        vstd::arithmetic::power::lemma_pow0(r);
    } else {
        let prefix = digits.drop_last();
        lemma_radix_val_bound(prefix, radix);
        assert(forall|i: int| 0 <= i < prefix.len() ==> #[trigger] prefix[i] < radix);
        lemma_pow_succ(r, prefix.len());
        assert(pow(r, digits.len()) == r * pow(r, prefix.len()));
        assert(radix_val(prefix, radix) * r + digits.last() < r * pow(r, prefix.len()))
            by (nonlinear_arith)
            requires
                radix_val(prefix, radix) <= pow(r, prefix.len()) - 1,
                radix_val(prefix, radix) >= 0,
                digits.last() < r,
                r >= 1,
        ;
        assert(radix_val(prefix, radix) * r >= 0) by (nonlinear_arith)
            requires
                radix_val(prefix, radix) >= 0,
                r >= 1,
        ;
    }
}

/// Replacing digit `i` changes the value by the digit delta scaled by the
/// weight of position `i`.
proof fn lemma_radix_val_update(digits: Seq<usize>, radix: usize, i: int, d: usize)
    requires
        0 <= i < digits.len(),
    ensures
        radix_val(digits.update(i, d), radix) == radix_val(digits, radix) + (d as int
            - digits[i] as int) * pow(radix as int, (digits.len() - 1 - i) as nat),
    decreases digits.len(),
{
    let r = radix as int;
    let upd = digits.update(i, d);
    if i == digits.len() - 1 {
        assert(upd.drop_last() =~= digits.drop_last());
        vstd::arithmetic::power::lemma_pow0(r);
    } else {
        assert(upd.drop_last() =~= digits.drop_last().update(i, d));
        lemma_radix_val_update(digits.drop_last(), radix, i, d);
        let p = pow(r, (digits.len() - 2 - i) as nat);
        lemma_pow_succ(r, (digits.len() - 2 - i) as nat);
        assert(pow(r, (digits.len() - 1 - i) as nat) == r * p) by {
            assert((digits.len() - 1 - i) as nat == ((digits.len() - 2 - i) as nat) + 1);
        };
        assert(upd.last() == digits.last());
        assert((radix_val(digits.drop_last(), radix) + (d as int - digits[i] as int) * p) * r
            == radix_val(digits.drop_last(), radix) * r + (d as int - digits[i] as int) * (r * p))
            by (nonlinear_arith);
    }
}

/// The folder prefix `"d0/d1/.../"` built from the digit sequence.
pub open spec fn dir_prefix_str(digits: Seq<usize>) -> Seq<char>
    decreases digits.len(),
{
    if digits.len() == 0 {
        Seq::empty()
    } else {
        dir_prefix_str(digits.drop_last()) + dec_str(digits.last() as int) + "/"@
    }
}

/// The URI the provider emits from a given state:
/// `"{base}/{bucket}/{d0/d1/.../}{obj_prefix}{obj_cnt}"`.
pub open spec fn uri_str_of(
    base: Seq<char>,
    bucket: Seq<char>,
    obj_prefix: Seq<char>,
    digits: Seq<usize>,
    obj_cnt: usize,
) -> Seq<char> {
    base + "/"@ + bucket + "/"@ + dir_prefix_str(digits) + obj_prefix + dec_str(obj_cnt as int)
}

/// Yields target URIs with a controllable folder depth and fan-out: after
/// `num_objs_per_prefix` objects under one folder prefix the radix counter
/// advances to the next prefix.
#[derive(Clone)]
pub struct UriProvider {
    pub base: String,
    pub bucket: String,
    pub obj_prefix: String,
    pub num_objs_per_prefix: usize,
    pub obj_cnt: usize,
    pub radix_num: Option<ArbitraryRadixNumber>,
    /// How many URIs have been emitted so far.
    pub steps: Ghost<nat>,
}

impl UriProvider {
    /// The current folder digits; empty when the depth is zero.
    pub open spec fn digits_seq(&self) -> Seq<usize> {
        match self.radix_num {
            Some(n) => n.digits@,
            None => Seq::empty(),
        }
    }

    /// State invariant: after `steps` emitted URIs the object counter is
    /// `steps % num_objs_per_prefix` and the folder counter holds the
    /// base-`radix` representation of `steps / num_objs_per_prefix`,
    /// modulo `radix ^ depth`.
    pub open spec fn wf(&self) -> bool {
        &&& self.num_objs_per_prefix >= 1
        &&& self.obj_cnt == self.steps@ as int % self.num_objs_per_prefix as int
        &&& match self.radix_num {
            Some(n) => {
                &&& n.wf()
                &&& n.digits@.len() >= 1
                &&& n.value() == (self.steps@ as int / self.num_objs_per_prefix as int) % pow(
                    n.radix as int,
                    n.digits@.len(),
                )
            },
            None => true,
        }
    }

    pub fn new(
        uri_base: String,
        bucket: String,
        obj_prefix: String,
        depth: usize,
        num_objs: usize,
        num_branch_per_depth: usize,
    ) -> (r: Self)
        requires
            num_objs >= 1,
            depth > 0 ==> num_branch_per_depth >= 1,
        ensures
            r.wf(),
            r.base@ == uri_base@,
            r.bucket@ == bucket@,
            r.obj_prefix@ == obj_prefix@,
            r.num_objs_per_prefix == num_objs,
            r.obj_cnt == 0,
            r.steps@ == 0,
            r.digits_seq() =~= Seq::new(depth as nat, |i: int| 0usize),
            r.radix_num is Some <==> depth > 0,
            depth > 0 ==> r.radix_num->0.radix == num_branch_per_depth,
    {
        let radix_num = if depth > 0 {
            Some(ArbitraryRadixNumber::new(depth, num_branch_per_depth))
        } else {
            None
        };
        let r = UriProvider {
            base: uri_base,
            bucket,
            obj_prefix,
            num_objs_per_prefix: num_objs,
            obj_cnt: 0,
            radix_num,
            steps: Ghost(0),
        };
        proof {
            if depth > 0 {
                vstd::arithmetic::power::lemma_pow_positive(
                    num_branch_per_depth as int,
                    depth as nat,
                );
                lemma_small_mod(0, pow(num_branch_per_depth as int, depth as nat) as nat);
            }
            lemma_small_mod(0, num_objs as nat);
        }
        r
    }

    /// Emits the URI for the current state, then advances: the object
    /// counter wraps modulo `num_objs_per_prefix`, and exactly on a wrap
    /// the folder counter increments.
    pub fn next(&mut self) -> (r: String)
        requires
            old(self).wf(),
        ensures
            final(self).wf(),
            r@ == uri_str_of(
                old(self).base@,
                old(self).bucket@,
                old(self).obj_prefix@,
                old(self).digits_seq(),
                old(self).obj_cnt,
            ),
            final(self).steps@ == old(self).steps@ + 1,
            final(self).base@ == old(self).base@,
            final(self).bucket@ == old(self).bucket@,
            final(self).obj_prefix@ == old(self).obj_prefix@,
            final(self).num_objs_per_prefix == old(self).num_objs_per_prefix,
            final(self).digits_seq().len() == old(self).digits_seq().len(),
            final(self).radix_num is Some <==> old(self).radix_num is Some,
            old(self).radix_num is Some ==> final(self).radix_num->0.radix == old(
                self,
            ).radix_num->0.radix,
    {
        let ghost k = self.steps@ as int;
        let ghost n_objs = self.num_objs_per_prefix as int;

        let mut s = self.base.clone();
        proof {
            reveal_strlit("/");
        }
        s.append("/");
        s.append(self.bucket.as_str());
        s.append("/");
        if let Some(num) = &self.radix_num {
            let ghost head = s@;
            let mut j: usize = 0;
            while j < num.digits.len()
                invariant
                    j <= num.digits@.len(),
                    s@ == head + dir_prefix_str(num.digits@.take(j as int)),
                decreases num.digits@.len() - j,
            {
                let d = num.digits[j];
                let ds = u128_to_string(d as u128);
                s.append(ds.as_str());
                proof {
                    reveal_strlit("/");
                }
                s.append("/");
                proof {
                    assert(num.digits@.take(j as int + 1).drop_last() =~= num.digits@.take(
                        j as int,
                    ));
                    assert(num.digits@.take(j as int + 1).last() == num.digits@[j as int]);
                }
                j += 1;
            }
            proof {
                assert(num.digits@.take(num.digits@.len() as int) =~= num.digits@);
            }
        }
        s.append(self.obj_prefix.as_str());
        let cnt_str = u128_to_string(self.obj_cnt as u128);
        s.append(cnt_str.as_str());
        proof {
            assert(s@ =~= uri_str_of(
                self.base@,
                self.bucket@,
                self.obj_prefix@,
                self.digits_seq(),
                self.obj_cnt,
            ));
        }

        self.obj_cnt = (self.obj_cnt + 1) % self.num_objs_per_prefix;
        proof {
            lemma_fundamental_div_mod(k, n_objs);
            if k % n_objs + 1 < n_objs {
                lemma_fundamental_div_mod_converse(k + 1, n_objs, k / n_objs, k % n_objs + 1);
                lemma_small_mod((k % n_objs + 1) as nat, n_objs as nat);
            } else {
                assert(k + 1 == (k / n_objs + 1) * n_objs + 0) by (nonlinear_arith)
                    requires
                        k == n_objs * (k / n_objs) + k % n_objs,
                        k % n_objs + 1 == n_objs,
                ;
                lemma_fundamental_div_mod_converse(k + 1, n_objs, k / n_objs + 1, 0);
                lemma_mod_self_0(n_objs);
            }
        }
        if self.obj_cnt == 0 {
            if let Some(num) = &mut self.radix_num {
                let ghost rad = num.radix as int;
                let ghost d_len = num.digits@.len();
                num.increment();
                proof {
                    vstd::arithmetic::power::lemma_pow_positive(rad, d_len);
                    lemma_add_mod_noop(k / n_objs, 1, pow(rad, d_len));
                    if pow(rad, d_len) == 1 {
                        lemma_mod_self_0(1);
                    } else {
                        lemma_small_mod(1, pow(rad, d_len) as nat);
                    }
                }
            }
        }
        proof {
            self.steps@ = self.steps@ + 1nat;
        }
        s
    }
}

/// At global step `steps`, the URI a well-formed provider emits carries
/// object counter `steps mod num_objs_per_prefix`, and its folder digits
/// represent `(steps / num_objs_per_prefix) mod radix ^ depth`.
pub proof fn lemma_uri_provider_position(p: UriProvider)
    requires
        p.wf(),
    ensures
        p.obj_cnt == p.steps@ as int % p.num_objs_per_prefix as int,
        p.radix_num matches Some(n) ==> radix_val(n.digits@, n.radix) == (p.steps@ as int
            / p.num_objs_per_prefix as int) % pow(n.radix as int, n.digits@.len()),
{
}

/// One unfolding of `pow`.
proof fn lemma_pow_succ(b: int, e: nat)
    ensures
        pow(b, e + 1) == b * pow(b, e),
{
    reveal(pow);
}

} // verus!
