//! The `LIKE` pattern language: `%` matches any run of code points,
//! `_` matches exactly one, every other character matches itself.
//! Regular-expression metacharacters have no special meaning.

use vstd::prelude::*;
use crate::text::chars_vec;

verus! {

/// Whether `t` matches pattern `p`.
pub open spec fn like_spec(t: Seq<char>, p: Seq<char>) -> bool
    decreases t.len() + p.len(),
{
    if p.len() == 0 {
        t.len() == 0
    } else if p[0] == '%' {
        like_spec(t, p.drop_first()) || (t.len() > 0 && like_spec(t.drop_first(), p))
    } else if p[0] == '_' {
        t.len() > 0 && like_spec(t.drop_first(), p.drop_first())
    } else {
        t.len() > 0 && t[0] == p[0] && like_spec(t.drop_first(), p.drop_first())
    }
}

fn like_rec(t: &Vec<char>, p: &Vec<char>, ti: usize, pi: usize) -> (b: bool)
    requires
        ti <= t@.len(),
        pi <= p@.len(),
    ensures
        b == like_spec(t@.skip(ti as int), p@.skip(pi as int)),
    decreases t@.len() - ti + p@.len() - pi,
{
    let ghost ts = t@.skip(ti as int);
    let ghost ps = p@.skip(pi as int);
    if pi == p.len() {
        proof {
            assert(ps =~= Seq::<char>::empty());
        }
        ti == t.len()
    } else {
        let c = p[pi];
        proof {
            assert(ps[0] == p@[pi as int]);
            assert(ps.drop_first() =~= p@.skip(pi as int + 1));
            if ti < t@.len() {
                assert(ts[0] == t@[ti as int]);
                assert(ts.drop_first() =~= t@.skip(ti as int + 1));
            }
        }
        if c == '%' {
            if like_rec(t, p, ti, pi + 1) {
                true
            } else if ti < t.len() {
                like_rec(t, p, ti + 1, pi)
            } else {
                false
            }
        } else if c == '_' {
            if ti < t.len() {
                like_rec(t, p, ti + 1, pi + 1)
            } else {
                false
            }
        } else {
            if ti < t.len() {
                let tc = t[ti];
                if tc == c {
                    like_rec(t, p, ti + 1, pi + 1)
                } else {
                    false
                }
            } else {
                false
            }
        }
    }
}

/// Whether `text` matches the `LIKE` pattern `pattern`.
pub fn like_match(text: &str, pattern: &str) -> (b: bool)
    ensures
        b == like_spec(text@, pattern@),
{
    let t = chars_vec(text);
    let p = chars_vec(pattern);
    proof {
        assert(t@.skip(0) =~= text@);
        assert(p@.skip(0) =~= pattern@);
    }
    like_rec(&t, &p, 0, 0)
}

} // verus!
