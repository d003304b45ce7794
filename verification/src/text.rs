//! Verbatim text substitution.
//!
//! The message tables substitute placeholders and the sanitizers escape
//! markup; both come down to one operation, replacing every occurrence of a
//! pattern, scanning left to right without overlap, the way `str::replace`
//! reads.

use vstd::prelude::*;

use crate::utils::push_char;

verus! {

/// `s` with every occurrence of `pat` replaced by `repl`, scanning left to
/// right without overlap, as `str::replace` does.
pub open spec fn replace_all(s: Seq<char>, pat: Seq<char>, repl: Seq<char>) -> Seq<char>
    decreases s.len(),
    when pat.len() > 0
{
    if s.len() < pat.len() {
        s
    } else if s.take(pat.len() as int) == pat {
        repl + replace_all(s.skip(pat.len() as int), pat, repl)
    } else {
        seq![s[0]] + replace_all(s.drop_first(), pat, repl)
    }
}

/// Whether `pat` occurs in `s` starting at character `i`.
pub(crate) fn match_at(s: &str, pat: &str, i: usize, n: usize, m: usize) -> (b: bool)
    requires
        n == s@.len(),
        m == pat@.len(),
        i <= n,
        m <= n - i,
    ensures
        b == (s@.subrange(i as int, i + m) == pat@),
{
    let mut j: usize = 0;
    while j < m
        invariant
            n == s@.len(),
            m == pat@.len(),
            i <= n,
            m <= n - i,
            j <= m,
            forall|x: int| 0 <= x < j ==> s@[i + x] == pat@[x],
        decreases m - j,
    {
        if s.get_char(i + j) != pat.get_char(j) {
            proof {
                assert(s@.subrange(i as int, i + m)[j as int] == s@[i + j]);
            }
            return false;
        }
        j += 1;
    }
    proof {
        assert(s@.subrange(i as int, i + m) =~= pat@);
    }
    true
}

/// `s` with every occurrence of `pat` replaced by `repl`, scanning left to
/// right without overlap.
pub fn replace_all_exec(s: &str, pat: &str, repl: &str) -> (r: String)
    requires
        pat@.len() > 0,
    ensures
        r@ == replace_all(s@, pat@, repl@),
{
    let n = s.unicode_len();
    let m = pat.unicode_len();
    let mut r = String::new();
    let mut i: usize = 0;
    proof {
        assert(s@.skip(0) =~= s@);
        assert(r@ + replace_all(s@.skip(0), pat@, repl@) =~= replace_all(s@, pat@, repl@));
    }
    while i < n
        invariant
            n == s@.len(),
            m == pat@.len(),
            m > 0,
            i <= n,
            replace_all(s@, pat@, repl@) == r@ + replace_all(s@.skip(i as int), pat@, repl@),
        decreases n - i,
    {
        let ghost tail = s@.skip(i as int);
        proof {
            assert(tail.len() == n - i);
        }
        if m <= n - i && match_at(s, pat, i, n, m) {
            proof {
                assert(tail.take(m as int) =~= s@.subrange(i as int, i + m));
                assert(tail.skip(m as int) =~= s@.skip(i + m));
                assert(replace_all(tail, pat@, repl@) == repl@ + replace_all(
                    s@.skip(i + m),
                    pat@,
                    repl@,
                ));
            }
            let ghost rpre = r@;
            r.append(repl);
            proof {
                assert(rpre + (repl@ + replace_all(s@.skip(i + m), pat@, repl@)) =~= r@
                    + replace_all(s@.skip(i + m), pat@, repl@));
            }
            i += m;
        } else {
            proof {
                if m <= n - i {
                    assert(tail.take(m as int) =~= s@.subrange(i as int, i + m));
                    assert(tail.take(m as int) != pat@);
                } else {
                    assert(tail.len() < m);
                }
                assert(tail.drop_first() =~= s@.skip(i as int + 1));
                assert(tail[0] == s@[i as int]);
                assert(replace_all(tail, pat@, repl@) == seq![s@[i as int]] + replace_all(
                    s@.skip(i as int + 1),
                    pat@,
                    repl@,
                ));
            }
            let c = s.get_char(i);
            let ghost rpre = r@;
            push_char(&mut r, c);
            proof {
                assert(rpre + (seq![s@[i as int]] + replace_all(s@.skip(i as int + 1), pat@, repl@))
                    =~= r@ + replace_all(s@.skip(i as int + 1), pat@, repl@));
            }
            i += 1;
        }
    }
    proof {
        assert(s@.skip(n as int) =~= Seq::<char>::empty());
        assert(replace_all(s@.skip(n as int), pat@, repl@) == s@.skip(n as int));
        assert(r@ + Seq::<char>::empty() =~= r@);
        assert(s@.skip(0) =~= s@);
    }
    r
}

/// Whether `s` begins with `prefix`.
pub fn starts_with_text(s: &str, prefix: &str) -> (b: bool)
    ensures
        b == (prefix@.len() <= s@.len() && s@.take(prefix@.len() as int) == prefix@),
{
    let n = s.unicode_len();
    let m = prefix.unicode_len();
    if m > n {
        return false;
    }
    let r = match_at(s, prefix, 0, n, m);
    proof {
        assert(s@.subrange(0, m as int) == s@.take(m as int));
    }
    r
}

} // verus!
