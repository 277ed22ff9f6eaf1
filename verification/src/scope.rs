//! Scopes are paths over the execution tree; this module holds the prefix
//! rule (`beneath`) and the order of scopes.
use vstd::prelude::*;

verus! {

broadcast use vstd::string::axiom_spec_iter;

/// The characters of a string, in order.
pub fn chars_of(s: &str) -> (out: Vec<char>)
    ensures
        out@ == s@,
{
    let mut out: Vec<char> = Vec::new();
    for c in it: s.chars()
        invariant
            out@ == it.seq().take(it.index() as int),
    {
        out.push(c);
        assert(out@ =~= it.seq().take(it.index() + 1));
    }
    assert(out@ =~= s@);
    out
}

/// A scope with every trailing `/` removed.
pub open spec fn trim_slashes(s: Seq<char>) -> Seq<char>
    decreases s.len(),
{
    if s.len() > 0 && s.last() == '/' {
        trim_slashes(s.drop_last())
    } else {
        s
    }
}

/// Whether `candidate` is `scope` or sits beneath it in the tree. The rule is
/// by path segments, not by characters: after trailing slashes are removed
/// from `scope`, `candidate` either equals it or continues it with a `/`.
pub open spec fn beneath(candidate: Seq<char>, scope: Seq<char>) -> bool {
    let t = trim_slashes(scope);
    ||| candidate == t
    ||| t.len() < candidate.len() && candidate.take(t.len() as int) == t && candidate[t.len() as int] == '/'
}

/// Lexicographic order on characters by code point, which is the order of
/// Rust's `str` comparison (UTF-8 preserves code point order byte for byte).
pub open spec fn lex_lt(a: Seq<char>, b: Seq<char>) -> bool
    decreases a.len(),
{
    if b.len() == 0 {
        false
    } else if a.len() == 0 {
        true
    } else if a[0] != b[0] {
        (a[0] as int) < (b[0] as int)
    } else {
        lex_lt(a.drop_first(), b.drop_first())
    }
}

pub proof fn lemma_trim_is_prefix(s: Seq<char>)
    ensures
        trim_slashes(s).len() <= s.len(),
        trim_slashes(s) == s.take(trim_slashes(s).len() as int),
        trim_slashes(s).len() == 0 || trim_slashes(s).last() != '/',
        forall|i: int| trim_slashes(s).len() <= i < s.len() ==> #[trigger] s[i] == '/',
    decreases s.len(),
{
    if s.len() > 0 && s.last() == '/' {
        lemma_trim_is_prefix(s.drop_last());
        assert forall|i: int| trim_slashes(s).len() <= i < s.len() implies #[trigger] s[i] == '/' by {
            if i < s.len() - 1 {
                assert(s[i] == s.drop_last()[i]);
            }
        }
        assert(s.drop_last().take(trim_slashes(s).len() as int) =~= s.take(trim_slashes(s).len() as int));
    } else {
        assert(s.take(s.len() as int) =~= s);
    }
}

pub proof fn lemma_lex_irreflexive(a: Seq<char>)
    ensures
        !lex_lt(a, a),
    decreases a.len(),
{
    if a.len() > 0 {
        lemma_lex_irreflexive(a.drop_first());
    }
}

pub proof fn lemma_lex_asymmetric(a: Seq<char>, b: Seq<char>)
    ensures
        lex_lt(a, b) ==> !lex_lt(b, a),
    decreases a.len(),
{
    if a.len() > 0 && b.len() > 0 && a[0] == b[0] {
        lemma_lex_asymmetric(a.drop_first(), b.drop_first());
    }
}

pub proof fn lemma_lex_transitive(a: Seq<char>, b: Seq<char>, c: Seq<char>)
    requires
        lex_lt(a, b),
        lex_lt(b, c),
    ensures
        lex_lt(a, c),
    decreases a.len(),
{
    if a.len() > 0 && b.len() > 0 && c.len() > 0 && a[0] == b[0] && b[0] == c[0] {
        lemma_lex_transitive(a.drop_first(), b.drop_first(), c.drop_first());
    }
}

pub proof fn lemma_lex_total(a: Seq<char>, b: Seq<char>)
    ensures
        a != b ==> lex_lt(a, b) || lex_lt(b, a),
    decreases a.len(),
{
    if a.len() > 0 && b.len() > 0 && a[0] == b[0] {
        lemma_lex_total(a.drop_first(), b.drop_first());
        if a.drop_first() == b.drop_first() {
            assert(a =~= b) by {
                assert forall|i: int| 0 <= i < a.len() implies a[i] == b[i] by {
                    if i > 0 {
                        assert(a[i] == a.drop_first()[i - 1]);
                        assert(b[i] == b.drop_first()[i - 1]);
                    }
                }
            }
        }
    } else if a.len() == 0 && b.len() == 0 {
        assert(a =~= b);
    }
}

/// Trimming never cuts into a prefix that does not end in a slash.
pub proof fn lemma_trim_keeps(s: Seq<char>, n: int)
    requires
        0 <= n <= s.len(),
        n == 0 || s[n - 1] != '/',
    ensures
        trim_slashes(s).len() >= n,
    decreases s.len(),
{
    if s.len() > 0 && s.last() == '/' && n > 0 {
        assert(n < s.len());
        assert(s.drop_last()[n - 1] == s[n - 1]);
        lemma_trim_keeps(s.drop_last(), n);
    }
}

/// Every scope is at or beneath itself.
pub proof fn law_beneath_reflexive(scope: Seq<char>)
    ensures
        beneath(scope, scope),
{
    lemma_trim_is_prefix(scope);
    let t = trim_slashes(scope);
    if t.len() < scope.len() {
        assert(scope[t.len() as int] == '/');
    } else {
        assert(scope.take(scope.len() as int) =~= scope);
    }
}

/// What sits beneath a scope sits beneath every ancestor of that scope: a
/// record at `xmip:///edge-01/transport/ftp` is beneath
/// `xmip:///edge-01/transport` and so beneath `xmip:///edge-01`.
pub proof fn law_beneath_transitive(a: Seq<char>, b: Seq<char>, c: Seq<char>)
    requires
        beneath(a, b),
        beneath(b, c),
    ensures
        beneath(a, c),
{
    let tc = trim_slashes(c);
    let tb = trim_slashes(b);
    lemma_trim_is_prefix(c);
    lemma_trim_is_prefix(b);
    if b == tc {
        assert(trim_slashes(tc) == tc);
    } else {
        assert(b.take(tc.len() as int) == tc);
        if tc.len() > 0 {
            assert(b[tc.len() - 1] == tc[tc.len() - 1]);
        }
        lemma_trim_keeps(b, tc.len() as int);
        if tb.len() == tc.len() {
            assert(tb =~= tc);
        } else {
            assert(tb.take(tc.len() as int) =~= tc);
            assert(tb[tc.len() as int] == b[tc.len() as int]);
            if a == tb {
                assert(a.take(tc.len() as int) =~= tc);
            } else {
                assert(a.take(tc.len() as int) =~= tb.take(tc.len() as int));
                assert(a[tc.len() as int] == a.take(tb.len() as int)[tc.len() as int]);
            }
        }
    }
}

/// A prefix of characters is not a prefix of path segments: a name that
/// continues a scope (one not ending in `/`) with anything but a `/` is not
/// beneath it, so `xmip:///ab` is not beneath `xmip:///a`.
pub proof fn law_character_extension_is_not_beneath(scope: Seq<char>, more: Seq<char>)
    requires
        scope.len() > 0,
        scope.last() != '/',
        more.len() > 0,
        more[0] != '/',
    ensures
        !beneath(scope + more, scope),
{
    assert(trim_slashes(scope) == scope);
    assert((scope + more)[scope.len() as int] == more[0]);
    assert((scope + more).len() != scope.len());
}

/// The length of `s` once trailing slashes are removed.
fn trimmed_len(s: &Vec<char>) -> (n: usize)
    ensures
        n <= s@.len(),
        trim_slashes(s@) == s@.take(n as int),
{
    let mut n: usize = s.len();
    assert(s@.take(n as int) =~= s@);
    while n > 0 && s[n - 1] == '/'
        invariant
            n <= s@.len(),
            trim_slashes(s@) == trim_slashes(s@.take(n as int)),
        decreases n,
    {
        assert(s@.take(n as int).drop_last() =~= s@.take(n - 1));
        n = n - 1;
    }
    n
}

/// Whether the first `n` characters of `a` and `b` agree.
pub fn same_prefix(a: &Vec<char>, b: &Vec<char>, n: usize) -> (same: bool)
    requires
        n <= a@.len(),
        n <= b@.len(),
    ensures
        same == (a@.take(n as int) == b@.take(n as int)),
{
    let mut i: usize = 0;
    while i < n
        invariant
            i <= n,
            n <= a@.len(),
            n <= b@.len(),
            a@.take(i as int) == b@.take(i as int),
        decreases n - i,
    {
        if a[i] != b[i] {
            assert(a@.take(n as int)[i as int] != b@.take(n as int)[i as int]);
            return false;
        }
        assert(a@.take(i + 1) =~= a@.take(i as int).push(a@[i as int]));
        assert(b@.take(i + 1) =~= b@.take(i as int).push(b@[i as int]));
        i = i + 1;
    }
    true
}

/// Whether `candidate` is `scope` or sits beneath it in the tree. A prefix of
/// characters is not a prefix of path segments: `xmip:///ab` is not beneath
/// `xmip:///a`.
pub fn is_beneath(candidate: &str, scope: &str) -> (result: bool)
    ensures
        result == beneath(candidate@, scope@),
{
    let c = chars_of(candidate);
    let s = chars_of(scope);
    let n = trimmed_len(&s);
    proof {
        lemma_trim_is_prefix(s@);
    }
    if c.len() == n {
        let same = same_prefix(&c, &s, n);
        proof {
            assert(c@.take(n as int) =~= c@);
        }
        same
    } else if c.len() > n {
        if same_prefix(&c, &s, n) {
            c[n] == '/'
        } else {
            false
        }
    } else {
        false
    }
}

/// Whether `a` comes before `b` in the order of scopes.
pub fn scope_less(a: &str, b: &str) -> (less: bool)
    ensures
        less == lex_lt(a@, b@),
{
    let x = chars_of(a);
    let y = chars_of(b);
    let mut i: usize = 0;
    assert(x@.skip(0) =~= x@);
    assert(y@.skip(0) =~= y@);
    while i < x.len() && i < y.len() && x[i] == y[i]
        invariant
            i <= x@.len(),
            i <= y@.len(),
            lex_lt(x@, y@) == lex_lt(x@.skip(i as int), y@.skip(i as int)),
        decreases x@.len() - i,
    {
        assert(x@.skip(i as int).drop_first() =~= x@.skip(i + 1));
        assert(y@.skip(i as int).drop_first() =~= y@.skip(i + 1));
        i = i + 1;
    }
    if i == y.len() {
        false
    } else if i == x.len() {
        true
    } else {
        assert(x@.skip(i as int)[0] == x@[i as int]);
        assert(y@.skip(i as int)[0] == y@[i as int]);
        x[i] < y[i]
    }
}

/// Whether two strings hold the same characters.
pub fn same_text(a: &str, b: &str) -> (same: bool)
    ensures
        same == (a@ == b@),
{
    let x = chars_of(a);
    let y = chars_of(b);
    if x.len() != y.len() {
        return false;
    }
    let same = same_prefix(&x, &y, x.len());
    proof {
        assert(x@.take(x@.len() as int) =~= x@);
        assert(y@.take(y@.len() as int) =~= y@);
    }
    same
}

} // verus!
