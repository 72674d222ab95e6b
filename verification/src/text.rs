//! Character-sequence utilities shared by the classifiers: splitting a string
//! into separator-delimited tokens, and prefix/suffix/substring tests, each
//! specified over the `Seq<char>` view of the string.

use vstd::prelude::*;
use vstd::string::StrSliceExecFns;
use vstd::string::StringExecFns;

verus! {

/// The separator characters that delimit tokens in discovery-tool output:
/// ASCII whitespace.
pub open spec fn whitespace_chars() -> Seq<char> {
    seq![' ', '\t', '\n', '\r', '\x0b', '\x0c']
}

/// Splits `s` at the characters in `seps`, dropping empty fields; `cur` is
/// the partial token accumulated before position `i`.
pub open spec fn split_acc(s: Seq<char>, seps: Seq<char>, i: int, cur: Seq<char>) -> Seq<Seq<char>>
    decreases s.len() - i,
{
    if i < 0 || i >= s.len() {
        if cur.len() > 0 {
            seq![cur]
        } else {
            seq![]
        }
    } else if seps.contains(s[i]) {
        if cur.len() > 0 {
            seq![cur] + split_acc(s, seps, i + 1, seq![])
        } else {
            split_acc(s, seps, i + 1, seq![])
        }
    } else {
        split_acc(s, seps, i + 1, cur.push(s[i]))
    }
}

/// The tokens of `s`, split at the characters in `seps`; empty fields are
/// dropped, so a run of separators counts as one boundary.
pub open spec fn split_by(s: Seq<char>, seps: Seq<char>) -> Seq<Seq<char>> {
    split_acc(s, seps, 0, seq![])
}

/// The whitespace-separated tokens of `s`.
pub open spec fn tokens_of(s: Seq<char>) -> Seq<Seq<char>> {
    split_by(s, whitespace_chars())
}

/// `p` occurs in `s` starting at position `i`.
pub open spec fn has_sub_at(s: Seq<char>, p: Seq<char>, i: int) -> bool {
    0 <= i && i + p.len() <= s.len() && s.subrange(i, i + p.len() as int) == p
}

/// `p` occurs somewhere in `s`.
pub open spec fn has_sub(s: Seq<char>, p: Seq<char>) -> bool {
    exists|i: int| has_sub_at(s, p, i)
}

/// `p` is a prefix of `s`.
pub open spec fn has_prefix(s: Seq<char>, p: Seq<char>) -> bool {
    p.len() <= s.len() && s.subrange(0, p.len() as int) == p
}

/// `p` is a suffix of `s`.
pub open spec fn has_suffix(s: Seq<char>, p: Seq<char>) -> bool {
    p.len() <= s.len() && s.subrange(s.len() - p.len(), s.len() as int) == p
}

/// Whether `c` is one of the characters in `seps`.
pub fn char_in(seps: &[char], c: char) -> (r: bool)
    ensures
        r == seps@.contains(c),
{
    let mut k: usize = 0;
    while k < seps.len()
        invariant
            k <= seps@.len(),
            forall|j: int| 0 <= j < k ==> seps@[j] != c,
        decreases seps@.len() - k,
    {
        if seps[k] == c {
            proof {
                assert(seps@[k as int] == c);
            }
            return true;
        }
        k += 1;
    }
    false
}

/// Splitting the suffix that begins at `k` with the accumulated token
/// `s[start..k]` yields the token `s[start..j]` followed by the split of the
/// suffix at `j`, where `j` is the token's end.
proof fn lemma_split_token(s: Seq<char>, seps: Seq<char>, start: int, k: int, j: int)
    requires
        0 <= start <= k <= j <= s.len(),
        start < j,
        forall|t: int| start <= t < j ==> !seps.contains(s[t]),
        j == s.len() || seps.contains(s[j]),
    ensures
        split_acc(s, seps, k, s.subrange(start, k)) == seq![s.subrange(start, j)] + split_acc(
            s,
            seps,
            j,
            seq![],
        ),
    decreases j - k,
{
    let cur = s.subrange(start, k);
    if k == j {
        if j == s.len() {
            assert(split_acc(s, seps, j, seq![]) =~= Seq::<Seq<char>>::empty());
            assert(split_acc(s, seps, k, cur) =~= seq![s.subrange(start, j)] + split_acc(
                s,
                seps,
                j,
                seq![],
            ));
        } else {
            assert(split_acc(s, seps, k, cur) == seq![cur] + split_acc(s, seps, k + 1, seq![]));
            assert(split_acc(s, seps, j, seq![]) == split_acc(s, seps, j + 1, seq![]));
        }
    } else {
        assert(cur.push(s[k]) =~= s.subrange(start, k + 1));
        lemma_split_token(s, seps, start, k + 1, j);
    }
}

/// Splits `s` at the characters in `seps`, dropping empty fields.
pub fn split_on(s: &str, seps: &[char]) -> (r: Vec<String>)
    ensures
        r.deep_view() == split_by(s@, seps@),
{
    let n = s.unicode_len();
    let mut parts: Vec<String> = Vec::new();
    proof {
        assert(parts.deep_view() =~= Seq::<Seq<char>>::empty());
        assert(parts.deep_view() + split_acc(s@, seps@, 0, Seq::empty()) =~= split_by(s@, seps@));
    }
    let mut i: usize = 0;
    while i < n
        invariant
            n == s@.len(),
            i <= n,
            parts.deep_view() + split_acc(s@, seps@, i as int, Seq::empty()) == split_by(s@, seps@),
        decreases n - i,
    {
        let c = s.get_char(i);
        if char_in(seps, c) {
            proof {
                assert(split_acc(s@, seps@, i as int, Seq::empty()) == split_acc(
                    s@,
                    seps@,
                    i + 1,
                    Seq::empty(),
                ));
            }
            i += 1;
        } else {
            let mut j: usize = i + 1;
            loop
                invariant
                    n == s@.len(),
                    i < j <= n,
                    forall|t: int| i <= t < j ==> !seps@.contains(s@[t]),
                    !seps@.contains(s@[i as int]),
                ensures
                    i < j <= n,
                    forall|t: int| i <= t < j ==> !seps@.contains(s@[t]),
                    j == n || seps@.contains(s@[j as int]),
                decreases n - j,
            {
                if j == n {
                    break ;
                }
                let c2 = s.get_char(j);
                if char_in(seps, c2) {
                    break ;
                }
                j += 1;
            }
            let tok = s.substring_char(i, j);
            let ghost old_dv = parts.deep_view();
            parts.push(String::from_str(tok));
            proof {
                assert(s@.subrange(i as int, i as int) =~= Seq::<char>::empty());
                lemma_split_token(s@, seps@, i as int, i as int, j as int);
                assert(parts.deep_view() =~= old_dv.push(tok@));
                assert(parts.deep_view() + split_acc(s@, seps@, j as int, Seq::empty())
                    =~= split_by(s@, seps@));
            }
            i = j;
        }
    }
    proof {
        assert(split_acc(s@, seps@, n as int, Seq::empty()) =~= Seq::<Seq<char>>::empty());
        assert(parts.deep_view() + Seq::<Seq<char>>::empty() =~= parts.deep_view());
    }
    parts
}

/// Splits `s` at ASCII whitespace, dropping empty fields.
pub fn split_tokens(s: &str) -> (r: Vec<String>)
    ensures
        r.deep_view() == tokens_of(s@),
{
    let seps: [char; 6] = [' ', '\t', '\n', '\r', '\x0b', '\x0c'];
    proof {
        assert(seps@ =~= whitespace_chars());
    }
    split_on(s, &seps)
}

/// Whether `s[off .. off + |p|]` equals `p`.
pub fn eq_range(s: &str, p: &str, off: usize) -> (r: bool)
    requires
        off + p@.len() <= s@.len(),
        s@.len() <= usize::MAX,
    ensures
        r == (s@.subrange(off as int, off + p@.len() as int) == p@),
{
    let m = p.unicode_len();
    let mut k: usize = 0;
    while k < m
        invariant
            m == p@.len(),
            off + m <= s@.len() <= usize::MAX,
            k <= m,
            forall|t: int| 0 <= t < k ==> s@[off + t] == p@[t],
        decreases m - k,
    {
        let c1 = s.get_char(off + k);
        let c2 = p.get_char(k);
        if c1 != c2 {
            proof {
                assert(s@.subrange(off as int, off + p@.len() as int)[k as int] == s@[off + k]);
            }
            return false;
        }
        k += 1;
    }
    proof {
        assert(s@.subrange(off as int, off + p@.len() as int) =~= p@);
    }
    true
}

/// Whether `p` is a prefix of `s`.
pub fn starts_with_str(s: &str, p: &str) -> (r: bool)
    ensures
        r == has_prefix(s@, p@),
{
    let n = s.unicode_len();
    let m = p.unicode_len();
    if m <= n {
        eq_range(s, p, 0)
    } else {
        false
    }
}

/// Whether `p` is a suffix of `s`.
pub fn ends_with_str(s: &str, p: &str) -> (r: bool)
    ensures
        r == has_suffix(s@, p@),
{
    let n = s.unicode_len();
    let m = p.unicode_len();
    if m <= n {
        eq_range(s, p, n - m)
    } else {
        false
    }
}

/// Whether the two strings hold the same characters.
pub fn str_eq(a: &str, b: &str) -> (r: bool)
    ensures
        r == (a@ == b@),
{
    let n = a.unicode_len();
    let m = b.unicode_len();
    if n == m {
        let r = eq_range(a, b, 0);
        proof {
            assert(a@.subrange(0, a@.len() as int) =~= a@);
        }
        r
    } else {
        false
    }
}

/// Whether `p` occurs anywhere in `s`.
pub fn contains_str(s: &str, p: &str) -> (r: bool)
    ensures
        r == has_sub(s@, p@),
{
    let n = s.unicode_len();
    let m = p.unicode_len();
    if m > n {
        proof {
            assert(forall|i: int| !has_sub_at(s@, p@, i));
        }
        return false;
    }
    if m == 0 {
        proof {
            assert(s@.subrange(0, 0) =~= p@);
            assert(has_sub_at(s@, p@, 0));
        }
        return true;
    }
    let mut i: usize = 0;
    while i < n - m + 1
        invariant
            n == s@.len(),
            m == p@.len(),
            1 <= m <= n <= usize::MAX,
            i <= n - m + 1,
            forall|t: int| 0 <= t < i ==> !has_sub_at(s@, p@, t),
        decreases n - m + 1 - i,
    {
        if eq_range(s, p, i) {
            proof {
                assert(has_sub_at(s@, p@, i as int));
            }
            return true;
        }
        i += 1;
    }
    proof {
        assert(forall|t: int| t > n - m ==> !has_sub_at(s@, p@, t));
    }
    false
}

/// The suffix of `s` that begins at character position `k`.
pub fn tail_from(s: &str, k: usize) -> (r: &str)
    requires
        k <= s@.len(),
    ensures
        r@ == s@.subrange(k as int, s@.len() as int),
{
    let n = s.unicode_len();
    s.substring_char(k, n)
}

/// The prefix of `s` that ends at character position `k`.
pub fn head_to(s: &str, k: usize) -> (r: &str)
    requires
        k <= s@.len(),
    ensures
        r@ == s@.subrange(0, k as int),
{
    s.substring_char(0, k)
}

} // verus!
