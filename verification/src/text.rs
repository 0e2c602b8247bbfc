//! Plain-text primitives: substring search, splitting on a separator,
//! and trimming, each specified over the character sequences that the
//! strings view to.

use vstd::prelude::*;

verus! {

/// `pat` occurs in `s` starting at index `i`.
pub open spec fn matches_at(s: Seq<char>, pat: Seq<char>, i: int) -> bool {
    0 <= i && i + pat.len() <= s.len() && s.subrange(i, i + pat.len()) == pat
}

/// `pat` occurs somewhere in `s`. The empty pattern occurs in every string.
pub open spec fn has_substring(s: Seq<char>, pat: Seq<char>) -> bool {
    exists|i: int| matches_at(s, pat, i)
}

/// Index of the leftmost occurrence of `pat` in `s`, or `s.len()` when
/// there is none (meaningful for non-empty `pat`).
pub open spec fn first_match(s: Seq<char>, pat: Seq<char>) -> int
    decreases s.len(),
{
    if matches_at(s, pat, 0) {
        0
    } else if s.len() == 0 {
        0
    } else {
        1 + first_match(s.subrange(1, s.len() as int), pat)
    }
}

/// For a non-empty pattern, `first_match` is the least index at which the
/// pattern occurs, and equals `s.len()` exactly when it occurs nowhere.
pub proof fn lemma_first_match(s: Seq<char>, pat: Seq<char>)
    requires
        pat.len() >= 1,
    ensures
        0 <= first_match(s, pat) <= s.len(),
        first_match(s, pat) < s.len() ==> matches_at(s, pat, first_match(s, pat)),
        forall|j: int| 0 <= j < first_match(s, pat) ==> !matches_at(s, pat, j),
        first_match(s, pat) == s.len() ==> !has_substring(s, pat),
    decreases s.len(),
{
    if matches_at(s, pat, 0) {
    } else if s.len() == 0 {
        assert forall|i: int| !matches_at(s, pat, i) by {
            if 0 <= i && i + pat.len() <= s.len() {
                assert(pat.len() == 0);
            }
        }
    } else {
        let t = s.subrange(1, s.len() as int);
        lemma_first_match(t, pat);
        let fm = first_match(s, pat);
        assert(fm == 1 + first_match(t, pat));
        assert forall|j: int| 1 <= j && j + pat.len() <= s.len() implies matches_at(
            s,
            pat,
            j,
        ) == matches_at(t, pat, j - 1) by {
            assert(s.subrange(j, j + pat.len()) =~= t.subrange(j - 1, j - 1 + pat.len()));
        }
        if fm < s.len() {
            assert(matches_at(t, pat, fm - 1));
            assert(matches_at(s, pat, fm));
        }
        assert forall|j: int| 0 <= j < fm implies !matches_at(s, pat, j) by {
            if j >= 1 && matches_at(s, pat, j) {
                assert(matches_at(t, pat, j - 1));
            }
        }
        if fm == s.len() {
            assert forall|j: int| !matches_at(s, pat, j) by {
                if 1 <= j && j + pat.len() <= s.len() && matches_at(s, pat, j) {
                    assert(matches_at(t, pat, j - 1));
                }
            }
        }
    }
}

/// `s` split on every occurrence of `sep`, scanning left to right; the
/// separators themselves are not part of any piece. A string without the
/// separator is one piece; splitting never yields an empty sequence.
pub open spec fn split_on(s: Seq<char>, sep: Seq<char>) -> Seq<Seq<char>>
    decreases s.len(),
    via split_on_decreases
{
    if sep.len() == 0 {
        seq![s]
    } else {
        let i = first_match(s, sep);
        if i == s.len() {
            seq![s]
        } else {
            seq![s.subrange(0, i)] + split_on(s.subrange(i + sep.len(), s.len() as int), sep)
        }
    }
}

#[via_fn]
proof fn split_on_decreases(s: Seq<char>, sep: Seq<char>) {
    if sep.len() != 0 {
        lemma_first_match(s, sep);
    }
}

/// Splitting always yields at least one piece.
pub proof fn lemma_split_on_nonempty(s: Seq<char>, sep: Seq<char>)
    ensures
        split_on(s, sep).len() >= 1,
{
}

/// How many times the character `c` occurs in `s`.
pub open spec fn count_char(s: Seq<char>, c: char) -> int
    decreases s.len(),
{
    if s.len() == 0 {
        0
    } else {
        (if s[0] == c {
            1int
        } else {
            0int
        }) + count_char(s.subrange(1, s.len() as int), c)
    }
}

/// A character count is non-negative, and zero exactly when the character
/// occurs nowhere.
pub proof fn lemma_count_char_zero(s: Seq<char>, c: char)
    ensures
        count_char(s, c) >= 0,
        count_char(s, c) == 0 <==> (forall|i: int| 0 <= i < s.len() ==> s[i] != c),
    decreases s.len(),
{
    if s.len() > 0 {
        let t = s.subrange(1, s.len() as int);
        lemma_count_char_zero(t, c);
        if count_char(s, c) == 0 {
            assert forall|i: int| 0 <= i < s.len() implies s[i] != c by {
                if i >= 1 {
                    assert(t[i - 1] == s[i]);
                }
            }
        }
        if forall|i: int| 0 <= i < s.len() ==> s[i] != c {
            assert forall|i: int| 0 <= i < t.len() implies t[i] != c by {
                assert(t[i] == s[i + 1]);
            }
        }
    }
}

/// Character counts add up over concatenation.
pub proof fn lemma_count_char_concat(a: Seq<char>, b: Seq<char>, c: char)
    ensures
        count_char(a + b, c) == count_char(a, c) + count_char(b, c),
    decreases a.len(),
{
    if a.len() == 0 {
        assert(a + b =~= b);
    } else {
        let ta = a.subrange(1, a.len() as int);
        lemma_count_char_concat(ta, b, c);
        assert((a + b).subrange(1, (a + b).len() as int) =~= ta + b);
        assert((a + b)[0] == a[0]);
    }
}

/// A single character occurs as a substring exactly where it occurs as an
/// element.
pub proof fn lemma_single_char_occurrence(s: Seq<char>, c: char)
    ensures
        has_substring(s, seq![c]) <==> (exists|i: int| 0 <= i < s.len() && s[i] == c),
{
    let sep = seq![c];
    if has_substring(s, sep) {
        let i = choose|i: int| matches_at(s, sep, i);
        assert(s.subrange(i, i + 1)[0] == s[i]);
        assert(s[i] == c);
    }
    if exists|i: int| 0 <= i < s.len() && s[i] == c {
        let i = choose|i: int| 0 <= i < s.len() && s[i] == c;
        assert(s.subrange(i, i + 1) =~= sep);
        assert(matches_at(s, sep, i));
    }
}

/// Splitting on a single-character separator yields one more piece than
/// the separator occurs times.
pub proof fn lemma_split_on_count(s: Seq<char>, c: char)
    ensures
        split_on(s, seq![c]).len() == count_char(s, c) + 1,
    decreases s.len(),
{
    let sep = seq![c];
    lemma_first_match(s, sep);
    let fm = first_match(s, sep);
    if fm == s.len() {
        assert forall|i: int| 0 <= i < s.len() implies s[i] != c by {
            if s[i] == c {
                assert(s.subrange(i, i + 1) =~= sep);
                assert(matches_at(s, sep, i));
            }
        }
        lemma_count_char_zero(s, c);
    } else {
        let pre = s.subrange(0, fm);
        let rest = s.subrange(fm + 1, s.len() as int);
        lemma_split_on_count(rest, c);
        assert(s.subrange(fm, fm + 1)[0] == s[fm]);
        assert(s[fm] == c);
        assert(s =~= pre + sep + rest);
        lemma_count_char_concat(pre + sep, rest, c);
        lemma_count_char_concat(pre, sep, c);
        assert(count_char(sep, c) == 1) by {
            assert(sep.subrange(1, 1) =~= Seq::<char>::empty());
            assert(count_char(Seq::<char>::empty(), c) == 0);
        }
        assert forall|i: int| 0 <= i < pre.len() implies pre[i] != c by {
            if pre[i] == c {
                assert(s[i] == c);
                assert(s.subrange(i, i + 1) =~= sep);
                assert(matches_at(s, sep, i));
            }
        }
        lemma_count_char_zero(pre, c);
        assert(count_char(s, c) == count_char(pre + sep + rest, c));
    }
}

/// `s` with every leading occurrence of the character `c` removed.
pub open spec fn strip_leading(s: Seq<char>, c: char) -> Seq<char>
    decreases s.len(),
{
    if s.len() > 0 && s[0] == c {
        strip_leading(s.subrange(1, s.len() as int), c)
    } else {
        s
    }
}

/// The character sequences that a sequence of string slices views to.
pub open spec fn views_of(parts: Seq<&str>) -> Seq<Seq<char>> {
    parts.map_values(|p: &str| p@)
}

/// Whether `pat` occurs in `s` at index `i`, by direct comparison.
fn match_at(s: &str, pat: &str, i: usize) -> (r: bool)
    requires
        i + pat@.len() <= s@.len(),
        s@.len() <= usize::MAX,
    ensures
        r == matches_at(s@, pat@, i as int),
{
    let m = pat.unicode_len();
    let mut j: usize = 0;
    while j < m
        invariant
            j <= m,
            m == pat@.len(),
            i + m <= s@.len(),
            s@.len() <= usize::MAX,
            forall|k: int| 0 <= k < j ==> s@[i + k] == pat@[k],
        decreases m - j,
    {
        if s.get_char(i + j) != pat.get_char(j) {
            proof {
                assert(s@.subrange(i as int, i + pat@.len())[j as int] != pat@[j as int]);
            }
            return false;
        }
        j += 1;
    }
    proof {
        assert(s@.subrange(i as int, i + pat@.len()) =~= pat@);
    }
    true
}

/// Whether `pat` occurs anywhere in `s`, by a left-to-right scan.
pub fn contains_str(s: &str, pat: &str) -> (r: bool)
    ensures
        r == has_substring(s@, pat@),
{
    let n = s.unicode_len();
    let m = pat.unicode_len();
    if m > n {
        proof {
            assert forall|i: int| !matches_at(s@, pat@, i) by {}
        }
        return false;
    }
    if m == 0 {
        proof {
            assert(s@.subrange(0, 0) =~= pat@);
            assert(matches_at(s@, pat@, 0));
        }
        return true;
    }
    let mut i: usize = 0;
    while i <= n - m
        invariant
            m <= n,
            m >= 1,
            n == s@.len(),
            m == pat@.len(),
            i <= n - m + 1,
            forall|j: int| 0 <= j < i ==> !matches_at(s@, pat@, j),
        decreases n - m - i + 1,
    {
        if match_at(s, pat, i) {
            assert(matches_at(s@, pat@, i as int));
            return true;
        }
        i += 1;
    }
    proof {
        assert forall|j: int| !matches_at(s@, pat@, j) by {}
    }
    false
}

/// Index of the leftmost occurrence of `pat` in `s`, or the length of `s`
/// when it occurs nowhere.
pub fn find_first(s: &str, pat: &str) -> (r: usize)
    requires
        pat@.len() >= 1,
    ensures
        r as int == first_match(s@, pat@),
        r <= s@.len(),
{
    proof {
        lemma_first_match(s@, pat@);
    }
    let n = s.unicode_len();
    let m = pat.unicode_len();
    if m > n {
        proof {
            assert forall|i: int| !matches_at(s@, pat@, i) by {}
            assert(first_match(s@, pat@) == s@.len());
        }
        return n;
    }
    let mut i: usize = 0;
    while i <= n - m
        invariant
            m <= n,
            m >= 1,
            n == s@.len(),
            m == pat@.len(),
            i <= n - m + 1,
            forall|j: int| 0 <= j < i ==> !matches_at(s@, pat@, j),
        decreases n - m - i + 1,
    {
        if match_at(s, pat, i) {
            proof {
                lemma_first_match(s@, pat@);
                let fm = first_match(s@, pat@);
                assert(matches_at(s@, pat@, i as int));
                if fm < i {
                    assert(matches_at(s@, pat@, fm));
                    assert(false);
                }
                if fm > i {
                    assert(!matches_at(s@, pat@, i as int));
                    assert(false);
                }
            }
            return i;
        }
        i += 1;
    }
    proof {
        lemma_first_match(s@, pat@);
        let fm = first_match(s@, pat@);
        if fm < s@.len() {
            assert(matches_at(s@, pat@, fm));
            assert(false);
        }
    }
    n
}

/// `s` split on every occurrence of `sep`, as borrowed slices of `s`.
pub fn split_str<'a>(s: &'a str, sep: &str) -> (parts: Vec<&'a str>)
    requires
        sep@.len() >= 1,
    ensures
        views_of(parts@) == split_on(s@, sep@),
        parts@.len() >= 1,
    decreases s@.len(),
{
    proof {
        lemma_first_match(s@, sep@);
    }
    let n = s.unicode_len();
    let i = find_first(s, sep);
    if i == n {
        let mut parts: Vec<&'a str> = Vec::new();
        parts.push(s);
        proof {
            assert(views_of(parts@) =~= seq![s@]);
        }
        parts
    } else {
        let m = sep.unicode_len();
        let piece = s.substring_char(0, i);
        let rest = s.substring_char(i + m, n);
        let mut parts: Vec<&'a str> = Vec::new();
        parts.push(piece);
        let mut tail = split_str(rest, sep);
        let ghost tail_snap = tail@;
        parts.append(&mut tail);
        proof {
            assert(views_of(parts@) =~= seq![piece@] + views_of(tail_snap));
        }
        parts
    }
}

/// The text before and after the leftmost occurrence of `sep` in `s`, or
/// nothing when `sep` does not occur in `s`.
pub fn split_at_first<'a>(s: &'a str, sep: &str) -> (r: Option<(&'a str, &'a str)>)
    requires
        sep@.len() >= 1,
    ensures
        match r {
            Some(pair) => has_substring(s@, sep@) && pair.0@ == s@.subrange(
                0,
                first_match(s@, sep@),
            ) && pair.1@ == s@.subrange(first_match(s@, sep@) + sep@.len(), s@.len() as int),
            None => !has_substring(s@, sep@),
        },
{
    proof {
        lemma_first_match(s@, sep@);
    }
    let n = s.unicode_len();
    let m = sep.unicode_len();
    let i = find_first(s, sep);
    if i == n {
        None
    } else {
        proof {
            assert(matches_at(s@, sep@, i as int));
        }
        let before = s.substring_char(0, i);
        let after = s.substring_char(i + m, n);
        Some((before, after))
    }
}

/// Whether two strings hold the same characters.
pub fn str_eq(a: &str, b: &str) -> (r: bool)
    ensures
        r == (a@ == b@),
{
    let n = a.unicode_len();
    let m = b.unicode_len();
    if n != m {
        return false;
    }
    let mut i: usize = 0;
    while i < n
        invariant
            i <= n,
            n == a@.len(),
            n == b@.len(),
            forall|k: int| 0 <= k < i ==> a@[k] == b@[k],
        decreases n - i,
    {
        if a.get_char(i) != b.get_char(i) {
            return false;
        }
        i += 1;
    }
    proof {
        assert(a@ =~= b@);
    }
    true
}

/// `s` with every leading occurrence of the character `c` removed, as a
/// borrowed slice of `s`.
pub fn trim_leading<'a>(s: &'a str, c: char) -> (r: &'a str)
    ensures
        r@ == strip_leading(s@, c),
{
    let n = s.unicode_len();
    proof {
        assert(s@.subrange(0, n as int) =~= s@);
    }
    let mut i: usize = 0;
    while i < n && s.get_char(i) == c
        invariant
            i <= n,
            n == s@.len(),
            strip_leading(s@, c) == strip_leading(s@.subrange(i as int, n as int), c),
        decreases n - i,
    {
        proof {
            let t = s@.subrange(i as int, n as int);
            assert(t.subrange(1, t.len() as int) =~= s@.subrange(i + 1, n as int));
        }
        i += 1;
    }
    let r = s.substring_char(i, n);
    proof {
        let t = s@.subrange(i as int, n as int);
        if i < n {
            assert(t[0] == s@[i as int]);
        }
        assert(strip_leading(t, c) == t);
    }
    r
}

} // verus!
