//! Character-level string helpers: trimming, searching and extension tests,
//! each proved against a sequence-level specification.

use vstd::prelude::*;
use vstd::string::*;

verus! {

/// A character the config-line parser treats as blank space.
pub open spec fn is_space_char(c: char) -> bool {
    c == ' ' || c == '\t' || c == '\r' || c == '\n'
}

/// The sequence with every leading blank removed.
pub open spec fn trim_start_chars(s: Seq<char>) -> Seq<char>
    decreases s.len(),
{
    if s.len() > 0 && is_space_char(s[0]) {
        trim_start_chars(s.drop_first())
    } else {
        s
    }
}

/// The sequence with every trailing blank removed.
pub open spec fn trim_end_chars(s: Seq<char>) -> Seq<char>
    decreases s.len(),
{
    if s.len() > 0 && is_space_char(s.last()) {
        trim_end_chars(s.drop_last())
    } else {
        s
    }
}

/// The sequence with blanks removed from both ends.
pub open spec fn trim_chars(s: Seq<char>) -> Seq<char> {
    trim_end_chars(trim_start_chars(s))
}

/// How many times `c` occurs in `s`.
pub open spec fn count_char(s: Seq<char>, c: char) -> nat
    decreases s.len(),
{
    if s.len() == 0 {
        0
    } else {
        count_char(s.drop_last(), c) + (if s.last() == c {
            1nat
        } else {
            0nat
        })
    }
}

/// Index of the first occurrence of `c` in `s`, or -1 when `c` is absent.
pub open spec fn first_index_of(s: Seq<char>, c: char) -> int
    decreases s.len(),
{
    if s.len() == 0 {
        -1
    } else if s[0] == c {
        0
    } else {
        let r = first_index_of(s.drop_first(), c);
        if r < 0 {
            -1
        } else {
            r + 1
        }
    }
}

/// Index of the last occurrence of `c` in `s`, or -1 when `c` is absent.
pub open spec fn last_index_of(s: Seq<char>, c: char) -> int
    decreases s.len(),
{
    if s.len() == 0 {
        -1
    } else if s.last() == c {
        s.len() - 1
    } else {
        last_index_of(s.drop_last(), c)
    }
}

/// The part of a path after its last separator; the whole path when it has none.
pub open spec fn file_name_chars(s: Seq<char>) -> Seq<char> {
    s.skip(last_index_of(s, '/') + 1)
}

/// The extension of a path: what follows the last dot of its file name,
/// absent when the file name has no dot or only a leading one.
pub open spec fn extension_chars(s: Seq<char>) -> Option<Seq<char>> {
    let f = file_name_chars(s);
    let d = last_index_of(f, '.');
    if d > 0 {
        Some(f.skip(d + 1))
    } else {
        None
    }
}

/// Whether a path names a source file of the primary language extension.
pub open spec fn is_fab_path(s: Seq<char>) -> bool {
    extension_chars(s) == Some("fab"@)
}

/// Whether `c` counts as blank space.
pub fn is_blank(c: char) -> (r: bool)
    ensures
        r == is_space_char(c),
{
    c == ' ' || c == '\t' || c == '\r' || c == '\n'
}

/// Whether two string slices hold the same characters.
pub fn str_eq(a: &str, b: &str) -> (r: bool)
    ensures
        r == (a@ == b@),
{
    let an: usize = a.unicode_len();
    let bn: usize = b.unicode_len();
    if an != bn {
        return false;
    }
    let mut i: usize = 0;
    while i < an
        invariant
            an == a@.len(),
            an == b@.len(),
            i <= an,
            forall|k: int| 0 <= k < i ==> a@[k] == b@[k],
        decreases an - i,
    {
        if a.get_char(i) != b.get_char(i) {
            return false;
        }
        i += 1;
    }
    proof {
        assert(a@ =~= b@);
    }
    true
}

/// The slice with leading and trailing blanks removed.
pub fn trim(s: &str) -> (r: &str)
    ensures
        r@ == trim_chars(s@),
{
    let n: usize = s.unicode_len();
    proof {
        assert(s@.skip(0) =~= s@);
    }
    let mut i: usize = 0;
    while i < n && is_blank(s.get_char(i))
        invariant
            n == s@.len(),
            i <= n,
            trim_start_chars(s@) == trim_start_chars(s@.skip(i as int)),
        decreases n - i,
    {
        proof {
            assert(s@.skip(i as int).drop_first() =~= s@.skip(i as int + 1));
        }
        i += 1;
    }
    proof {
        assert(trim_start_chars(s@) == s@.skip(i as int));
        assert(s@.skip(i as int) =~= s@.subrange(i as int, n as int));
    }
    let mut j: usize = n;
    while j > i && is_blank(s.get_char(j - 1))
        invariant
            n == s@.len(),
            i <= j <= n,
            trim_end_chars(s@.subrange(i as int, n as int)) == trim_end_chars(
                s@.subrange(i as int, j as int),
            ),
        decreases j,
    {
        proof {
            assert(s@.subrange(i as int, j as int).drop_last() =~= s@.subrange(
                i as int,
                j as int - 1,
            ));
        }
        j -= 1;
    }
    let r = s.substring_char(i, j);
    proof {
        assert(trim_end_chars(s@.subrange(i as int, j as int)) == s@.subrange(i as int, j as int));
    }
    r
}

/// Whether `p` begins with the characters of `pre`.
pub fn starts_with_chars(p: &str, pre: &str) -> (r: bool)
    ensures
        r == (p@.len() >= pre@.len() && p@.take(pre@.len() as int) == pre@),
{
    let n: usize = p.unicode_len();
    let m: usize = pre.unicode_len();
    if n < m {
        return false;
    }
    let mut i: usize = 0;
    while i < m
        invariant
            n == p@.len(),
            m == pre@.len(),
            m <= n,
            i <= m,
            forall|k: int| 0 <= k < i ==> p@[k] == pre@[k],
        decreases m - i,
    {
        if p.get_char(i) != pre.get_char(i) {
            proof {
                assert(p@.take(m as int)[i as int] == p@[i as int]);
            }
            return false;
        }
        i += 1;
    }
    proof {
        assert(p@.take(m as int) =~= pre@);
    }
    true
}

/// Index of the last occurrence of `c` in `s`, when there is one.
pub fn rfind_char(s: &str, c: char) -> (r: Option<usize>)
    ensures
        match r {
            Some(k) => last_index_of(s@, c) == k as int && (k as int) < s@.len(),
            None => last_index_of(s@, c) == -1,
        },
{
    let n: usize = s.unicode_len();
    proof {
        assert(s@.take(n as int) =~= s@);
    }
    let mut j: usize = n;
    while j > 0
        invariant
            n == s@.len(),
            j <= n,
            last_index_of(s@, c) == last_index_of(s@.take(j as int), c),
        decreases j,
    {
        let ch = s.get_char(j - 1);
        proof {
            assert(s@.take(j as int).last() == s@[j as int - 1]);
            assert(s@.take(j as int).drop_last() =~= s@.take(j as int - 1));
        }
        if ch == c {
            return Some(j - 1);
        }
        j -= 1;
    }
    None
}

/// Whether `path` names a file of the primary language extension.
pub fn has_fab_extension(path: &str) -> (r: bool)
    ensures
        r == is_fab_path(path@),
{
    let n: usize = path.unicode_len();
    let start: usize = match rfind_char(path, '/') {
        Some(k) => k + 1,
        None => 0,
    };
    let name = path.substring_char(start, n);
    proof {
        assert(name@ =~= file_name_chars(path@));
    }
    let m: usize = name.unicode_len();
    match rfind_char(name, '.') {
        Some(d) => {
            if d > 0 {
                let ext = name.substring_char(d + 1, m);
                proof {
                    assert(ext@ =~= extension_chars(path@)->Some_0);
                }
                str_eq(ext, "fab")
            } else {
                false
            }
        },
        None => false,
    }
}

} // verus!
