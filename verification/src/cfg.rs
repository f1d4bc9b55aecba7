//! Build-configuration reading: the `input = <value>` lines of a config
//! file, the pick among resolution candidates, and the assembly of
//! per-directory dependency entries.

use crate::text;
use vstd::prelude::*;
use vstd::string::*;

verus! {

/// What one config line yields: the value of an `input = <value>` line —
/// exactly one `=`, both sides trimmed, the key exactly `input`.
pub open spec fn parse_input_line_spec(s: Seq<char>) -> Option<Seq<char>> {
    let k = text::first_index_of(s, '=');
    if k >= 0 && text::count_char(s, '=') == 1 && text::trim_chars(s.take(k)) == "input"@ {
        Some(text::trim_chars(s.skip(k + 1)))
    } else {
        None
    }
}

/// A position before which `c` never occurs, holding `c`, is its first index.
proof fn lemma_first_index_at(s: Seq<char>, c: char, k: int)
    requires
        0 <= k < s.len(),
        s[k] == c,
        forall|t: int| 0 <= t < k ==> s[t] != c,
    ensures
        text::first_index_of(s, c) == k,
    decreases k,
{
    if s[0] != c {
        lemma_first_index_at(s.drop_first(), c, k - 1);
    }
}

/// Where `c` never occurs there is no first index.
proof fn lemma_first_index_absent(s: Seq<char>, c: char)
    requires
        forall|t: int| 0 <= t < s.len() ==> s[t] != c,
    ensures
        text::first_index_of(s, c) == -1,
    decreases s.len(),
{
    if s.len() > 0 {
        lemma_first_index_absent(s.drop_first(), c);
    }
}

/// The `input = <value>` reading of one config line, when it has that form.
pub fn parse_input_line(line: &str) -> (r: Option<String>)
    ensures
        match r {
            Some(v) => parse_input_line_spec(line@) == Some(v@),
            None => parse_input_line_spec(line@) is None,
        },
{
    let n: usize = line.unicode_len();
    let mut cnt: usize = 0;
    let mut first: Option<usize> = None;
    let mut i: usize = 0;
    proof {
        assert(line@.take(0) =~= Seq::<char>::empty());
    }
    while i < n
        invariant
            n == line@.len(),
            i <= n,
            cnt <= i,
            cnt == text::count_char(line@.take(i as int), '='),
            match first {
                Some(k) => k < i && line@[k as int] == '=' && (forall|t: int|
                    0 <= t < k ==> line@[t] != '='),
                None => forall|t: int| 0 <= t < i ==> line@[t] != '=',
            },
        decreases n - i,
    {
        let ch = line.get_char(i);
        proof {
            assert(line@.take(i as int + 1).drop_last() =~= line@.take(i as int));
            assert(line@.take(i as int + 1).last() == line@[i as int]);
        }
        if ch == '=' {
            cnt += 1;
            if first.is_none() {
                first = Some(i);
            }
        }
        i += 1;
    }
    proof {
        assert(line@.take(n as int) =~= line@);
    }
    let k = match first {
        Some(k) => k,
        None => {
            proof {
                lemma_first_index_absent(line@, '=');
            }
            return None;
        },
    };
    proof {
        lemma_first_index_at(line@, '=', k as int);
    }
    if cnt != 1 {
        return None;
    }
    let left = line.substring_char(0, k);
    proof {
        assert(left@ =~= line@.take(k as int));
    }
    let left_trim = text::trim(left);
    if !text::str_eq(left_trim, "input") {
        return None;
    }
    let right = line.substring_char(k + 1, n);
    proof {
        assert(right@ =~= line@.skip(k as int + 1));
    }
    let value = text::trim(right);
    Some(value.to_owned())
}

/// The references the lines of one config file declare, in order.
pub open spec fn extract_inputs_spec(lines: Seq<Seq<char>>) -> Seq<Seq<char>>
    decreases lines.len(),
{
    if lines.len() == 0 {
        Seq::empty()
    } else {
        extract_inputs_spec(lines.drop_last()) + (match parse_input_line_spec(lines.last()) {
            Some(v) => seq![v],
            None => Seq::<Seq<char>>::empty(),
        })
    }
}

/// The raw path references the given config lines declare, in order.
pub fn extract_inputs(lines: &Vec<String>) -> (r: Vec<String>)
    ensures
        r.deep_view() == extract_inputs_spec(lines.deep_view()),
{
    let n: usize = lines.len();
    let mut out: Vec<String> = Vec::new();
    let mut i: usize = 0;
    proof {
        assert(lines.deep_view().take(0) =~= Seq::<Seq<char>>::empty());
        assert(out.deep_view() =~= extract_inputs_spec(lines.deep_view().take(0)));
    }
    while i < n
        invariant
            n == lines@.len(),
            lines.deep_view().len() == lines@.len(),
            forall|t: int| 0 <= t < lines@.len() ==> lines.deep_view()[t] == lines@[t]@,
            i <= n,
            out.deep_view() == extract_inputs_spec(lines.deep_view().take(i as int)),
        decreases n - i,
    {
        let ghost pre = out.deep_view();
        proof {
            assert(lines.deep_view().take(i as int + 1).drop_last() =~= lines.deep_view().take(
                i as int,
            ));
            assert(lines.deep_view().take(i as int + 1).last() == lines@[i as int]@);
        }
        match parse_input_line(&lines[i]) {
            Some(v) => {
                out.push(v);
                proof {
                    assert(out.deep_view() =~= pre + seq![out@.last()@]);
                }
            },
            None => {
                proof {
                    assert(pre + Seq::<Seq<char>>::empty() =~= pre);
                }
            },
        }
        i += 1;
    }
    proof {
        assert(lines.deep_view().take(n as int) =~= lines.deep_view());
    }
    out
}

/// The view of a resolution candidate.
pub open spec fn opt_view(o: Option<String>) -> Option<Seq<char>> {
    match o {
        Some(s) => Some(s@),
        None => None,
    }
}

/// The views of a directory's resolution outcomes, reference by reference.
pub open spec fn cands_view(s: Seq<(Option<String>, Option<String>)>) -> Seq<
    (Option<Seq<char>>, Option<Seq<char>>),
> {
    s.map_values(|p: (Option<String>, Option<String>)| (opt_view(p.0), opt_view(p.1)))
}

/// The candidate kept for one reference: the config-directory resolution
/// when it exists, else the base-directory resolution, else nothing.
pub open spec fn pick_candidate(a: Option<Seq<char>>, b: Option<Seq<char>>) -> Option<Seq<char>> {
    if a is Some {
        a
    } else {
        b
    }
}

/// A directory's dependency entry from its resolution outcomes: each kept
/// candidate that bears the primary source extension, once, in first-
/// appearance order; unresolved references dropped silently.
pub open spec fn dep_entry_spec(cands: Seq<(Option<Seq<char>>, Option<Seq<char>>)>) -> Seq<
    Seq<char>,
>
    decreases cands.len(),
{
    if cands.len() == 0 {
        Seq::empty()
    } else {
        let prev = dep_entry_spec(cands.drop_last());
        match pick_candidate(cands.last().0, cands.last().1) {
            Some(p) => {
                if text::is_fab_path(p) && !prev.contains(p) {
                    prev.push(p)
                } else {
                    prev
                }
            },
            None => prev,
        }
    }
}

/// One more taken element adds exactly that element to the set.
pub proof fn lemma_take_succ_to_set<A>(s: Seq<A>, j: int)
    requires
        0 <= j < s.len(),
    ensures
        s.take(j + 1).to_set() == s.take(j).to_set().insert(s[j]),
{
    assert forall|x: A| s.take(j + 1).to_set().contains(x) implies s.take(j).to_set().insert(
        s[j],
    ).contains(x) by {
        let w = choose|w: int| 0 <= w < j + 1 && (#[trigger] s.take(j + 1)[w]) == x;
        if w < j {
            assert(s.take(j)[w] == x);
            assert(s.take(j).contains(x));
        }
    }
    assert forall|x: A| s.take(j).to_set().insert(s[j]).contains(x) implies s.take(
        j + 1,
    ).to_set().contains(x) by {
        if s.take(j).to_set().contains(x) {
            let w = choose|w: int| 0 <= w < j && s.take(j)[w] == x;
            assert(s.take(j + 1)[w] == x);
        } else {
            assert(s.take(j + 1)[j] == x);
        }
    }
    assert(s.take(j + 1).to_set() =~= s.take(j).to_set().insert(s[j]));
}

/// Appending one element adds exactly that element to the set.
pub proof fn lemma_push_to_set<A>(s: Seq<A>, x: A)
    ensures
        s.push(x).to_set() == s.to_set().insert(x),
{
    assert forall|y: A| s.push(x).to_set().contains(y) implies s.to_set().insert(x).contains(
        y,
    ) by {
        let w = choose|w: int| 0 <= w < s.len() + 1 && s.push(x)[w] == y;
        if w < s.len() {
            assert(s[w] == y);
            assert(s.contains(y));
        }
    }
    assert forall|y: A| s.to_set().insert(x).contains(y) implies s.push(x).to_set().contains(
        y,
    ) by {
        if s.to_set().contains(y) {
            let w = choose|w: int| 0 <= w < s.len() && s[w] == y;
            assert(s.push(x)[w] == y);
        } else {
            assert(s.push(x)[s.len() as int] == y);
        }
    }
    assert(s.push(x).to_set() =~= s.to_set().insert(x));
}

/// Whether some element of `v` holds the characters of `s`.
pub fn vec_contains_str(v: &Vec<String>, s: &str) -> (r: bool)
    ensures
        r == v.deep_view().contains(s@),
{
    let n: usize = v.len();
    let mut i: usize = 0;
    while i < n
        invariant
            n == v@.len(),
            v.deep_view().len() == v@.len(),
            forall|t: int| 0 <= t < v@.len() ==> v.deep_view()[t] == v@[t]@,
            i <= n,
            forall|t: int| 0 <= t < i ==> v@[t]@ != s@,
        decreases n - i,
    {
        if text::str_eq(v[i].as_str(), s) {
            assert(v.deep_view()[i as int] == s@);
            return true;
        }
        i += 1;
    }
    proof {
        assert forall|t: int| 0 <= t < v.deep_view().len() implies v.deep_view()[t] != s@ by {}
    }
    false
}

/// A directory's dependency entry, from its per-reference resolution
/// outcomes, in first-appearance order without repetition.
pub fn dep_entry(cands: &Vec<(Option<String>, Option<String>)>) -> (r: Vec<String>)
    ensures
        r.deep_view() == dep_entry_spec(cands_view(cands@)),
{
    let n: usize = cands.len();
    let mut out: Vec<String> = Vec::new();
    let mut i: usize = 0;
    proof {
        assert(cands_view(cands@.take(0)) =~= Seq::<(Option<Seq<char>>, Option<Seq<char>>)>::empty());
        assert(out.deep_view() =~= dep_entry_spec(cands_view(cands@.take(0))));
    }
    while i < n
        invariant
            n == cands@.len(),
            i <= n,
            out.deep_view() == dep_entry_spec(cands_view(cands@.take(i as int))),
        decreases n - i,
    {
        let ghost pre = out.deep_view();
        proof {
            assert(cands_view(cands@.take(i as int + 1)).drop_last() =~= cands_view(
                cands@.take(i as int),
            ));
            assert(cands_view(cands@.take(i as int + 1)).last() == (
                opt_view(cands@[i as int].0),
                opt_view(cands@[i as int].1),
            ));
        }
        let picked: Option<String> = match &cands[i].0 {
            Some(a) => Some(a.clone()),
            None => match &cands[i].1 {
                Some(b) => Some(b.clone()),
                None => None,
            },
        };
        match picked {
            Some(p) => {
                if text::has_fab_extension(p.as_str()) && !vec_contains_str(&out, p.as_str()) {
                    out.push(p);
                    proof {
                        assert(out.deep_view() =~= pre.push(out@.last()@));
                    }
                }
            },
            None => {},
        }
        i += 1;
    }
    proof {
        assert(cands_view(cands@.take(n as int)) =~= cands_view(cands@));
    }
    out
}

/// The dependency map assembled from per-directory resolution outcomes: one
/// entry per config directory, each carrying the directory's resolved,
/// extension-filtered dependency paths.
pub fn collect_cfg_map(entries: &Vec<(String, Vec<(Option<String>, Option<String>)>)>) -> (r: Vec<
    (String, Vec<String>),
>)
    ensures
        r@.len() == entries@.len(),
        forall|i: int|
            0 <= i < r@.len() ==> (#[trigger] r@[i]).0@ == entries@[i].0@ && r@[i].1.deep_view()
                == dep_entry_spec(cands_view(entries@[i].1@)),
{
    let n: usize = entries.len();
    let mut out: Vec<(String, Vec<String>)> = Vec::new();
    let mut i: usize = 0;
    while i < n
        invariant
            n == entries@.len(),
            i <= n,
            out@.len() == i,
            forall|t: int|
                0 <= t < i ==> (#[trigger] out@[t]).0@ == entries@[t].0@ && out@[t].1.deep_view()
                    == dep_entry_spec(cands_view(entries@[t].1@)),
        decreases n - i,
    {
        let dir = entries[i].0.clone();
        let deps = dep_entry(&entries[i].1);
        out.push((dir, deps));
        i += 1;
    }
    out
}

} // verus!
