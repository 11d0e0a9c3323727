//! Character-level text helpers shared by the parsers of this crate.
//!
//! Every helper works on the `Seq<char>` view of a string, so that the
//! contracts of the callers can speak of characters directly.
use vstd::prelude::*;

verus! {

/// `p` occurs in `s` starting at character position `i`.
pub open spec fn occurs_at(s: Seq<char>, p: Seq<char>, i: int) -> bool {
    &&& 0 <= i
    &&& i + p.len() <= s.len()
    &&& s.subrange(i, i + p.len()) == p
}

/// `p` occurs somewhere in `s`.
pub open spec fn has_sub(s: Seq<char>, p: Seq<char>) -> bool {
    exists|i: int| occurs_at(s, p, i)
}

/// First position at or after `from` where `p` occurs in `s`.
pub open spec fn find_from(s: Seq<char>, p: Seq<char>, from: int) -> Option<int>
    decreases s.len() - from,
{
    if from < 0 || from + p.len() > s.len() {
        None
    } else if occurs_at(s, p, from) {
        Some(from)
    } else if from >= s.len() {
        None
    } else {
        find_from(s, p, from + 1)
    }
}

/// First position where `p` occurs in `s`.
pub open spec fn find_first(s: Seq<char>, p: Seq<char>) -> Option<int> {
    find_from(s, p, 0)
}

/// `find_from` gives the least occurrence at or after `from`.
pub proof fn lemma_find_from(s: Seq<char>, p: Seq<char>, from: int)
    requires
        0 <= from,
    ensures
        find_from(s, p, from) matches Some(k) ==> from <= k && occurs_at(s, p, k) && forall|j: int|
            from <= j < k ==> !occurs_at(s, p, j),
        find_from(s, p, from) is None ==> forall|j: int| from <= j ==> !occurs_at(s, p, j),
    decreases s.len() - from,
{
    if from + p.len() > s.len() {
    } else if occurs_at(s, p, from) {
    } else if from >= s.len() {
    } else {
        lemma_find_from(s, p, from + 1);
    }
}

/// The first occurrence, when there is one, is an occurrence and no earlier one exists.
pub proof fn lemma_find_first(s: Seq<char>, p: Seq<char>)
    ensures
        find_first(s, p) matches Some(k) ==> occurs_at(s, p, k) && forall|j: int|
            0 <= j < k ==> !occurs_at(s, p, j),
        find_first(s, p) is None <==> !has_sub(s, p),
{
    lemma_find_from(s, p, 0);
    if find_first(s, p) is None {
        assert forall|j: int| !occurs_at(s, p, j) by {
            if j >= 0 {
            }
        }
    } else {
        let k = find_first(s, p)->0;
        assert(occurs_at(s, p, k));
    }
}

/// Copy the characters of a string into a vector.
pub fn str_chars(s: &str) -> (v: Vec<char>)
    ensures
        v@ == s@,
{
    let mut v: Vec<char> = Vec::new();
    for c in it: s.chars()
        invariant
            v@ == it.seq().take(it.index()),
            it.seq() == s@,
    {
        v.push(c);
    }
    proof {
        assert(v@ =~= s@);
    }
    v
}

/// Whether `p` occurs in `s` at position `i`.
pub fn matches_at(s: &Vec<char>, p: &Vec<char>, i: usize) -> (r: bool)
    ensures
        r == occurs_at(s@, p@, i as int),
{
    if i > s.len() || p.len() > s.len() - i {
        return false;
    }
    let mut k: usize = 0;
    while k < p.len()
        invariant
            i + p.len() <= s.len(),
            k <= p.len(),
            forall|j: int| 0 <= j < k ==> s@[i + j] == p@[j],
        decreases p.len() - k,
    {
        if s[i + k] != p[k] {
            proof {
                assert(s@.subrange(i as int, i + p.len())[k as int] != p@[k as int]);
            }
            return false;
        }
        k = k + 1;
    }
    proof {
        assert(s@.subrange(i as int, i + p.len()) =~= p@);
    }
    true
}

/// First character position, at or after `from`, where `p` occurs in `s`.
pub fn find_seq_from(s: &Vec<char>, p: &Vec<char>, from: usize) -> (r: Option<usize>)
    ensures
        r matches Some(k) ==> find_from(s@, p@, from as int) == Some(k as int),
        r is None ==> find_from(s@, p@, from as int) is None,
{
    if p.len() > s.len() || from > s.len() - p.len() {
        return None;
    }
    let last: usize = s.len() - p.len();
    let mut i: usize = from;
    loop
        invariant
            p.len() <= s.len(),
            last == s.len() - p.len(),
            from <= i <= last,
            find_from(s@, p@, from as int) == find_from(s@, p@, i as int),
        decreases last - i,
    {
        if matches_at(s, p, i) {
            return Some(i);
        }
        if i == last {
            assert(find_from(s@, p@, i as int + 1) is None);
            return None;
        }
        i = i + 1;
    }
}

/// First character position where `p` occurs in `s`.
pub fn find_seq(s: &Vec<char>, p: &Vec<char>) -> (r: Option<usize>)
    ensures
        r matches Some(k) ==> find_first(s@, p@) == Some(k as int),
        r is None ==> find_first(s@, p@) is None,
{
    find_seq_from(s, p, 0)
}

/// Whether `p` occurs anywhere in `s`.
pub fn contains_seq(s: &Vec<char>, p: &Vec<char>) -> (r: bool)
    ensures
        r == has_sub(s@, p@),
{
    proof {
        lemma_find_first(s@, p@);
    }
    find_seq(s, p).is_some()
}

/// Whether the pattern text `p` occurs in `s`.
pub fn contains_str(s: &Vec<char>, p: &str) -> (r: bool)
    ensures
        r == has_sub(s@, p@),
{
    let pv = str_chars(p);
    contains_seq(s, &pv)
}

/// Whether the character `c` occurs in `s`.
pub fn contains_char(s: &Vec<char>, c: char) -> (r: bool)
    ensures
        r == s@.contains(c),
{
    let mut i: usize = 0;
    while i < s.len()
        invariant
            i <= s.len(),
            forall|j: int| 0 <= j < i ==> s@[j] != c,
        decreases s.len() - i,
    {
        if s[i] == c {
            return true;
        }
        i = i + 1;
    }
    false
}

/// A single character occurs in `s` exactly when it occurs as a one-character pattern.
pub proof fn lemma_has_sub_single(s: Seq<char>, c: char)
    ensures
        has_sub(s, seq![c]) <==> s.contains(c),
{
    if s.contains(c) {
        let i = choose|i: int| 0 <= i < s.len() && s[i] == c;
        assert(s.subrange(i, i + 1) =~= seq![c]);
        assert(occurs_at(s, seq![c], i));
    }
    if has_sub(s, seq![c]) {
        let i = choose|i: int| occurs_at(s, seq![c], i);
        assert(s.subrange(i, i + 1)[0] == c);
        assert(s[i] == c);
    }
}

/// Searching from `from + j` in `s` is searching from `j` in `s` with its
/// first `from` characters dropped.
pub proof fn lemma_find_skip(s: Seq<char>, p: Seq<char>, from: int, j: int)
    requires
        0 <= from <= s.len(),
        0 <= j,
    ensures
        find_from(s, p, from + j) == match find_from(s.skip(from), p, j) {
            Some(k) => Some(k + from),
            None => None,
        },
    decreases s.len() - from - j,
{
    let t = s.skip(from);
    if from + j + p.len() > s.len() {
    } else {
        assert(occurs_at(s, p, from + j) == occurs_at(t, p, j)) by {
            if occurs_at(t, p, j) {
                assert(s.subrange(from + j, from + j + p.len()) =~= t.subrange(j, j + p.len()));
            }
            if occurs_at(s, p, from + j) {
                assert(s.subrange(from + j, from + j + p.len()) =~= t.subrange(j, j + p.len()));
            }
        }
        if !occurs_at(s, p, from + j) && from + j < s.len() {
            lemma_find_skip(s, p, from, j + 1);
        }
    }
}

/// A copy of the characters of `s` from position `a` up to `b`.
pub fn sub_chars(s: &Vec<char>, a: usize, b: usize) -> (r: Vec<char>)
    requires
        a <= b <= s@.len(),
    ensures
        r@ == s@.subrange(a as int, b as int),
{
    let mut r: Vec<char> = Vec::new();
    let mut i: usize = a;
    while i < b
        invariant
            a <= i <= b,
            b <= s@.len(),
            r@ == s@.subrange(a as int, i as int),
        decreases b - i,
    {
        r.push(s[i]);
        proof {
            assert(s@.subrange(a as int, i + 1) =~= s@.subrange(a as int, i as int).push(s@[i as int]));
        }
        i = i + 1;
    }
    r
}

/// Whether two strings hold the same characters.
pub fn str_eq(a: &str, b: &str) -> (r: bool)
    ensures
        r == (a@ == b@),
{
    let x = str_chars(a);
    let y = str_chars(b);
    if x.len() != y.len() {
        return false;
    }
    let mut i: usize = 0;
    while i < x.len()
        invariant
            i <= x@.len(),
            x@ == a@,
            y@ == b@,
            x@.len() == y@.len(),
            forall|j: int| 0 <= j < i ==> x@[j] == y@[j],
        decreases x@.len() - i,
    {
        if x[i] != y[i] {
            proof {
                assert(a@[i as int] != b@[i as int]);
            }
            return false;
        }
        i = i + 1;
    }
    proof {
        assert(x@ =~= y@);
    }
    true
}

/// The pieces of `s` between the separators `sep`, empty pieces included.
pub open spec fn pieces(s: Seq<char>, sep: char) -> Seq<Seq<char>>
    decreases s.len(),
{
    match crate::lexicon::first_index(s, sep) {
        Some(i) => if 0 <= i < s.len() {
            seq![s.take(i)] + pieces(s.skip(i + 1), sep)
        } else {
            seq![s]
        },
        None => seq![s],
    }
}

/// The pieces of `s` between the separators `sep`, each trimmed.
pub open spec fn split_trimmed(s: Seq<char>, sep: char) -> Seq<Seq<char>> {
    pieces(s, sep).map_values(|p: Seq<char>| crate::lexicon::trim(p))
}

/// The first `sep` of `s` is at `j` when `s[j]` is one and none comes before.
pub proof fn lemma_first_index_at(s: Seq<char>, sep: char, j: int)
    requires
        0 <= j < s.len(),
        s[j] == sep,
        forall|k: int| 0 <= k < j ==> s[k] != sep,
    ensures
        crate::lexicon::first_index(s, sep) == Some(j),
    decreases j,
{
    if j > 0 {
        lemma_first_index_at(s.drop_first(), sep, j - 1);
    }
}

/// `s` holds no `sep` when none of its characters is one.
pub proof fn lemma_first_index_none(s: Seq<char>, sep: char)
    requires
        forall|k: int| 0 <= k < s.len() ==> s[k] != sep,
    ensures
        crate::lexicon::first_index(s, sep) is None,
    decreases s.len(),
{
    if s.len() > 0 {
        lemma_first_index_none(s.drop_first(), sep);
    }
}

/// Split `s` at each `sep` and trim each piece.
pub fn split_and_trim(s: &str, sep: char) -> (r: Vec<String>)
    ensures
        r@.map_values(|x: String| x@) == split_trimmed(s@, sep),
{
    let c = str_chars(s);
    let n = c.len();
    let mut out: Vec<String> = Vec::new();
    let mut start: usize = 0;
    let mut i: usize = 0;
    proof {
        assert(c@.skip(0) =~= c@);
    }
    while i < n
        invariant
            n == c@.len(),
            c@ == s@,
            start <= i <= n,
            forall|k: int| start <= k < i ==> c@[k] != sep,
            out@.map_values(|x: String| x@) + split_trimmed(c@.skip(start as int), sep) == split_trimmed(s@, sep),
        decreases n - i,
    {
        if c[i] == sep {
            let (a, b) = crate::lexicon::trim_window(&c, start, i);
            let ghost rest = c@.skip(start as int);
            proof {
                lemma_first_index_at(rest, sep, i - start);
                assert(rest.take(i - start) =~= c@.subrange(start as int, i as int));
                assert(rest.skip(i - start + 1) =~= c@.skip(i + 1));
                assert(pieces(rest, sep) == seq![rest.take(i - start)] + pieces(rest.skip(i - start + 1), sep));
                assert(split_trimmed(rest, sep) =~= seq![crate::lexicon::trim(c@.subrange(start as int, i as int))]
                    + split_trimmed(c@.skip(i + 1), sep));
            }
            let ghost before = out@.map_values(|x: String| x@);
            out.push(String::from_str(s.substring_char(a, b)));
            proof {
                assert(out@.map_values(|x: String| x@) =~= before.push(crate::lexicon::trim(c@.subrange(start as int, i as int))));
                assert(out@.map_values(|x: String| x@) + split_trimmed(c@.skip(i + 1), sep) =~= before
                    + split_trimmed(rest, sep));
            }
            start = i + 1;
        }
        i = i + 1;
    }
    let (a, b) = crate::lexicon::trim_window(&c, start, n);
    let ghost rest = c@.skip(start as int);
    proof {
        lemma_first_index_none(rest, sep);
        assert(rest =~= c@.subrange(start as int, n as int));
        assert(split_trimmed(rest, sep) =~= seq![crate::lexicon::trim(rest)]);
    }
    let ghost before = out@.map_values(|x: String| x@);
    out.push(String::from_str(s.substring_char(a, b)));
    proof {
        assert(out@.map_values(|x: String| x@) =~= before.push(crate::lexicon::trim(rest)));
        assert(out@.map_values(|x: String| x@) =~= before + split_trimmed(rest, sep));
    }
    out
}

/// Split `s` at each `sep`.
pub fn split_pieces(s: &str, sep: char) -> (r: Vec<String>)
    ensures
        r@.map_values(|x: String| x@) == pieces(s@, sep),
{
    let c = str_chars(s);
    let n = c.len();
    let mut out: Vec<String> = Vec::new();
    let mut start: usize = 0;
    let mut i: usize = 0;
    proof {
        assert(c@.skip(0) =~= c@);
    }
    while i < n
        invariant
            n == c@.len(),
            c@ == s@,
            start <= i <= n,
            forall|k: int| start <= k < i ==> c@[k] != sep,
            out@.map_values(|x: String| x@) + pieces(c@.skip(start as int), sep) == pieces(s@, sep),
        decreases n - i,
    {
        if c[i] == sep {
            let ghost rest = c@.skip(start as int);
            proof {
                lemma_first_index_at(rest, sep, i - start);
                assert(rest.take(i - start) =~= c@.subrange(start as int, i as int));
                assert(rest.skip(i - start + 1) =~= c@.skip(i + 1));
            }
            let ghost before = out@.map_values(|x: String| x@);
            out.push(String::from_str(s.substring_char(start, i)));
            proof {
                assert(out@.map_values(|x: String| x@) =~= before.push(c@.subrange(start as int, i as int)));
                assert(out@.map_values(|x: String| x@) + pieces(c@.skip(i + 1), sep) =~= before + pieces(rest, sep));
            }
            start = i + 1;
        }
        i = i + 1;
    }
    let ghost rest = c@.skip(start as int);
    proof {
        lemma_first_index_none(rest, sep);
        assert(rest =~= c@.subrange(start as int, n as int));
    }
    let ghost before = out@.map_values(|x: String| x@);
    out.push(String::from_str(s.substring_char(start, n)));
    proof {
        assert(out@.map_values(|x: String| x@) =~= before.push(rest));
        assert(out@.map_values(|x: String| x@) =~= before + pieces(rest, sep));
    }
    out
}

} // verus!
