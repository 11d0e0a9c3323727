//! The hLexicon catalog: terms read from the term tables of the canonical
//! markdown document, and the workspace YAML rendered from them.
use vstd::prelude::*;
use vstd::string::*;

verus! {

/// The domain a lexicon term belongs to.
#[derive(Debug, Clone, Copy, PartialEq, Eq, Structural)]
pub enum TemplateType {
    WordAct,
    FlowDef,
    KnowAct,
}

/// A catalog entry: term, definition and domain.
pub type CatalogEntry = (String, String, TemplateType);

/// The character view of catalog entries.
pub open spec fn catalog_view(v: Seq<CatalogEntry>) -> Seq<(Seq<char>, Seq<char>, TemplateType)> {
    v.map_values(|e: CatalogEntry| (e.0@, e.1@, e.2))
}

// ── Characters and lines ─────────────────────────────────────────────────────

/// Unicode white space, as `char::is_whitespace` knows it.
pub open spec fn is_ws(c: char) -> bool {
    let n = c as u32;
    ||| 9 <= n <= 13
    ||| n == 32
    ||| n == 0x85
    ||| n == 0xA0
    ||| n == 0x1680
    ||| 0x2000 <= n <= 0x200A
    ||| n == 0x2028
    ||| n == 0x2029
    ||| n == 0x202F
    ||| n == 0x205F
    ||| n == 0x3000
}

/// Whether `c` is white space.
pub(crate) fn is_ws_exec(c: char) -> (r: bool)
    ensures
        r == is_ws(c),
{
    let n = c as u32;
    (9 <= n && n <= 13) || n == 32 || n == 0x85 || n == 0xA0 || n == 0x1680 || (0x2000 <= n && n <= 0x200A)
        || n == 0x2028 || n == 0x2029 || n == 0x202F || n == 0x205F || n == 0x3000
}

/// `s` without leading white space.
pub open spec fn trim_start(s: Seq<char>) -> Seq<char>
    decreases s.len(),
{
    if s.len() > 0 && is_ws(s[0]) { trim_start(s.drop_first()) } else { s }
}

/// `s` without trailing white space.
pub open spec fn trim_end(s: Seq<char>) -> Seq<char>
    decreases s.len(),
{
    if s.len() > 0 && is_ws(s.last()) { trim_end(s.drop_last()) } else { s }
}

/// `s` without leading or trailing white space.
pub open spec fn trim(s: Seq<char>) -> Seq<char> {
    trim_end(trim_start(s))
}

/// `s` without leading `c`.
pub open spec fn strip_start(s: Seq<char>, c: char) -> Seq<char>
    decreases s.len(),
{
    if s.len() > 0 && s[0] == c { strip_start(s.drop_first(), c) } else { s }
}

/// `s` without trailing `c`.
pub open spec fn strip_end(s: Seq<char>, c: char) -> Seq<char>
    decreases s.len(),
{
    if s.len() > 0 && s.last() == c { strip_end(s.drop_last(), c) } else { s }
}

/// `s` without leading or trailing `c`.
pub open spec fn trim_matches(s: Seq<char>, c: char) -> Seq<char> {
    strip_end(strip_start(s, c), c)
}

/// The first position of `c` in `s`.
pub open spec fn first_index(s: Seq<char>, c: char) -> Option<int>
    decreases s.len(),
{
    if s.len() == 0 {
        None
    } else if s[0] == c {
        Some(0)
    } else {
        match first_index(s.drop_first(), c) {
            Some(i) => Some(i + 1),
            None => None,
        }
    }
}

/// `p` starts `s`.
pub open spec fn starts_with(s: Seq<char>, p: Seq<char>) -> bool {
    p.len() <= s.len() && s.take(p.len() as int) == p
}

/// `p` occurs in `s`.
pub open spec fn contains_seq(s: Seq<char>, p: Seq<char>) -> bool {
    exists|i: int| 0 <= i && i + p.len() <= s.len() && #[trigger] s.subrange(i, i + p.len()) == p
}

/// The end of the line that starts at `i`: the next newline, or the end.
pub open spec fn line_end(s: Seq<char>, i: int) -> int
    decreases s.len() - i,
{
    if i >= s.len() {
        s.len() as int
    } else if s[i] == '\n' {
        i
    } else {
        line_end(s, i + 1)
    }
}

/// The lines of `s` from position `i` on, each without its line ending
/// (`\n`, or `\r\n`); a final line ending starts no further line.
pub open spec fn lines_from(s: Seq<char>, i: int) -> Seq<Seq<char>>
    decreases s.len() - i,
{
    if i < 0 || i >= s.len() {
        Seq::empty()
    } else {
        let e = line_end(s, i);
        if e < i {
            Seq::empty()
        } else if e >= s.len() {
            seq![s.subrange(i, s.len() as int)]
        } else {
            let raw = s.subrange(i, e);
            let line = if raw.len() > 0 && raw.last() == '\r' { raw.drop_last() } else { raw };
            seq![line] + lines_from(s, e + 1)
        }
    }
}

proof fn lemma_line_end(s: Seq<char>, i: int)
    requires
        0 <= i <= s.len(),
    ensures
        i <= line_end(s, i) <= s.len(),
        forall|j: int| i <= j < line_end(s, i) ==> s[j] != '\n',
        line_end(s, i) < s.len() ==> s[line_end(s, i)] == '\n',
    decreases s.len() - i,
{
    if i < s.len() && s[i] != '\n' {
        lemma_line_end(s, i + 1);
    }
}

// ── Catalog rows ─────────────────────────────────────────────────────────────

/// The text between a leading backtick and the next backtick.
pub open spec fn backtick_quoted(s: Seq<char>) -> Option<Seq<char>> {
    let t = trim(s);
    if t.len() >= 3 && t[0] == '`' {
        match first_index(t.drop_first(), '`') {
            Some(k) => Some(t.subrange(1, 1 + k)),
            None => None,
        }
    } else {
        None
    }
}

/// ASCII lower case.
pub open spec fn ascii_lower(c: char) -> char {
    if 'A' <= c && c <= 'Z' { ((c as u32) + 32) as char } else { c }
}

/// `a` and `b` are equal but for ASCII case.
pub open spec fn eq_ignore_ascii_case(a: Seq<char>, b: Seq<char>) -> bool {
    a.len() == b.len() && forall|i: int| 0 <= i < a.len() ==> ascii_lower(#[trigger] a[i]) == ascii_lower(b[i])
}

/// The term and definition of a table row, given without white space
/// around it: the first two cells, the term quoted in backticks and not the
/// header word, the definition without surrounding double quotes.
pub open spec fn row_entry(t: Seq<char>) -> Option<(Seq<char>, Seq<char>)> {
    let inner = trim_matches(t, '|');
    match first_index(inner, '|') {
        None => None,
        Some(p) => {
            let c0 = trim(inner.take(p));
            let rest = inner.skip(p + 1);
            let q = match first_index(rest, '|') { Some(q) => q, None => rest.len() as int };
            let c1 = trim(rest.take(q));
            match backtick_quoted(c0) {
                Some(term) => if eq_ignore_ascii_case(term, "term"@) { None } else { Some((term, trim_matches(c1, '"'))) },
                None => None,
            }
        },
    }
}

/// Where the reading of the document stands.
pub struct CatalogState {
    /// The domain of the current section, once one began.
    pub domain: Option<TemplateType>,
    /// The entries read so far.
    pub entries: Seq<(Seq<char>, Seq<char>, TemplateType)>,
    /// The cross-domain section was reached; nothing more is read.
    pub done: bool,
}

/// The state after reading `line`.
pub open spec fn read_line(st: CatalogState, line: Seq<char>) -> CatalogState {
    let t = trim(line);
    if st.done {
        st
    } else if starts_with(t, "## Domain 1:"@) {
        CatalogState { domain: Some(TemplateType::WordAct), ..st }
    } else if starts_with(t, "## Domain 2:"@) {
        CatalogState { domain: Some(TemplateType::FlowDef), ..st }
    } else if starts_with(t, "## Domain 3:"@) {
        CatalogState { domain: Some(TemplateType::KnowAct), ..st }
    } else if starts_with(t, "## Cross-Domain"@) {
        CatalogState { done: true, ..st }
    } else {
        match st.domain {
            Some(d) => if t.len() > 0 && t[0] == '|' && t.last() == '|' && !contains_seq(t, "---"@) {
                match row_entry(t) {
                    Some((term, def)) => CatalogState { entries: st.entries.push((term, def, d)), ..st },
                    None => st,
                }
            } else {
                st
            },
            None => st,
        }
    }
}

/// The state after reading `lines` in order.
pub open spec fn read_lines(st: CatalogState, lines: Seq<Seq<char>>) -> CatalogState
    decreases lines.len(),
{
    if lines.len() == 0 {
        st
    } else {
        read_line(read_lines(st, lines.drop_last()), lines.last())
    }
}

/// The entries of the term tables of `markdown`, in document order.
pub open spec fn catalog_of(markdown: Seq<char>) -> Seq<(Seq<char>, Seq<char>, TemplateType)> {
    read_lines(CatalogState { domain: None, entries: Seq::empty(), done: false }, lines_from(markdown, 0)).entries
}

/// The error for a document without terms.
pub open spec fn no_terms_message() -> Seq<char> {
    "No hLexicon terms extracted from markdown. Check that domain headers (## Domain 1/2/3:) and term tables are present."@
}

// ── Reading ──────────────────────────────────────────────────────────────────

/// The part of `c` from `a` to `b`.
pub open spec fn window(c: Seq<char>, a: int, b: int) -> Seq<char> {
    c.subrange(a, b)
}

/// The window `[a, b)` without surrounding white space.
pub(crate) fn trim_window(c: &Vec<char>, a: usize, b: usize) -> (r: (usize, usize))
    requires
        a <= b <= c@.len(),
    ensures
        a <= r.0 <= r.1 <= b,
        c@.subrange(r.0 as int, r.1 as int) == trim(c@.subrange(a as int, b as int)),
{
    let mut i = a;
    while i < b && is_ws_exec(c[i])
        invariant
            a <= i <= b,
            b <= c@.len(),
            trim_start(c@.subrange(a as int, b as int)) == trim_start(c@.subrange(i as int, b as int)),
        decreases b - i,
    {
        proof {
            assert(c@.subrange(i as int, b as int).drop_first() =~= c@.subrange(i + 1, b as int));
        }
        i = i + 1;
    }
    let mut j = b;
    while j > i && is_ws_exec(c[j - 1])
        invariant
            i <= j <= b,
            b <= c@.len(),
            trim_start(c@.subrange(a as int, b as int)) == c@.subrange(i as int, b as int),
            trim_end(c@.subrange(i as int, b as int)) == trim_end(c@.subrange(i as int, j as int)),
        decreases j - i,
    {
        proof {
            assert(c@.subrange(i as int, j as int).drop_last() =~= c@.subrange(i as int, j - 1));
        }
        j = j - 1;
    }
    (i, j)
}

/// The window `[a, b)` without surrounding `ch`.
fn strip_window(c: &Vec<char>, a: usize, b: usize, ch: char) -> (r: (usize, usize))
    requires
        a <= b <= c@.len(),
    ensures
        a <= r.0 <= r.1 <= b,
        c@.subrange(r.0 as int, r.1 as int) == trim_matches(c@.subrange(a as int, b as int), ch),
{
    let mut i = a;
    while i < b && c[i] == ch
        invariant
            a <= i <= b,
            b <= c@.len(),
            strip_start(c@.subrange(a as int, b as int), ch) == strip_start(c@.subrange(i as int, b as int), ch),
        decreases b - i,
    {
        proof {
            assert(c@.subrange(i as int, b as int).drop_first() =~= c@.subrange(i + 1, b as int));
        }
        i = i + 1;
    }
    let mut j = b;
    while j > i && c[j - 1] == ch
        invariant
            i <= j <= b,
            b <= c@.len(),
            strip_start(c@.subrange(a as int, b as int), ch) == c@.subrange(i as int, b as int),
            strip_end(c@.subrange(i as int, b as int), ch) == strip_end(c@.subrange(i as int, j as int), ch),
        decreases j - i,
    {
        proof {
            assert(c@.subrange(i as int, j as int).drop_last() =~= c@.subrange(i as int, j - 1));
        }
        j = j - 1;
    }
    (i, j)
}

/// The first position of `ch` in the window `[a, b)`.
fn find_window(c: &Vec<char>, a: usize, b: usize, ch: char) -> (r: Option<usize>)
    requires
        a <= b <= c@.len(),
    ensures
        r matches Some(e) ==> a <= e < b && first_index(c@.subrange(a as int, b as int), ch) == Some(e - a),
        r is None ==> first_index(c@.subrange(a as int, b as int), ch) is None,
{
    let mut i = a;
    while i < b
        invariant
            a <= i <= b,
            b <= c@.len(),
            first_index(c@.subrange(a as int, b as int), ch) == match first_index(c@.subrange(i as int, b as int), ch) {
                Some(k) => Some(k + (i - a)),
                None => None,
            },
        decreases b - i,
    {
        proof {
            assert(c@.subrange(i as int, b as int).drop_first() =~= c@.subrange(i + 1, b as int));
        }
        if c[i] == ch {
            return Some(i);
        }
        i = i + 1;
    }
    None
}

/// Whether the window `[a, b)` starts with `p`.
fn starts_window(c: &Vec<char>, a: usize, b: usize, p: &str) -> (r: bool)
    requires
        a <= b <= c@.len(),
    ensures
        r == starts_with(c@.subrange(a as int, b as int), p@),
{
    let pv = crate::text::str_chars(p);
    if pv.len() > b - a {
        return false;
    }
    let mut k: usize = 0;
    while k < pv.len()
        invariant
            k <= pv@.len(),
            pv@ == p@,
            pv@.len() <= b - a,
            a <= b <= c@.len(),
            forall|t: int| 0 <= t < k ==> c@[a + t] == pv@[t],
        decreases pv@.len() - k,
    {
        if c[a + k] != pv[k] {
            proof {
                assert(c@.subrange(a as int, b as int).take(p@.len() as int)[k as int] != p@[k as int]);
            }
            return false;
        }
        k = k + 1;
    }
    proof {
        assert(c@.subrange(a as int, b as int).take(p@.len() as int) =~= p@);
    }
    true
}

/// Whether `p` occurs in the window `[a, b)`.
fn contains_window(c: &Vec<char>, a: usize, b: usize, p: &str) -> (r: bool)
    requires
        a <= b <= c@.len(),
    ensures
        r == contains_seq(c@.subrange(a as int, b as int), p@),
{
    let ghost w = c@.subrange(a as int, b as int);
    let pv = crate::text::str_chars(p);
    let n = pv.len();
    let mut i = a;
    while n <= b - i
        invariant
            a <= i <= b,
            b <= c@.len(),
            n == p@.len(),
            pv@ == p@,
            w == c@.subrange(a as int, b as int),
            forall|x: int| 0 <= x < i - a ==> #[trigger] w.subrange(x, x + n) != p@,
        decreases b - i,
    {
        if starts_window(c, i, b, p) {
            proof {
                assert(w.subrange(i - a, i - a + n) =~= c@.subrange(i as int, b as int).take(n as int));
            }
            return true;
        }
        proof {
            assert(w.subrange(i - a, i - a + n) =~= c@.subrange(i as int, b as int).take(n as int));
            if i == b {
                assert(c@.subrange(i as int, b as int).take(0) =~= p@);
            }
        }
        i = i + 1;
    }
    proof {
        assert forall|x: int| 0 <= x && x + n <= w.len() implies #[trigger] w.subrange(x, x + n) != p@ by {
            assert(x < i - a);
        }
    }
    false
}

/// The window of the text between a leading backtick and the next one.
fn backtick_window(c: &Vec<char>, a: usize, b: usize) -> (r: Option<(usize, usize)>)
    requires
        a <= b <= c@.len(),
    ensures
        match backtick_quoted(c@.subrange(a as int, b as int)) {
            Some(t) => r matches Some((x, y)) && x <= y <= c@.len() && c@.subrange(x as int, y as int) == t,
            None => r is None,
        },
{
    let (x, y) = trim_window(c, a, b);
    let ghost t = c@.subrange(x as int, y as int);
    if y - x >= 3 && c[x] == '`' {
        proof {
            assert(t.drop_first() =~= c@.subrange(x + 1, y as int));
        }
        let found = find_window(c, x + 1, y, '`');
        match found {
            Some(e) => {
                proof {
                    let k = e - x - 1;
                    assert(first_index(t.drop_first(), '`') == Some(k));
                    assert(c@.subrange(x + 1, e as int) =~= t.subrange(1, 1 + k));
                }
                Some((x + 1, e))
            },
            None => None,
        }
    } else {
        None
    }
}

/// Whether the window `[a, b)` is the word "term" in any ASCII case.
fn is_header_word(c: &Vec<char>, a: usize, b: usize) -> (r: bool)
    requires
        a <= b <= c@.len(),
    ensures
        r == eq_ignore_ascii_case(c@.subrange(a as int, b as int), "term"@),
{
    proof {
        reveal_strlit("term");
    }
    if b - a != 4 {
        return false;
    }
    let w = ['t', 'e', 'r', 'm'];
    let mut k: usize = 0;
    while k < 4
        invariant
            k <= 4,
            b - a == 4,
            b <= c@.len(),
            w@ == "term"@,
            forall|t: int| 0 <= t < k ==> ascii_lower(c@[a + t]) == ascii_lower("term"@[t]),
        decreases 4 - k,
    {
        proof {
            reveal_strlit("term");
        }
        let x = c[a + k];
        let lx = if 'A' <= x && x <= 'Z' { ((x as u32) + 32) as u8 as char } else { x };
        assert(lx == ascii_lower(x)) by {
            if 'A' <= x && x <= 'Z' {
                assert(((x as u32) + 32) as u8 as char == ((x as u32) + 32) as char);
            }
        }
        proof {
            assert(ascii_lower(w@[k as int]) == w@[k as int]) by {
                if k == 0 { assert(w@[0] == 't'); } else if k == 1 { assert(w@[1] == 'e'); }
                else if k == 2 { assert(w@[2] == 'r'); } else { assert(w@[3] == 'm'); }
            }
        }
        if lx != w[k] {
            proof {
                assert(c@.subrange(a as int, b as int)[k as int] == c@[a + k]);
            }
            return false;
        }
        k = k + 1;
    }
    proof {
        assert forall|i: int| 0 <= i < 4 implies ascii_lower(#[trigger] c@.subrange(a as int, b as int)[i]) == ascii_lower("term"@[i]) by {
            assert(c@.subrange(a as int, b as int)[i] == c@[a + i]);
        }
    }
    true
}

/// The term and definition windows of a table row given by the window
/// `[a, b)`, without white space around it.
fn row_window(c: &Vec<char>, a: usize, b: usize) -> (r: Option<((usize, usize), (usize, usize))>)
    requires
        a <= b <= c@.len(),
    ensures
        match row_entry(c@.subrange(a as int, b as int)) {
            Some((term, def)) => r matches Some(((x0, y0), (x1, y1))) && x0 <= y0 <= c@.len() && x1 <= y1 <= c@.len()
                && c@.subrange(x0 as int, y0 as int) == term && c@.subrange(x1 as int, y1 as int) == def,
            None => r is None,
        },
{
    let ghost t = c@.subrange(a as int, b as int);
    let (ia, ib) = strip_window(c, a, b, '|');
    let ghost inner = c@.subrange(ia as int, ib as int);
    match find_window(c, ia, ib, '|') {
        None => None,
        Some(p) => {
            proof {
                assert(inner.take(p - ia) =~= c@.subrange(ia as int, p as int));
                assert(inner.skip(p - ia + 1) =~= c@.subrange(p + 1, ib as int));
            }
            let (c0a, c0b) = trim_window(c, ia, p);
            let q = match find_window(c, p + 1, ib, '|') {
                Some(q) => q,
                None => ib,
            };
            proof {
                let rest = inner.skip(p - ia + 1);
                let qq = match first_index(rest, '|') { Some(q) => q, None => rest.len() as int };
                assert(q == p + 1 + qq);
                assert(p + 1 <= q <= ib);
                assert(rest.take(qq) =~= c@.subrange(p + 1, q as int));
            }
            let (c1a, c1b) = trim_window(c, p + 1, q);
            match backtick_window(c, c0a, c0b) {
                Some((ta, tb)) => {
                    if is_header_word(c, ta, tb) {
                        None
                    } else {
                        let (da, db) = strip_window(c, c1a, c1b, '"');
                        Some(((ta, tb), (da, db)))
                    }
                },
                None => None,
            }
        },
    }
}

/// The end of a line is the first newline from its start on.
proof fn lemma_line_end_first(s: Seq<char>, i: int)
    requires
        0 <= i <= s.len(),
    ensures
        line_end(s, i) == match first_index(s.subrange(i, s.len() as int), '\n') {
            Some(k) => i + k,
            None => s.len() as int,
        },
    decreases s.len() - i,
{
    if i < s.len() {
        assert(s.subrange(i, s.len() as int).drop_first() =~= s.subrange(i + 1, s.len() as int));
        if s[i] != '\n' {
            lemma_line_end_first(s, i + 1);
        }
    }
}

/// The state of reading before the first line.
pub open spec fn start_state() -> CatalogState {
    CatalogState { domain: None, entries: Seq::empty(), done: false }
}

/// A copy of the part of `s` from character `a` to character `b`.
fn piece(s: &str, a: usize, b: usize) -> (r: String)
    requires
        a <= b <= s@.len(),
    ensures
        r@ == s@.subrange(a as int, b as int),
{
    String::from_str(s.substring_char(a, b))
}

/// Read one line, given as the window `[a, b)` of `c`, the characters of `md`.
fn read_line_exec(
    md: &str,
    c: &Vec<char>,
    a: usize,
    b: usize,
    domain: &mut Option<TemplateType>,
    entries: &mut Vec<CatalogEntry>,
    done: &mut bool,
)
    requires
        a <= b <= c@.len(),
        c@ == md@,
    ensures
        ({
            let st = read_line(
                CatalogState { domain: *old(domain), entries: catalog_view(old(entries)@), done: *old(done) },
                c@.subrange(a as int, b as int),
            );
            &&& st.domain == *final(domain)
            &&& st.entries == catalog_view(final(entries)@)
            &&& st.done == *final(done)
        }),
{
    if *done {
        return;
    }
    let (ta, tb) = trim_window(c, a, b);
    let ghost t = c@.subrange(ta as int, tb as int);
    if starts_window(c, ta, tb, "## Domain 1:") {
        *domain = Some(TemplateType::WordAct);
        return;
    }
    if starts_window(c, ta, tb, "## Domain 2:") {
        *domain = Some(TemplateType::FlowDef);
        return;
    }
    if starts_window(c, ta, tb, "## Domain 3:") {
        *domain = Some(TemplateType::KnowAct);
        return;
    }
    if starts_window(c, ta, tb, "## Cross-Domain") {
        *done = true;
        return;
    }
    match *domain {
        Some(d) => {
            if tb > ta && c[ta] == '|' && c[tb - 1] == '|' && !contains_window(c, ta, tb, "---") {
                match row_window(c, ta, tb) {
                    Some(((x0, y0), (x1, y1))) => {
                        let ghost before = catalog_view(entries@);
                        let term = piece(md, x0, y0);
                        let def = piece(md, x1, y1);
                        entries.push((term, def, d));
                        proof {
                            assert(catalog_view(entries@) =~= before.push((term@, def@, d)));
                        }
                    },
                    None => {},
                }
            }
        },
        None => {},
    }
}

/// The catalog of the term tables of `markdown`: for each table row under
/// a domain header whose first cell is a backtick-quoted term (not the
/// header word), the term, the definition and the domain, in document
/// order, up to the cross-domain section. A document without such rows is
/// refused.
pub fn parse_markdown_catalog(markdown: &str) -> (r: Result<Vec<CatalogEntry>, String>)
    ensures
        catalog_of(markdown@).len() == 0 ==> (r matches Err(m) && m@ == no_terms_message()),
        catalog_of(markdown@).len() > 0 ==> (r matches Ok(v) && catalog_view(v@) == catalog_of(markdown@)),
{
    let c = crate::text::str_chars(markdown);
    let n = c.len();
    let mut pos: usize = 0;
    let mut domain: Option<TemplateType> = None;
    let mut entries: Vec<CatalogEntry> = Vec::new();
    let mut done = false;
    let ghost mut processed: Seq<Seq<char>> = Seq::empty();
    proof {
        assert(lines_from(c@, 0) =~= processed + lines_from(c@, 0));
        assert(catalog_view(entries@) =~= Seq::<(Seq<char>, Seq<char>, TemplateType)>::empty());
    }
    while pos < n
        invariant
            pos <= n,
            n == c@.len(),
            c@ == markdown@,
            lines_from(c@, 0) == processed + lines_from(c@, pos as int),
            read_lines(start_state(), processed).domain == domain,
            read_lines(start_state(), processed).entries == catalog_view(entries@),
            read_lines(start_state(), processed).done == done,
        decreases n - pos,
    {
        let e = match find_window(&c, pos, n, '\n') {
            Some(e) => e,
            None => n,
        };
        proof {
            lemma_line_end_first(c@, pos as int);
            assert(line_end(c@, pos as int) == e);
        }
        let mut le = e;
        if e < n && e > pos && c[e - 1] == '\r' {
            le = e - 1;
        }
        let ghost line = c@.subrange(pos as int, le as int);
        proof {
            let raw = c@.subrange(pos as int, e as int);
            if e < n {
                if raw.len() > 0 && raw.last() == '\r' {
                    assert(raw.drop_last() =~= line);
                } else {
                    assert(raw =~= line);
                }
                assert(lines_from(c@, pos as int) == seq![line] + lines_from(c@, e + 1));
            } else {
                assert(lines_from(c@, pos as int) == seq![line]);
                assert(lines_from(c@, n as int) =~= Seq::<Seq<char>>::empty());
            }
        }
        read_line_exec(markdown, &c, pos, le, &mut domain, &mut entries, &mut done);
        proof {
            let p2 = processed.push(line);
            assert(p2.drop_last() =~= processed);
            assert(p2.last() == line);
            if e < n {
                assert(lines_from(c@, 0) =~= p2 + lines_from(c@, e + 1));
            } else {
                assert(lines_from(c@, 0) =~= p2 + lines_from(c@, n as int));
            }
            processed = p2;
        }
        pos = if e < n { e + 1 } else { n };
    }
    proof {
        assert(lines_from(c@, n as int) =~= Seq::<Seq<char>>::empty());
        assert(processed =~= lines_from(c@, 0));
    }
    if entries.len() == 0 {
        return Err(String::from_str(
            "No hLexicon terms extracted from markdown. Check that domain headers (## Domain 1/2/3:) and term tables are present.",
        ));
    }
    Ok(entries)
}

// ── Rendering ────────────────────────────────────────────────────────────────

/// `a` sorts before `b`: character by character, a proper prefix first.
pub open spec fn str_less(a: Seq<char>, b: Seq<char>) -> bool
    decreases a.len(),
{
    if b.len() == 0 {
        false
    } else if a.len() == 0 {
        true
    } else if (a[0] as u32) < (b[0] as u32) {
        true
    } else if a[0] == b[0] {
        str_less(a.drop_first(), b.drop_first())
    } else {
        false
    }
}

/// The terms and definitions of the entries of domain `d`, in order.
pub open spec fn of_domain(es: Seq<(Seq<char>, Seq<char>, TemplateType)>, d: TemplateType) -> Seq<(Seq<char>, Seq<char>)>
    decreases es.len(),
{
    if es.len() == 0 {
        Seq::empty()
    } else {
        let prev = of_domain(es.drop_last(), d);
        if es.last().2 == d { prev.push((es.last().0, es.last().1)) } else { prev }
    }
}

/// Where an entry with term `t` goes in `s`: before the first entry whose
/// term sorts after `t`.
pub open spec fn insert_pos(s: Seq<(Seq<char>, Seq<char>)>, t: Seq<char>) -> int
    decreases s.len(),
{
    if s.len() == 0 {
        0
    } else if str_less(t, s[0].0) {
        0
    } else {
        1 + insert_pos(s.drop_first(), t)
    }
}

/// The entries sorted by term; entries with equal terms keep their order.
pub open spec fn sort_by_term(s: Seq<(Seq<char>, Seq<char>)>) -> Seq<(Seq<char>, Seq<char>)>
    decreases s.len(),
{
    if s.len() == 0 {
        s
    } else {
        let r = sort_by_term(s.drop_last());
        r.insert(insert_pos(r, s.last().0), s.last())
    }
}

/// `a` comes no later than `b` in the order of `str`: `a` is a prefix of
/// `b`, or at the first position where the two differ the character of `a`
/// is the smaller.
pub open spec fn lex_le(a: Seq<char>, b: Seq<char>) -> bool {
    ||| (a.len() <= b.len() && a == b.take(a.len() as int))
    ||| exists|k: int| 0 <= k < a.len() && k < b.len() && a.take(k) == b.take(k) && (a[k] as u32) < (b[k] as u32)
}

/// Putting the same character in front keeps the order.
proof fn lemma_lex_le_cons(a: Seq<char>, b: Seq<char>)
    requires
        a.len() > 0,
        b.len() > 0,
        a[0] == b[0],
        lex_le(a.drop_first(), b.drop_first()),
    ensures
        lex_le(a, b),
{
    let x = a.drop_first();
    let y = b.drop_first();
    if x.len() <= y.len() && x == y.take(x.len() as int) {
        assert(a =~= b.take(a.len() as int)) by {
            assert forall|i: int| 0 <= i < a.len() implies #[trigger] a[i] == b.take(a.len() as int)[i] by {
                if i > 0 {
                    assert(a[i] == x[i - 1]);
                    assert(b[i] == y[i - 1]);
                    assert(y.take(x.len() as int)[i - 1] == y[i - 1]);
                }
            }
        }
    } else {
        let k = choose|k: int| 0 <= k < x.len() && k < y.len() && x.take(k) == y.take(k) && (x[k] as u32) < (y[k] as u32);
        assert(a.take(k + 1) =~= b.take(k + 1)) by {
            assert forall|i: int| 0 <= i < k + 1 implies #[trigger] a.take(k + 1)[i] == b.take(k + 1)[i] by {
                if i > 0 {
                    assert(x.take(k)[i - 1] == y.take(k)[i - 1]);
                }
            }
        }
        assert(a[k + 1] == x[k] && b[k + 1] == y[k]);
    }
}

/// What `str_less` puts first comes first in the order of `str`.
proof fn lemma_str_less_le(a: Seq<char>, b: Seq<char>)
    requires
        str_less(a, b),
    ensures
        lex_le(a, b),
    decreases a.len(),
{
    if a.len() == 0 {
        assert(a =~= b.take(0));
    } else if (a[0] as u32) < (b[0] as u32) {
        assert(a.take(0) =~= b.take(0));
    } else {
        lemma_str_less_le(a.drop_first(), b.drop_first());
        lemma_lex_le_cons(a, b);
    }
}

/// When `str_less` does not put `a` first, `b` comes no later than `a`.
proof fn lemma_not_str_less_le(a: Seq<char>, b: Seq<char>)
    requires
        !str_less(a, b),
    ensures
        lex_le(b, a),
    decreases a.len(),
{
    if b.len() == 0 {
        assert(b =~= a.take(0));
    } else if a[0] == b[0] {
        lemma_not_str_less_le(a.drop_first(), b.drop_first());
        lemma_lex_le_cons(b, a);
    } else {
        assert(a.len() > 0);
        vstd::utf8::char_u32_cast(a[0], a[0] as u32);
        vstd::utf8::char_u32_cast(b[0], b[0] as u32);
        assert((b[0] as u32) < (a[0] as u32));
        assert(b.take(0) =~= a.take(0));
    }
}

/// Where `insert_pos` puts `t`: after every entry whose term `t` does not
/// sort before, and before an entry whose term it does.
proof fn lemma_insert_pos(s: Seq<(Seq<char>, Seq<char>)>, t: Seq<char>)
    ensures
        0 <= insert_pos(s, t) <= s.len(),
        forall|i: int| 0 <= i < insert_pos(s, t) ==> !str_less(t, #[trigger] s[i].0),
        insert_pos(s, t) < s.len() ==> str_less(t, s[insert_pos(s, t)].0),
    decreases s.len(),
{
    if s.len() > 0 && !str_less(t, s[0].0) {
        let rest = s.drop_first();
        lemma_insert_pos(rest, t);
        assert forall|i: int| 0 <= i < insert_pos(s, t) implies !str_less(t, #[trigger] s[i].0) by {
            if i > 0 {
                assert(s[i] == rest[i - 1]);
            }
        }
        if insert_pos(s, t) < s.len() {
            assert(s[insert_pos(s, t)] == rest[insert_pos(rest, t)]);
        }
    }
}

/// Nothing sorts before itself.
proof fn lemma_str_less_irreflexive(a: Seq<char>)
    ensures
        !str_less(a, a),
    decreases a.len(),
{
    if a.len() > 0 {
        lemma_str_less_irreflexive(a.drop_first());
    }
}

/// Sorting before is transitive.
proof fn lemma_str_less_transitive(a: Seq<char>, b: Seq<char>, c: Seq<char>)
    requires
        str_less(a, b),
        str_less(b, c),
    ensures
        str_less(a, c),
    decreases a.len(),
{
    if a.len() > 0 && b.len() > 0 && c.len() > 0 && a[0] == b[0] && b[0] == c[0] {
        lemma_str_less_transitive(a.drop_first(), b.drop_first(), c.drop_first());
    }
}

/// Every entry of the sorted sequence sorts no earlier than those before it.
proof fn lemma_sort_pairs(s: Seq<(Seq<char>, Seq<char>)>)
    ensures
        forall|i: int, j: int| 0 <= i < j < sort_by_term(s).len() ==> !str_less(#[trigger] sort_by_term(s)[j].0, #[trigger] sort_by_term(s)[i].0),
    decreases s.len(),
{
    if s.len() > 0 {
        let pre = s.drop_last();
        let e = s.last();
        lemma_sort_pairs(pre);
        let r0 = sort_by_term(pre);
        let p = insert_pos(r0, e.0);
        lemma_insert_pos(r0, e.0);
        let r = r0.insert(p, e);
        assert forall|i: int, j: int| 0 <= i < j < r.len() implies !str_less(#[trigger] r[j].0, #[trigger] r[i].0) by {
            if j < p {
                assert(r[i] == r0[i] && r[j] == r0[j]);
            } else if j == p {
                assert(r[i] == r0[i] && r[j] == e);
            } else if i < p {
                assert(r[i] == r0[i] && r[j] == r0[j - 1]);
                if str_less(r0[j - 1].0, r0[i].0) {
                    assert(!str_less(r0[p].0, r0[i].0) || p == i);
                    if j - 1 == p {
                        lemma_str_less_transitive(e.0, r0[p].0, r0[i].0);
                    } else {
                        assert(!str_less(r0[j - 1].0, r0[p].0));
                        lemma_str_less_transitive(e.0, r0[p].0, r0[i].0);
                    }
                }
            } else if i == p {
                assert(r[i] == e && r[j] == r0[j - 1]);
                if str_less(r0[j - 1].0, e.0) {
                    lemma_str_less_transitive(r0[j - 1].0, e.0, r0[p].0);
                    if j - 1 == p {
                        lemma_str_less_irreflexive(r0[p].0);
                    }
                }
            } else {
                assert(r[i] == r0[i - 1] && r[j] == r0[j - 1]);
            }
        }
    }
}

/// The entries of `s` with term `x`, in order.
pub open spec fn with_term(s: Seq<(Seq<char>, Seq<char>)>, x: Seq<char>) -> Seq<(Seq<char>, Seq<char>)> {
    s.filter(term_is(x))
}

/// The test that an entry has term `x`.
pub open spec fn term_is(x: Seq<char>) -> spec_fn((Seq<char>, Seq<char>)) -> bool {
    |e: (Seq<char>, Seq<char>)| e.0 == x
}

/// Filtering a concatenation filters each part.
proof fn lemma_with_term_add(a: Seq<(Seq<char>, Seq<char>)>, b: Seq<(Seq<char>, Seq<char>)>, x: Seq<char>)
    ensures
        with_term(a + b, x) == with_term(a, x) + with_term(b, x),
{
    Seq::filter_distributes_over_add(a, b, term_is(x));
}

/// No entry with term `x` leaves nothing.
proof fn lemma_with_term_none(a: Seq<(Seq<char>, Seq<char>)>, x: Seq<char>)
    requires
        forall|i: int| 0 <= i < a.len() ==> (#[trigger] a[i]).0 != x,
    ensures
        with_term(a, x) == Seq::<(Seq<char>, Seq<char>)>::empty(),
    decreases a.len(),
{
    reveal(Seq::filter);
    if a.len() > 0 {
        assert forall|i: int| 0 <= i < a.drop_last().len() implies (#[trigger] a.drop_last()[i]).0 != x by {
            assert(a.drop_last()[i] == a[i]);
        }
        lemma_with_term_none(a.drop_last(), x);
        assert(a[a.len() - 1].0 != x);
    }
}

/// One entry, kept when its term is `x`.
proof fn lemma_with_term_one(e: (Seq<char>, Seq<char>), x: Seq<char>)
    ensures
        with_term(seq![e], x) == (if e.0 == x { seq![e] } else { Seq::<(Seq<char>, Seq<char>)>::empty() }),
{
    reveal(Seq::filter);
    let pred = term_is(x);
    let one = seq![e];
    let z = one.drop_last();
    assert(z =~= Seq::<(Seq<char>, Seq<char>)>::empty());
    assert(z.filter(pred) == z);
    assert(one.last() == e);
    if e.0 == x {
        assert(one.filter(pred) == z.filter(pred).push(e));
        assert(z.push(e) =~= one);
    } else {
        assert(one.filter(pred) == z.filter(pred));
    }
}

/// Sorting keeps the order of entries with equal terms: for every term,
/// its entries come out as often and in the order they went in.
pub proof fn lemma_sort_stable(s: Seq<(Seq<char>, Seq<char>)>, x: Seq<char>)
    ensures
        with_term(sort_by_term(s), x) == with_term(s, x),
    decreases s.len(),
{
    if s.len() > 0 {
        let pre = s.drop_last();
        let e = s.last();
        assert(pre.push(e) =~= s);
        lemma_with_term_stable_step(pre, e, x);
        lemma_sort_stable(pre, x);
    }
}

proof fn lemma_with_term_stable_step(pre: Seq<(Seq<char>, Seq<char>)>, e: (Seq<char>, Seq<char>), x: Seq<char>)
    ensures
        with_term(sort_by_term(pre.push(e)), x) == with_term(sort_by_term(pre), x) + with_term(seq![e], x),
        with_term(pre.push(e), x) == with_term(pre, x) + with_term(seq![e], x),
{
    let s = pre.push(e);
    assert(s.drop_last() =~= pre);
    assert(s.last() == e);
    assert(s =~= pre + seq![e]);
    lemma_with_term_add(pre, seq![e], x);
    let r0 = sort_by_term(pre);
    let p = insert_pos(r0, e.0);
    lemma_insert_pos(r0, e.0);
    let r = r0.insert(p, e);
    assert(sort_by_term(s) == r);
    let a = r0.take(p);
    let b = r0.skip(p);
    assert(r =~= a + seq![e] + b);
    assert(r0 =~= a + b);
    lemma_with_term_add(a + seq![e], b, x);
    lemma_with_term_add(a, seq![e], x);
    lemma_with_term_add(a, b, x);
    lemma_with_term_one(e, x);
    if e.0 == x {
        lemma_sort_pairs(pre);
        assert forall|i: int| 0 <= i < b.len() implies (#[trigger] b[i]).0 != x by {
            assert(b[i] == r0[p + i]);
            if r0[p + i].0 == x {
                if i == 0 {
                    lemma_str_less_irreflexive(x);
                } else {
                    assert(!str_less(r0[p + i].0, r0[p].0));
                }
            }
        }
        lemma_with_term_none(b, x);
        assert(with_term(r, x) =~= with_term(r0, x) + with_term(seq![e], x));
    } else {
        assert(with_term(r, x) =~= with_term(r0, x) + with_term(seq![e], x));
    }
}

/// The rendered entries of a domain are in the order of `str` by term,
/// each entry no later than the next, and they are the domain's entries,
/// each as often as given.
pub proof fn lemma_sorted_by_term(s: Seq<(Seq<char>, Seq<char>)>)
    ensures
        forall|i: int| 0 <= i < sort_by_term(s).len() - 1 ==> lex_le(#[trigger] sort_by_term(s)[i].0, sort_by_term(s)[i + 1].0),
        sort_by_term(s).to_multiset() == s.to_multiset(),
    decreases s.len(),
{
    broadcast use vstd::seq_lib::group_to_multiset_ensures;
    if s.len() > 0 {
        let pre = s.drop_last();
        let e = s.last();
        lemma_sorted_by_term(pre);
        let r0 = sort_by_term(pre);
        let p = insert_pos(r0, e.0);
        lemma_insert_pos(r0, e.0);
        let r = r0.insert(p, e);
        assert(sort_by_term(s) == r);
        assert forall|i: int| 0 <= i < r.len() - 1 implies lex_le(#[trigger] r[i].0, r[i + 1].0) by {
            if i + 1 < p {
                assert(r[i] == r0[i] && r[i + 1] == r0[i + 1]);
            } else if i + 1 == p {
                assert(r[i] == r0[i] && r[i + 1] == e);
                lemma_not_str_less_le(e.0, r0[i].0);
            } else if i == p {
                assert(r[i] == e && r[i + 1] == r0[p]);
                lemma_str_less_le(e.0, r0[p].0);
            } else {
                assert(r[i] == r0[i - 1] && r[i + 1] == r0[i]);
                assert(lex_le(r0[i - 1].0, r0[i - 1 + 1].0));
            }
        }
        assert(s =~= pre.push(e));
        assert(r.to_multiset() =~= r0.to_multiset().insert(e));
    }
}

/// A text with backslashes and double quotes escaped by a backslash.
pub open spec fn escape_quoted(s: Seq<char>) -> Seq<char>
    decreases s.len(),
{
    if s.len() == 0 {
        s
    } else {
        let c = s.last();
        escape_quoted(s.drop_last()) + if c == '\\' { seq!['\\', '\\'] } else if c == '"' { seq!['\\', '"'] } else { seq![c] }
    }
}

/// The YAML lines of one entry.
pub open spec fn yaml_entry(e: (Seq<char>, Seq<char>)) -> Seq<char> {
    "    - term: "@ + e.0 + "\n"@ + "      definition: \""@ + escape_quoted(e.1) + "\"\n"@
}

/// The YAML lines of entries, in order.
pub open spec fn yaml_entries(s: Seq<(Seq<char>, Seq<char>)>) -> Seq<char>
    decreases s.len(),
{
    if s.len() == 0 {
        Seq::empty()
    } else {
        yaml_entries(s.drop_last()) + yaml_entry(s.last())
    }
}

/// The YAML block of one domain: its key, then its entries sorted by term.
pub open spec fn yaml_domain(key: Seq<char>, s: Seq<(Seq<char>, Seq<char>)>) -> Seq<char> {
    "  "@ + key + ":\n"@ + yaml_entries(sort_by_term(s))
}

/// The comment header of the workspace file and its top-level key.
pub open spec fn yaml_header() -> Seq<char> {
    "# hLexicon Workspace Registry\n"@
        + "# DERIVED ARTIFACT — do not hand-edit term definitions.\n"@
        + "# Canonical source: docs/architecture/reference/hKask-hLexicon.md\n"@
        + "# Regenerate after editing the markdown:\n"@
        + "#   cargo test -p hkask-templates regenerate_workspace_yaml -- --ignored\n"@
        + "# The hlexicon_yaml_matches_markdown test fails if this drifts.\n"@
        + "\n"@
        + "hlexicon:\n"@
}

/// The workspace YAML of a catalog: the header, then the word-act, flow-def
/// and know-act domains.
pub open spec fn workspace_yaml(es: Seq<(Seq<char>, Seq<char>, TemplateType)>) -> Seq<char> {
    yaml_header() + yaml_domain("wordact"@, of_domain(es, TemplateType::WordAct))
        + yaml_domain("flowdef"@, of_domain(es, TemplateType::FlowDef))
        + yaml_domain("knowact"@, of_domain(es, TemplateType::KnowAct))
}

/// Whether `a` sorts before `b`.
fn str_less_exec(a: &str, b: &str) -> (r: bool)
    ensures
        r == str_less(a@, b@),
{
    let x = crate::text::str_chars(a);
    let y = crate::text::str_chars(b);
    let mut i: usize = 0;
    proof {
        assert(x@.skip(0) =~= x@);
        assert(y@.skip(0) =~= y@);
    }
    while i < x.len() && i < y.len() && x[i] == y[i]
        invariant
            i <= x@.len(),
            i <= y@.len(),
            x@ == a@,
            y@ == b@,
            str_less(a@, b@) == str_less(x@.skip(i as int), y@.skip(i as int)),
        decreases x@.len() - i,
    {
        proof {
            assert(x@.skip(i as int).drop_first() =~= x@.skip(i + 1));
            assert(y@.skip(i as int).drop_first() =~= y@.skip(i + 1));
        }
        i = i + 1;
    }
    if i == y.len() {
        return false;
    }
    if i == x.len() {
        return true;
    }
    (x[i] as u32) < (y[i] as u32)
}

/// Append the escaped form of `s` to `out`.
fn push_escaped(out: &mut String, s: &str)
    ensures
        final(out)@ == old(out)@ + escape_quoted(s@),
{
    let v = crate::text::str_chars(s);
    let mut i: usize = 0;
    while i < v.len()
        invariant
            i <= v@.len(),
            v@ == s@,
            out@ == old(out)@ + escape_quoted(s@.take(i as int)),
        decreases v@.len() - i,
    {
        proof {
            assert(s@.take(i + 1).drop_last() =~= s@.take(i as int));
            assert(s@.take(i + 1).last() == v@[i as int]);
            reveal_strlit("\\\\");
            reveal_strlit("\\\"");
        }
        let c = v[i];
        if c == '\\' {
            out.append("\\\\");
        } else if c == '"' {
            out.append("\\\"");
        } else {
            out.append(s.substring_char(i, i + 1));
            proof {
                assert(s@.subrange(i as int, i + 1) =~= seq![c]);
            }
        }
        proof {
            assert(out@ =~= old(out)@ + escape_quoted(s@.take(i + 1)));
        }
        i = i + 1;
    }
    proof {
        assert(s@.take(v@.len() as int) =~= s@);
    }
}

/// Append the YAML block of domain `d` under `key`.
fn render_domain(yaml: &mut String, key: &str, terms: &Vec<CatalogEntry>, d: TemplateType)
    ensures
        final(yaml)@ == old(yaml)@ + yaml_domain(key@, of_domain(catalog_view(terms@), d)),
{
    let ghost es = catalog_view(terms@);
    let mut sorted: Vec<usize> = Vec::new();
    let mut k: usize = 0;
    while k < terms.len()
        invariant
            k <= terms@.len(),
            es == catalog_view(terms@),
            forall|j: int| 0 <= j < sorted@.len() ==> #[trigger] sorted@[j] < terms@.len(),
            sorted@.map_values(|i: usize| (terms@[i as int].0@, terms@[i as int].1@))
                == sort_by_term(of_domain(es.take(k as int), d)),
        decreases terms@.len() - k,
    {
        proof {
            assert(es.take(k + 1).drop_last() =~= es.take(k as int));
            assert(es.take(k + 1).last() == (terms@[k as int].0@, terms@[k as int].1@, terms@[k as int].2));
        }
        if terms[k].2 == d {
            let ghost view = sorted@.map_values(|i: usize| (terms@[i as int].0@, terms@[i as int].1@));
            let t = terms[k].0.as_str();
            let mut j: usize = 0;
            proof {
                assert(view.skip(0) =~= view);
            }
            while j < sorted.len() && !str_less_exec(t, terms[sorted[j]].0.as_str())
                invariant
                    j <= sorted@.len(),
                    forall|q: int| 0 <= q < sorted@.len() ==> #[trigger] sorted@[q] < terms@.len(),
                    view == sorted@.map_values(|i: usize| (terms@[i as int].0@, terms@[i as int].1@)),
                    k < terms@.len(),
                    t@ == terms@[k as int].0@,
                    insert_pos(view, t@) == j + insert_pos(view.skip(j as int), t@),
                decreases sorted@.len() - j,
            {
                proof {
                    assert(view.skip(j as int).drop_first() =~= view.skip(j + 1));
                    assert(view.skip(j as int)[0] == view[j as int]);
                }
                j = j + 1;
            }
            proof {
                if j < sorted@.len() {
                    assert(view.skip(j as int)[0] == view[j as int]);
                } else {
                    assert(view.skip(j as int) =~= Seq::<(Seq<char>, Seq<char>)>::empty());
                }
                assert(insert_pos(view, t@) == j);
            }
            sorted.insert(j, k);
            proof {
                let e = (terms@[k as int].0@, terms@[k as int].1@);
                let prev = of_domain(es.take(k as int), d);
                let nv = sorted@.map_values(|i: usize| (terms@[i as int].0@, terms@[i as int].1@));
                assert(nv =~= view.insert(j as int, e));
                assert(of_domain(es.take(k + 1), d) == prev.push(e));
                assert(prev.push(e).drop_last() =~= prev);
                assert(prev.push(e).last() == e);
                assert(sort_by_term(prev.push(e)) == sort_by_term(prev).insert(insert_pos(sort_by_term(prev), e.0), e));
            }
        }
        k = k + 1;
    }
    proof {
        assert(es.take(terms@.len() as int) =~= es);
    }
    yaml.append("  ");
    yaml.append(key);
    yaml.append(":\n");
    let ghost head = yaml@;
    let ghost sv = sorted@.map_values(|i: usize| (terms@[i as int].0@, terms@[i as int].1@));
    let mut i: usize = 0;
    while i < sorted.len()
        invariant
            i <= sorted@.len(),
            forall|j: int| 0 <= j < sorted@.len() ==> #[trigger] sorted@[j] < terms@.len(),
            sv == sorted@.map_values(|i: usize| (terms@[i as int].0@, terms@[i as int].1@)),
            yaml@ == head + yaml_entries(sv.take(i as int)),
        decreases sorted@.len() - i,
    {
        let e = &terms[sorted[i]];
        yaml.append("    - term: ");
        yaml.append(e.0.as_str());
        yaml.append("\n");
        yaml.append("      definition: \"");
        push_escaped(yaml, e.1.as_str());
        yaml.append("\"\n");
        proof {
            assert(sv.take(i + 1).drop_last() =~= sv.take(i as int));
            assert(sv.take(i + 1).last() == sv[i as int]);
            assert(yaml@ =~= head + yaml_entries(sv.take(i + 1)));
        }
        i = i + 1;
    }
    proof {
        assert(sv.take(sorted@.len() as int) =~= sv);
    }
}

/// The workspace YAML of a catalog.
pub fn render_workspace_yaml(terms: &Vec<CatalogEntry>) -> (r: Result<String, String>)
    ensures
        r matches Ok(y) && y@ == workspace_yaml(catalog_view(terms@)),
{
    let mut yaml = String::new();
    yaml.append("# hLexicon Workspace Registry\n");
    yaml.append("# DERIVED ARTIFACT — do not hand-edit term definitions.\n");
    yaml.append("# Canonical source: docs/architecture/reference/hKask-hLexicon.md\n");
    yaml.append("# Regenerate after editing the markdown:\n");
    yaml.append("#   cargo test -p hkask-templates regenerate_workspace_yaml -- --ignored\n");
    yaml.append("# The hlexicon_yaml_matches_markdown test fails if this drifts.\n");
    yaml.append("\n");
    yaml.append("hlexicon:\n");
    render_domain(&mut yaml, "wordact", terms, TemplateType::WordAct);
    render_domain(&mut yaml, "flowdef", terms, TemplateType::FlowDef);
    render_domain(&mut yaml, "knowact", terms, TemplateType::KnowAct);
    proof {
        assert(yaml@ =~= workspace_yaml(catalog_view(terms@)));
    }
    Ok(yaml)
}

/// The workspace YAML of the catalog of `markdown`, or why there is none.
pub fn regenerate_workspace_yaml(markdown: &str) -> (r: Result<String, String>)
    ensures
        catalog_of(markdown@).len() == 0 ==> (r matches Err(m) && m@ == no_terms_message()),
        catalog_of(markdown@).len() > 0 ==> (r matches Ok(y) && y@ == workspace_yaml(catalog_of(markdown@))),
{
    let catalog = match parse_markdown_catalog(markdown) {
        Ok(c) => c,
        Err(e) => return Err(e),
    };
    render_workspace_yaml(&catalog)
}

} // verus!
