//! The decisions of the user store that do not touch its database: the
//! replicant name made from a display name, the names tried when that one
//! is taken, the age of a passphrase, and the store's errors.
use vstd::prelude::*;
use vstd::string::*;
use uuid::Uuid;
use crate::audit::{fresh_uuid, hex_digit, uuid_value};
use vstd::arithmetic::power::pow;
use crate::decimal::{decimal, push_decimal};
use crate::lexicon::is_ws;

verus! {

/// Why a user-store operation failed.
#[derive(Debug, Clone)]
pub enum UserStoreError {
    /// The storage underneath failed; the text says how.
    Infra(String),
    NotFound(String),
    ReplicantNameTaken(String),
    InvalidCredentials,
    Encryption(String),
    Decryption(String),
    KeyDerivation(String),
    PasswordHash(String),
    /// The passphrase expired this many days ago.
    PassphraseExpired(i64),
}

/// The text of a user-store error.
pub open spec fn user_error_text(e: UserStoreError) -> Seq<char> {
    match e {
        UserStoreError::Infra(m) => m@,
        UserStoreError::NotFound(m) => "User not found: "@ + m@,
        UserStoreError::ReplicantNameTaken(m) => "Replicant name already registered: "@ + m@,
        UserStoreError::InvalidCredentials => "Invalid credentials"@,
        UserStoreError::Encryption(m) => "Encryption error: "@ + m@,
        UserStoreError::Decryption(m) => "Decryption error: "@ + m@,
        UserStoreError::KeyDerivation(m) => "Key derivation error: "@ + m@,
        UserStoreError::PasswordHash(m) => "Password hash error: "@ + m@,
        UserStoreError::PassphraseExpired(d) => "Passphrase expired "@ + signed_decimal(d as int) + " days ago — must change"@,
    }
}

/// The decimal text of `n`, with a `-` when it is negative.
pub open spec fn signed_decimal(n: int) -> Seq<char> {
    if n < 0 { "-"@ + decimal((-n) as nat) } else { decimal(n as nat) }
}

fn push_signed(out: &mut String, n: i64)
    ensures
        final(out)@ == old(out)@ + signed_decimal(n as int),
{
    if n < 0 {
        out.append("-");
        let m: u64 = (-(n as i128)) as u64;
        push_decimal(out, m);
        proof {
            reveal_strlit("-");
        }
    } else {
        push_decimal(out, n as u64);
    }
}

impl UserStoreError {
    /// The text of the error.
    pub fn message(&self) -> (r: String)
        ensures
            r@ == user_error_text(*self),
    {
        let (head, m) = match self {
            UserStoreError::Infra(m) => ("", m.as_str()),
            UserStoreError::NotFound(m) => ("User not found: ", m.as_str()),
            UserStoreError::ReplicantNameTaken(m) => ("Replicant name already registered: ", m.as_str()),
            UserStoreError::InvalidCredentials => ("Invalid credentials", ""),
            UserStoreError::Encryption(m) => ("Encryption error: ", m.as_str()),
            UserStoreError::Decryption(m) => ("Decryption error: ", m.as_str()),
            UserStoreError::KeyDerivation(m) => ("Key derivation error: ", m.as_str()),
            UserStoreError::PasswordHash(m) => ("Password hash error: ", m.as_str()),
            UserStoreError::PassphraseExpired(d) => {
                let mut r = String::from_str("Passphrase expired ");
                push_signed(&mut r, *d);
                r.append(" days ago — must change");
                return r;
            },
        };
        let mut r = String::from_str(head);
        r.append(m);
        proof {
            reveal_strlit("");
        }
        r
    }
}

// ── Replicant names ──────────────────────────────────────────────────────────

/// Whether `char::is_alphanumeric` holds of `c`: the character is Unicode
/// Alphabetic or Numeric.
pub uninterp spec fn alphanumeric(c: char) -> bool;

/// Calls `char::is_alphanumeric`. Of ASCII characters, it holds of the
/// letters and digits and of no other.
#[verifier::external_body]
fn is_alphanumeric(c: char) -> (r: bool)
    ensures
        r == alphanumeric(c),
        (c as u32) < 128 ==> (r <==> ascii_alnum(c)),
{
    c.is_alphanumeric()
}

/// The `k`-th of the 32 lower-case hexadecimal digits of `v`, the most
/// significant first.
pub open spec fn uuid_digit(v: u128, k: int) -> char {
    hex_digit(((v as int / pow(16, (31 - k) as nat)) % 16) as u8)
}

/// The text of a UUID of value `v` as `Uuid::to_string` gives it: its 32
/// lower-case hexadecimal digits in groups of 8, 4, 4, 4 and 12, joined by
/// `-`.
pub open spec fn uuid_text_of(v: u128) -> Seq<char> {
    let d = Seq::new(32, |k: int| uuid_digit(v, k));
    d.subrange(0, 8) + seq!['-'] + d.subrange(8, 12) + seq!['-'] + d.subrange(12, 16) + seq!['-']
        + d.subrange(16, 20) + seq!['-'] + d.subrange(20, 32)
}

/// A UUID's text has 36 characters, the first eight of them hexadecimal
/// digits.
proof fn lemma_uuid_text(v: u128)
    ensures
        uuid_text_of(v).len() == 36,
        forall|i: int| 0 <= i < 8 ==> #[trigger] hex_char(uuid_text_of(v)[i]),
{
    let d = Seq::new(32, |k: int| uuid_digit(v, k));
    assert forall|i: int| 0 <= i < 8 implies #[trigger] hex_char(uuid_text_of(v)[i]) by {
        assert(uuid_text_of(v)[i] == d[i]);
        let n = (v as int / pow(16, (31 - i) as nat)) % 16;
        assert(0 <= n < 16);
        let b = n as u8;
        assert(b == n);
        if b < 10 {
            assert((('0' as u8) + b) as char as u32 == 48 + b);
        } else {
            assert((('a' as u8) + b - 10) as char as u32 == 97 + b - 10);
        }
    }
}

/// A lower-case hexadecimal digit.
pub open spec fn hex_char(c: char) -> bool {
    48 <= (c as u32) <= 57 || 97 <= (c as u32) <= 102
}

/// Calls `Uuid::to_string`: the hyphenated lower-case form of the UUID's
/// value.
#[verifier::external_body]
fn uuid_text(u: &Uuid) -> (r: String)
    ensures
        r@ == uuid_text_of(uuid_value(*u)),
{
    u.to_string()
}

/// The character a display-name character becomes: kept when alphanumeric,
/// `-` or `_`; white space becomes `_`, anything else `-`.
pub open spec fn name_char(c: char) -> char {
    if alphanumeric(c) || c == '-' || c == '_' {
        c
    } else if is_ws(c) {
        '_'
    } else {
        '-'
    }
}

/// `c` is `-` or `_`.
pub open spec fn is_dash(c: char) -> bool {
    c == '-' || c == '_'
}

/// `s` without `-` and `_` at either end.
pub open spec fn trim_dashes(s: Seq<char>) -> Seq<char>
    decreases s.len(),
{
    if s.len() > 0 && is_dash(s[0]) {
        trim_dashes(s.drop_first())
    } else if s.len() > 0 && is_dash(s.last()) {
        trim_dashes(s.drop_last())
    } else {
        s
    }
}

/// The name a display name sanitizes to before the fallback: its characters
/// mapped, dashes trimmed from the ends, cut to 64 characters.
pub open spec fn sanitized_name(display: Seq<char>) -> Seq<char> {
    let t = trim_dashes(display.map_values(|c: char| name_char(c)));
    if t.len() > 64 { t.take(64) } else { t }
}

/// `r` is a fallback replicant name: `user-` and eight hexadecimal digits.
pub open spec fn fallback_name(r: Seq<char>) -> bool {
    r.len() == 13 && r.take(5) == "user-"@ && forall|i: int| 5 <= i < 13 ==> #[trigger] hex_char(r[i])
}

/// An ASCII letter or digit.
pub open spec fn ascii_alnum(c: char) -> bool {
    48 <= (c as u32) <= 57 || 65 <= (c as u32) <= 90 || 97 <= (c as u32) <= 122
}

/// A character a replicant name may hold: `-`, `_`, an alphanumeric
/// character, or an ASCII letter or digit (which `char::is_alphanumeric`
/// documents as alphanumeric too).
pub open spec fn replicant_char(c: char) -> bool {
    c == '-' || c == '_' || alphanumeric(c) || ascii_alnum(c)
}

/// Trimming keeps only characters of `s`.
proof fn lemma_trim_keeps(s: Seq<char>)
    requires
        forall|i: int| 0 <= i < s.len() ==> replicant_char(#[trigger] s[i]),
    ensures
        forall|i: int| 0 <= i < trim_dashes(s).len() ==> replicant_char(#[trigger] trim_dashes(s)[i]),
        trim_dashes(s).len() <= s.len(),
    decreases s.len(),
{
    if s.len() > 0 && is_dash(s[0]) {
        let t = s.drop_first();
        assert forall|i: int| 0 <= i < t.len() implies replicant_char(#[trigger] t[i]) by {
            assert(t[i] == s[i + 1]);
        }
        lemma_trim_keeps(t);
    } else if s.len() > 0 && is_dash(s.last()) {
        let t = s.drop_last();
        assert forall|i: int| 0 <= i < t.len() implies replicant_char(#[trigger] t[i]) by {
            assert(t[i] == s[i]);
        }
        lemma_trim_keeps(t);
    }
}

/// No character of `s` is alphanumeric, `-` and `_` aside (neither of
/// which `char::is_alphanumeric` accepts).
pub open spec fn no_alphanumeric(s: Seq<char>) -> bool {
    forall|i: int| 0 <= i < s.len() ==> alphanumeric(#[trigger] s[i]) ==> is_dash(s[i])
}

/// Trimming leaves nothing exactly when every character is `-` or `_`.
proof fn lemma_trim_empty(s: Seq<char>)
    ensures
        trim_dashes(s).len() == 0 <==> forall|i: int| 0 <= i < s.len() ==> is_dash(#[trigger] s[i]),
    decreases s.len(),
{
    if s.len() > 0 && is_dash(s[0]) {
        let t = s.drop_first();
        lemma_trim_empty(t);
        if forall|i: int| 0 <= i < t.len() ==> is_dash(#[trigger] t[i]) {
            assert forall|i: int| 0 <= i < s.len() implies is_dash(#[trigger] s[i]) by {
                if i > 0 {
                    assert(s[i] == t[i - 1]);
                }
            }
        }
        if forall|i: int| 0 <= i < s.len() ==> is_dash(#[trigger] s[i]) {
            assert forall|i: int| 0 <= i < t.len() implies is_dash(#[trigger] t[i]) by {
                assert(t[i] == s[i + 1]);
            }
        }
    } else if s.len() > 0 && is_dash(s.last()) {
        let t = s.drop_last();
        lemma_trim_empty(t);
        if forall|i: int| 0 <= i < t.len() ==> is_dash(#[trigger] t[i]) {
            assert forall|i: int| 0 <= i < s.len() implies is_dash(#[trigger] s[i]) by {
                if i < s.len() - 1 {
                    assert(s[i] == t[i]);
                }
            }
        }
        if forall|i: int| 0 <= i < s.len() ==> is_dash(#[trigger] s[i]) {
            assert forall|i: int| 0 <= i < t.len() implies is_dash(#[trigger] t[i]) by {
                assert(t[i] == s[i]);
            }
        }
    } else if s.len() > 0 {
        assert(!is_dash(s[0]));
    }
}

/// A display name sanitizes to nothing exactly when it has no
/// alphanumeric character.
proof fn lemma_empty_iff_no_alphanumeric(display: Seq<char>)
    ensures
        sanitized_name(display).len() == 0 <==> no_alphanumeric(display),
{
    let m = display.map_values(|c: char| name_char(c));
    lemma_trim_empty(m);
    if no_alphanumeric(display) {
        assert forall|i: int| 0 <= i < m.len() implies is_dash(#[trigger] m[i]) by {
            assert(m[i] == name_char(display[i]));
        }
    }
    if forall|i: int| 0 <= i < m.len() ==> is_dash(#[trigger] m[i]) {
        assert forall|i: int| 0 <= i < display.len() implies alphanumeric(#[trigger] display[i]) ==> is_dash(display[i]) by {
            assert(m[i] == name_char(display[i]));
            assert(is_dash(m[i]));
        }
    }
    let t = trim_dashes(m);
    if t.len() > 64 {
        assert(t.take(64).len() == 64);
    }
}

/// A sanitized name holds at most 64 characters, each one a replicant
/// name character.
proof fn lemma_sanitized_chars(display: Seq<char>)
    ensures
        sanitized_name(display).len() <= 64,
        forall|i: int| 0 <= i < sanitized_name(display).len() ==> replicant_char(#[trigger] sanitized_name(display)[i]),
{
    let m = display.map_values(|c: char| name_char(c));
    assert forall|i: int| 0 <= i < m.len() implies replicant_char(#[trigger] m[i]) by {
        assert(m[i] == name_char(display[i]));
    }
    lemma_trim_keeps(m);
    let t = trim_dashes(m);
    if t.len() > 64 {
        assert forall|i: int| 0 <= i < t.take(64).len() implies replicant_char(#[trigger] t.take(64)[i]) by {
            assert(t.take(64)[i] == t[i]);
        }
    }
}

fn dash_window(c: &Vec<char>) -> (r: (usize, usize))
    ensures
        r.0 <= r.1 <= c@.len(),
        c@.subrange(r.0 as int, r.1 as int) == trim_dashes(c@),
{
    let n = c.len();
    let mut i: usize = 0;
    let mut j: usize = n;
    proof {
        assert(c@.subrange(0, n as int) =~= c@);
    }
    while i < j && (c[i] == '-' || c[i] == '_' || c[j - 1] == '-' || c[j - 1] == '_')
        invariant
            i <= j <= n,
            n == c@.len(),
            trim_dashes(c@) == trim_dashes(c@.subrange(i as int, j as int)),
        decreases j - i,
    {
        if c[i] == '-' || c[i] == '_' {
            proof {
                assert(c@.subrange(i as int, j as int).drop_first() =~= c@.subrange(i + 1, j as int));
            }
            i = i + 1;
        } else {
            proof {
                assert(c@.subrange(i as int, j as int).drop_last() =~= c@.subrange(i as int, j - 1));
            }
            j = j - 1;
        }
    }
    (i, j)
}

/// Sanitize a display name into a replicant name: alphanumeric characters,
/// `-` and `_` kept, white space turned into `_` and anything else into
/// `-`, dashes trimmed from the ends, at most 64 characters; a name left
/// empty becomes `user-` and the first eight characters of a fresh UUID.
/// Either way the name has 1 to 64 characters, each alphanumeric, `-` or `_`.
pub fn sanitize_replicant_name(display_name: &str) -> (r: String)
    ensures
        1 <= r@.len() <= 64,
        forall|i: int| 0 <= i < r@.len() ==> replicant_char(#[trigger] r@[i]),
        sanitized_name(display_name@).len() > 0 ==> r@ == sanitized_name(display_name@),
        sanitized_name(display_name@).len() == 0 ==> fallback_name(r@),
        sanitized_name(display_name@).len() == 0 <==> no_alphanumeric(display_name@),
{
    let d = crate::text::str_chars(display_name);
    let mut mapped: Vec<char> = Vec::new();
    let mut i: usize = 0;
    while i < d.len()
        invariant
            i <= d@.len(),
            d@ == display_name@,
            mapped@ == d@.take(i as int).map_values(|c: char| name_char(c)),
        decreases d@.len() - i,
    {
        let c = d[i];
        let m = if is_alphanumeric(c) || c == '-' || c == '_' {
            c
        } else if crate::lexicon::is_ws_exec(c) {
            '_'
        } else {
            '-'
        };
        mapped.push(m);
        proof {
            assert(d@.take(i + 1).map_values(|c: char| name_char(c)) =~= d@.take(i as int).map_values(|c: char| name_char(c)).push(name_char(c)));
        }
        i = i + 1;
    }
    proof {
        assert(d@.take(d@.len() as int) =~= d@);
        assert forall|j: int| 0 <= j < d@.len() implies #[trigger] mapped@[j] == name_char(d@[j]) by {}
    }
    proof {
        lemma_empty_iff_no_alphanumeric(display_name@);
    }
    let (a, b) = dash_window(&mapped);
    if a == b {
        let u = fresh_uuid();
        let text = uuid_text(&u);
        proof {
            lemma_uuid_text(uuid_value(u));
        }
        let mut r = String::from_str("user-");
        r.append(text.as_str().substring_char(0, 8));
        proof {
            reveal_strlit("user-");
            assert(r@.take(5) =~= "user-"@);
            assert forall|k: int| 5 <= k < 13 implies #[trigger] hex_char(r@[k]) by {
                assert(r@[k] == text@[k - 5]);
            }
            assert forall|k: int| 0 <= k < r@.len() implies replicant_char(#[trigger] r@[k]) by {
                if k < 5 {
                    assert(r@[k] == "user-"@[k]);
                } else {
                    assert(hex_char(r@[k]));
                }
            }
        }
        return r;
    }
    let end = if b - a > 64 { a + 64 } else { b };
    let mut r = String::new();
    let mut k: usize = a;
    while k < end
        invariant
            a <= k <= end <= b <= mapped@.len(),
            mapped@.len() == d@.len(),
            d@ == display_name@,
            forall|j: int| 0 <= j < d@.len() ==> #[trigger] mapped@[j] == name_char(d@[j]),
            r@ == mapped@.subrange(a as int, k as int),
        decreases end - k,
    {
        proof {
            reveal_strlit("_");
            reveal_strlit("-");
        }
        if mapped[k] == d[k] {
            r.append(display_name.substring_char(k, k + 1));
        } else if mapped[k] == '_' {
            r.append("_");
        } else {
            r.append("-");
            proof {
                assert(mapped@[k as int] == '-');
            }
        }
        proof {
            assert(mapped@.subrange(a as int, k + 1) =~= mapped@.subrange(a as int, k as int).push(mapped@[k as int]));
        }
        k = k + 1;
    }
    proof {
        let t = mapped@.subrange(a as int, b as int);
        if t.len() > 64 {
            assert(t.take(64) =~= mapped@.subrange(a as int, end as int));
        }
        lemma_sanitized_chars(display_name@);
    }
    r
}

/// The next replicant name to try when a name is taken: the suffix counts
/// up from 2; past 100 the name takes the first eight characters of a
/// fresh UUID instead, and is the last one.
#[derive(Debug)]
pub struct NextName {
    pub suffix: u32,
    pub name: String,
    pub last: bool,
}

/// The name to try after the one with suffix `suffix` was taken.
pub fn next_replicant_name(base: &str, suffix: u32) -> (r: NextName)
    requires
        suffix <= 100,
    ensures
        r.suffix == suffix + 1,
        r.last == (suffix + 1 > 100),
        !r.last ==> r.name@ == base@ + "_"@ + decimal((suffix + 1) as nat),
        r.last ==> r.name@.len() == base@.len() + 9 && r.name@.take(base@.len() as int + 1) == base@ + "_"@
            && forall|i: int| base@.len() + 1 <= i < r.name@.len() ==> #[trigger] hex_char(r.name@[i]),
{
    let next = suffix + 1;
    let mut name = String::from_str(base);
    name.append("_");
    proof {
        reveal_strlit("_");
    }
    if next > 100 {
        let u = fresh_uuid();
        let text = uuid_text(&u);
        proof {
            lemma_uuid_text(uuid_value(u));
        }
        let ghost before = name@;
        name.append(text.as_str().substring_char(0, 8));
        proof {
            assert(name@.take(base@.len() as int + 1) =~= base@ + "_"@);
            assert forall|i: int| base@.len() + 1 <= i < name@.len() implies #[trigger] hex_char(name@[i]) by {
                assert(name@[i] == text@[i - base@.len() - 1]);
            }
        }
        NextName { suffix: next, name, last: true }
    } else {
        push_decimal(&mut name, next as u64);
        NextName { suffix: next, name, last: false }
    }
}

/// Some name of `taken` is `n`.
pub open spec fn name_taken(taken: Seq<String>, n: Seq<char>) -> bool {
    exists|i: int| 0 <= i < taken.len() && #[trigger] taken[i]@ == n
}

/// `base` with suffix `k`.
pub open spec fn numbered(base: Seq<char>, k: int) -> Seq<char> {
    base + "_"@ + decimal(k as nat)
}

/// Every numbered name from 2 up to, not including, `k` is taken.
pub open spec fn taken_below(taken: Seq<String>, base: Seq<char>, k: int) -> bool {
    forall|j: int| 2 <= j < k ==> #[trigger] name_taken(taken, numbered(base, j))
}

/// `r` is the name picked for `base` when `taken` are taken: `base` when
/// free; otherwise `base` with the first free suffix from 2 to 100; when
/// all of those are taken, `base`, `_` and eight hexadecimal digits.
pub open spec fn picked_name(taken: Seq<String>, base: Seq<char>, r: Seq<char>) -> bool {
    if !name_taken(taken, base) {
        r == base
    } else if !taken_below(taken, base, 101) {
        exists|k: int| 2 <= k <= 100 && r == numbered(base, k) && !name_taken(taken, r) && taken_below(taken, base, k)
    } else {
        r.len() == base.len() + 9 && r.take(base.len() + 1int) == base + "_"@
            && forall|i: int| base.len() + 1 <= i < r.len() ==> #[trigger] hex_char(r[i])
    }
}

fn is_taken(taken: &Vec<String>, n: &str) -> (r: bool)
    ensures
        r == name_taken(taken@, n@),
{
    let mut i: usize = 0;
    while i < taken.len()
        invariant
            i <= taken@.len(),
            forall|j: int| 0 <= j < i ==> taken@[j]@ != n@,
        decreases taken@.len() - i,
    {
        if crate::text::str_eq(taken[i].as_str(), n) {
            return true;
        }
        i = i + 1;
    }
    false
}

/// The replicant name for a new OAuth user named `display_name`, given
/// the names already `taken`: the sanitized display name, counted up from
/// `_2` to `_100` while taken, and past that given eight hexadecimal digits
/// of a fresh UUID.
pub fn dedup_replicant_name(display_name: &str, taken: &Vec<String>) -> (r: String)
    ensures
        exists|base: Seq<char>| #[trigger] picked_name(taken@, base, r@)
            && (sanitized_name(display_name@).len() > 0 ==> base == sanitized_name(display_name@))
            && (sanitized_name(display_name@).len() == 0 ==> fallback_name(base)),
{
    let base = sanitize_replicant_name(display_name);
    if !is_taken(taken, base.as_str()) {
        proof {
            assert(picked_name(taken@, base@, base@));
        }
        return base;
    }
    let mut suffix: u32 = 1;
    loop
        invariant
            1 <= suffix <= 100,
            name_taken(taken@, base@),
            taken_below(taken@, base@, suffix as int + 1),
            sanitized_name(display_name@).len() > 0 ==> base@ == sanitized_name(display_name@),
            sanitized_name(display_name@).len() == 0 ==> fallback_name(base@),
        decreases 100 - suffix,
    {
        let next = next_replicant_name(base.as_str(), suffix);
        if next.last {
            proof {
                assert(taken_below(taken@, base@, 101));
                assert(picked_name(taken@, base@, next.name@));
            }
            return next.name;
        }
        proof {
            assert(next.name@ == numbered(base@, next.suffix as int));
        }
        if !is_taken(taken, next.name.as_str()) {
            proof {
                assert(!taken_below(taken@, base@, 101)) by {
                    assert(!name_taken(taken@, numbered(base@, next.suffix as int)));
                }
                assert(picked_name(taken@, base@, next.name@));
            }
            return next.name;
        }
        suffix = next.suffix;
    }
}

// ── Passphrases ──────────────────────────────────────────────────────────────

/// Whole days in `seconds`, rounded toward zero.
pub open spec fn whole_days(seconds: int) -> int {
    if seconds >= 0 { seconds / 86400 } else { -((-seconds) / 86400) }
}

/// The age in days of a passphrase set at `set_at` when it is `now`, when
/// it is older than `max_age_days`; none when it is not, or when the time
/// it was set is unknown.
pub fn passphrase_expiry(now: i64, set_at: Option<i64>, max_age_days: i64) -> (r: Option<i64>)
    requires
        set_at matches Some(s) ==> i64::MIN <= now - s <= i64::MAX,
    ensures
        match set_at {
            None => r is None,
            Some(s) => if whole_days(now - s) > max_age_days {
                r == Some(whole_days(now - s) as i64)
            } else {
                r is None
            },
        },
{
    match set_at {
        None => None,
        Some(s) => {
            let age = now - s;
            let days: i64 = if age >= 0 {
                age / 86400
            } else {
                let pos: i128 = -(age as i128);
                -((pos / 86400) as i64)
            };
            if days > max_age_days {
                Some(days)
            } else {
                None
            }
        },
    }
}

} // verus!
