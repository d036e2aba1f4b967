use vstd::prelude::*;
use vstd::string::StrSliceExecFns;

use crate::text::{
    decimal, decimal_text, digits_value, find_char, first_index_of, is_decimal, lemma_decimal,
    lemma_decimal_canonical, lemma_first_index_of, lemma_first_index_of_props, parse_decimal,
    parse_number, digits_part, is_number_text, is_digit,
};

verus! {

/// A schema version: `major.minor.patch`, ordered field by field.
#[derive(Clone, Copy, Debug, PartialEq, Eq, Structural, Hash, PartialOrd, Ord)]
pub struct SchemaVersion {
    pub major: u32,
    pub minor: u32,
    pub patch: u32,
}

#[derive(Debug, Clone)]
pub enum SchemaVersionError {
    InvalidFormat(String),
}

impl SchemaVersionError {
    pub fn message(&self) -> (r: String)
        ensures
            match self {
                SchemaVersionError::InvalidFormat(s) => r@ == "Invalid version format: "@ + s@,
            },
    {
        match self {
            SchemaVersionError::InvalidFormat(s) => {
                let mut m = String::from_str("Invalid version format: ");
                m.append(s.as_str());
                m
            },
        }
    }
}

/// The three dot-separated parts of `s`, where it has exactly two dots.
pub open spec fn dotted_parts(s: Seq<char>) -> Option<(Seq<char>, Seq<char>, Seq<char>)> {
    let i = first_index_of(s, '.');
    if i < 0 {
        None
    } else {
        let rest = s.subrange(i + 1, s.len() as int);
        let j = first_index_of(rest, '.');
        if j < 0 {
            None
        } else {
            let c = rest.subrange(j + 1, rest.len() as int);
            if c.contains('.') {
                None
            } else {
                Some((s.subrange(0, i), rest.subrange(0, j), c))
            }
        }
    }
}

pub open spec fn fits_u32(s: Seq<char>) -> bool {
    is_decimal(s) && digits_value(s) <= u32::MAX
}

/// The number that a part of a version spells: strictly, a decimal without
/// leading zeros; leniently, as `u32` parsing reads it.
pub open spec fn part_value(p: Seq<char>, lenient: bool) -> Option<u32> {
    if lenient {
        if is_number_text(p) && digits_value(digits_part(p)) <= u32::MAX {
            Some(digits_value(digits_part(p)) as u32)
        } else {
            None
        }
    } else {
        if fits_u32(p) {
            Some(digits_value(p) as u32)
        } else {
            None
        }
    }
}

/// The version that `s` spells, read strictly or leniently.
pub open spec fn version_spec(s: Seq<char>, lenient: bool) -> Option<SchemaVersion> {
    match dotted_parts(s) {
        Some((a, b, c)) => match (part_value(a, lenient), part_value(b, lenient), part_value(c, lenient)) {
            (Some(x), Some(y), Some(z)) => Some(SchemaVersion { major: x, minor: y, patch: z }),
            _ => None,
        },
        None => None,
    }
}

/// The version that `s` spells in decimals without leading zeros, if any.
pub open spec fn parse_version_spec(s: Seq<char>) -> Option<SchemaVersion> {
    version_spec(s, false)
}

/// A part that reads strictly reads the same leniently.
proof fn lemma_strict_part_lenient(p: Seq<char>)
    ensures
        part_value(p, false) is Some ==> part_value(p, true) == part_value(p, false),
{
    if part_value(p, false) is Some {
        assert(is_digit(p[0]));
        assert(p[0] != '+');
        assert(digits_part(p) == p);
    }
}

/// Every version's text reads leniently as that version.
proof fn lemma_text_lenient(v: SchemaVersion)
    ensures
        version_spec(v.text(), true) == Some(v),
{
    lemma_parse_text(v);
    if let Some((a, b, c)) = dotted_parts(v.text()) {
        lemma_strict_part_lenient(a);
        lemma_strict_part_lenient(b);
        lemma_strict_part_lenient(c);
    }
}

/// What reads strictly reads the same leniently.
proof fn lemma_strict_lenient(s: Seq<char>)
    ensures
        version_spec(s, false) is Some ==> version_spec(s, true) == version_spec(s, false),
{
    if let Some((a, b, c)) = dotted_parts(s) {
        lemma_strict_part_lenient(a);
        lemma_strict_part_lenient(b);
        lemma_strict_part_lenient(c);
    }
}

impl SchemaVersion {
    pub fn new(major: u32, minor: u32, patch: u32) -> (r: Self)
        ensures
            r == (SchemaVersion { major, minor, patch }),
    {
        SchemaVersion { major, minor, patch }
    }

    /// Lexicographic order on (major, minor, patch).
    pub open spec fn precedes(self, other: SchemaVersion) -> bool {
        self.major < other.major || (self.major == other.major && (self.minor < other.minor || (
        self.minor == other.minor && self.patch < other.patch)))
    }

    pub fn is_before(&self, other: &SchemaVersion) -> (r: bool)
        ensures
            r == self.precedes(*other),
    {
        self.major < other.major || (self.major == other.major && (self.minor < other.minor || (
        self.minor == other.minor && self.patch < other.patch)))
    }

    /// `major.minor.patch` in decimal.
    pub open spec fn text(self) -> Seq<char> {
        decimal(self.major as nat) + seq!['.'] + decimal(self.minor as nat) + seq!['.'] + decimal(
            self.patch as nat,
        )
    }

    pub fn to_string(&self) -> (r: String)
        ensures
            r@ == self.text(),
    {
        let mut s = decimal_text(self.major as u64);
        s.append(".");
        s.append(decimal_text(self.minor as u64).as_str());
        s.append(".");
        s.append(decimal_text(self.patch as u64).as_str());
        proof {
            reveal_strlit(".");
            assert(s@ =~= self.text());
        }
        s
    }

    /// Reads `major.minor.patch`, each part read as `u32` parsing reads it
    /// (an optional `+`, then digits); the text of every version reads back
    /// as that version.
    pub fn parse(s: &str) -> (r: Result<SchemaVersion, SchemaVersionError>)
        ensures
            match r {
                Ok(v) => version_spec(s@, true) == Some(v),
                Err(SchemaVersionError::InvalidFormat(t)) => version_spec(s@, true) is None && t@
                    == s@ && forall|v: SchemaVersion| s@ != #[trigger] v.text(),
            },
            parse_version_spec(s@) is Some ==> r == Ok::<SchemaVersion, SchemaVersionError>(
                parse_version_spec(s@)->0,
            ) && s@ == parse_version_spec(s@)->0.text(),
    {
        let r = parse_version_in(s, 0, true);
        proof {
            assert(s@.subrange(0, s@.len() as int) =~= s@);
            lemma_strict_lenient(s@);
            if let Some(w) = parse_version_spec(s@) {
                lemma_parse_sound(s@, w);
            }
            if r is None {
                assert forall|v: SchemaVersion| s@ != #[trigger] v.text() by {
                    lemma_text_lenient(v);
                }
            }
        }
        match r {
            Some(v) => Ok(v),
            None => Err(SchemaVersionError::InvalidFormat(String::from_str(s))),
        }
    }
}

impl std::str::FromStr for SchemaVersion {
    type Err = SchemaVersionError;

    fn from_str(s: &str) -> Result<SchemaVersion, SchemaVersionError> {
        SchemaVersion::parse(s)
    }
}

/// A part of a version between `from` and `to`.
fn parse_part(s: &str, from: usize, to: usize, lenient: bool) -> (r: Option<u32>)
    requires
        from <= to <= s@.len(),
    ensures
        r == part_value(s@.subrange(from as int, to as int), lenient),
{
    if lenient {
        parse_number(s, from, to)
    } else {
        parse_decimal(s, from, to)
    }
}

/// Reads `major.minor.patch` from the text of `s` after position `from`.
fn parse_version_in(s: &str, from: usize, lenient: bool) -> (r: Option<SchemaVersion>)
    requires
        from <= s@.len(),
    ensures
        r == version_spec(s@.subrange(from as int, s@.len() as int), lenient),
{
    let ghost t = s@.subrange(from as int, s@.len() as int);
    let n = s.unicode_len();
    proof {
        lemma_first_index_of_props(t, '.');
    }
    match find_char(s, '.', from) {
        None => {
            proof {
                assert(!t.contains('.')) by {
                    if t.contains('.') {
                        let k = choose|k: int| 0 <= k < t.len() && t[k] == '.';
                        assert(s@[from + k] == '.');
                    }
                }
            }
            None
        },
        Some(i) => {
            proof {
                assert forall|k: int| 0 <= k < i - from implies t[k] != '.' by {
                    assert(t[k] == s@[from + k]);
                }
                lemma_first_index_of(t, '.', i - from);
                assert(t.subrange(0, i - from) =~= s@.subrange(from as int, i as int));
                assert(t.subrange(i - from + 1, t.len() as int) =~= s@.subrange(
                    i + 1,
                    s@.len() as int,
                ));
            }
            let ghost rest = s@.subrange(i + 1, s@.len() as int);
            proof {
                lemma_first_index_of_props(rest, '.');
            }
            match find_char(s, '.', i + 1) {
                None => {
                    proof {
                        assert(!rest.contains('.')) by {
                            if rest.contains('.') {
                                let k = choose|k: int| 0 <= k < rest.len() && rest[k] == '.';
                                assert(s@[i + 1 + k] == '.');
                            }
                        }
                    }
                    None
                },
                Some(j) => {
                    proof {
                        assert forall|k: int| 0 <= k < j - i - 1 implies rest[k] != '.' by {
                            assert(rest[k] == s@[i + 1 + k]);
                        }
                        lemma_first_index_of(rest, '.', j - i - 1);
                        assert(rest.subrange(0, j - i - 1) =~= s@.subrange(i + 1, j as int));
                        assert(rest.subrange(j - i, rest.len() as int) =~= s@.subrange(
                            j + 1,
                            s@.len() as int,
                        ));
                    }
                    let ghost c = s@.subrange(j + 1, s@.len() as int);
                    match find_char(s, '.', j + 1) {
                        Some(k) => {
                            proof {
                                assert(c[k - j - 1] == '.');
                            }
                            None
                        },
                        None => {
                            proof {
                                assert(!c.contains('.')) by {
                                    if c.contains('.') {
                                        let k = choose|k: int| 0 <= k < c.len() && c[k] == '.';
                                        assert(s@[j + 1 + k] == '.');
                                    }
                                }
                            }
                            let a = parse_part(s, from, i, lenient);
                            let b = parse_part(s, i + 1, j, lenient);
                            let p = parse_part(s, j + 1, n, lenient);
                            match (a, b, p) {
                                (Some(a), Some(b), Some(p)) => Some(SchemaVersion::new(a, b, p)),
                                _ => None,
                            }
                        },
                    }
                },
            }
        },
    }
}

proof fn lemma_no_dot_first(a: Seq<char>, rest: Seq<char>)
    requires
        !a.contains('.'),
    ensures
        first_index_of(a + seq!['.'] + rest, '.') == a.len(),
        (a + seq!['.'] + rest).subrange(0, a.len() as int) == a,
        (a + seq!['.'] + rest).subrange(a.len() as int + 1, (a + seq!['.'] + rest).len() as int) == rest,
{
    let s = a + seq!['.'] + rest;
    assert forall|j: int| 0 <= j < a.len() implies s[j] != '.' by {
        assert(s[j] == a[j]);
    }
    assert(s[a.len() as int] == '.');
    lemma_first_index_of(s, '.', a.len() as int);
    assert(s.subrange(0, a.len() as int) =~= a);
    assert(s.subrange(a.len() as int + 1, s.len() as int) =~= rest);
}

/// The text of a version parses back to it.
pub proof fn lemma_parse_text(v: SchemaVersion)
    ensures
        parse_version_spec(v.text()) == Some(v),
{
    let a = decimal(v.major as nat);
    let b = decimal(v.minor as nat);
    let c = decimal(v.patch as nat);
    lemma_decimal(v.major as nat);
    lemma_decimal(v.minor as nat);
    lemma_decimal(v.patch as nat);
    let rest = b + seq!['.'] + c;
    assert(v.text() =~= a + seq!['.'] + rest);
    lemma_no_dot_first(a, rest);
    lemma_no_dot_first(b, c);
}

/// A text that parses is the text of what it parses to.
pub proof fn lemma_parse_sound(s: Seq<char>, v: SchemaVersion)
    requires
        parse_version_spec(s) == Some(v),
    ensures
        s == v.text(),
{
    let i = first_index_of(s, '.');
    let rest = s.subrange(i + 1, s.len() as int);
    let j = first_index_of(rest, '.');
    let a = s.subrange(0, i);
    let b = rest.subrange(0, j);
    let c = rest.subrange(j + 1, rest.len() as int);
    lemma_first_index_of_props(s, '.');
    lemma_first_index_of_props(rest, '.');
    lemma_decimal_canonical(a);
    lemma_decimal_canonical(b);
    lemma_decimal_canonical(c);
    assert(rest =~= b + seq!['.'] + c);
    assert(s =~= a + seq!['.'] + rest);
}

/// A pinned image version: `vMAJOR.MINOR.PATCH`, optionally followed by
/// `-` and a non-empty suffix.
#[derive(Debug, Clone, PartialEq, Eq)]
pub struct PinnedVersion {
    pub version: SchemaVersion,
    pub suffix: Option<String>,
}

#[derive(Debug, Clone)]
pub enum PinnedVersionError {
    InvalidFormat(String),
}

/// The text of a pinned version.
pub open spec fn pinned_text(v: SchemaVersion, suffix: Option<Seq<char>>) -> Seq<char> {
    let core = seq!['v'] + v.text();
    match suffix {
        Some(x) => core + seq!['-'] + x,
        None => core,
    }
}

/// The version and suffix that `s` spells, if any.
pub open spec fn parse_pinned_spec(s: Seq<char>) -> Option<(SchemaVersion, Option<Seq<char>>)> {
    if s.len() == 0 || s[0] != 'v' {
        None
    } else {
        let rest = s.subrange(1, s.len() as int);
        let k = first_index_of(rest, '-');
        let core = if k < 0 {
            rest
        } else {
            rest.subrange(0, k)
        };
        let suffix = if k < 0 {
            None
        } else {
            Some(rest.subrange(k + 1, rest.len() as int))
        };
        match parse_version_spec(core) {
            Some(v) => match suffix {
                Some(x) => if x.len() > 0 {
                    Some((v, suffix))
                } else {
                    None
                },
                None => Some((v, None)),
            },
            None => None,
        }
    }
}

impl PinnedVersion {
    pub open spec fn suffix_view(self) -> Option<Seq<char>> {
        match self.suffix {
            Some(x) => Some(x@),
            None => None,
        }
    }

    pub open spec fn text(self) -> Seq<char> {
        pinned_text(self.version, self.suffix_view())
    }

    pub fn to_string(&self) -> (r: String)
        ensures
            r@ == self.text(),
    {
        let mut s = String::from_str("v");
        s.append(self.version.to_string().as_str());
        if let Some(x) = &self.suffix {
            s.append("-");
            s.append(x.as_str());
        }
        proof {
            reveal_strlit("v");
            reveal_strlit("-");
            assert(s@ =~= self.text());
        }
        s
    }

    /// Reads a pinned version; malformed text is refused.
    pub fn parse(s: &str) -> (r: Result<PinnedVersion, PinnedVersionError>)
        ensures
            match r {
                Ok(p) => parse_pinned_spec(s@) == Some((p.version, p.suffix_view())),
                Err(PinnedVersionError::InvalidFormat(t)) => parse_pinned_spec(s@) is None && t@
                    == s@,
            },
    {
        let n = s.unicode_len();
        if n == 0 || s.get_char(0) != 'v' {
            return Err(PinnedVersionError::InvalidFormat(String::from_str(s)));
        }
        let ghost rest = s@.subrange(1, s@.len() as int);
        proof {
            lemma_first_index_of_props(rest, '-');
        }
        match find_char(s, '-', 1) {
            None => {
                proof {
                    assert(!rest.contains('-')) by {
                        if rest.contains('-') {
                            let k = choose|k: int| 0 <= k < rest.len() && rest[k] == '-';
                            assert(s@[1 + k] == '-');
                        }
                    }
                }
                match parse_version_in(s, 1, false) {
                    Some(v) => Ok(PinnedVersion { version: v, suffix: None }),
                    None => Err(PinnedVersionError::InvalidFormat(String::from_str(s))),
                }
            },
            Some(k) => {
                proof {
                    assert forall|m: int| 0 <= m < k - 1 implies rest[m] != '-' by {
                        assert(rest[m] == s@[1 + m]);
                    }
                    lemma_first_index_of(rest, '-', k - 1);
                    assert(rest.subrange(0, k - 1) =~= s@.subrange(1, k as int));
                    assert(rest.subrange(k as int, rest.len() as int) =~= s@.subrange(
                        k + 1,
                        s@.len() as int,
                    ));
                }
                let core = s.substring_char(0, k);
                let parsed = parse_version_in(core, 1, false);
                proof {
                    assert(core@.subrange(1, core@.len() as int) =~= s@.subrange(1, k as int));
                }
                if k + 1 >= n {
                    return Err(PinnedVersionError::InvalidFormat(String::from_str(s)));
                }
                match parsed {
                    Some(v) => {
                        let suffix = String::from_str(s.substring_char(k + 1, n));
                        Ok(PinnedVersion { version: v, suffix: Some(suffix) })
                    },
                    None => Err(PinnedVersionError::InvalidFormat(String::from_str(s))),
                }
            },
        }
    }
}

/// Reading a pinned version back from its text gives it again, and every
/// text that reads as a pinned version is that version's text: for each
/// valid `vMAJOR.MINOR.PATCH(-suffix)` string, formatting what it parses to
/// gives the string back, suffix included.
pub proof fn pinned_version_round_trip(v: SchemaVersion, suffix: Option<Seq<char>>, s: Seq<char>)
    requires
        suffix matches Some(x) ==> x.len() > 0,
    ensures
        parse_pinned_spec(pinned_text(v, suffix)) == Some((v, suffix)),
        parse_pinned_spec(s) == Some((v, suffix)) ==> pinned_text(v, suffix) == s,
{
    let t = pinned_text(v, suffix);
    let vt = v.text();
    lemma_parse_text(v);
    lemma_text_has_no_dash(v);
    let rest = t.subrange(1, t.len() as int);
    match suffix {
        Some(x) => {
            assert(rest =~= vt + seq!['-'] + x);
            assert forall|m: int| 0 <= m < vt.len() implies rest[m] != '-' by {
                assert(rest[m] == vt[m]);
            }
            assert(rest[vt.len() as int] == '-');
            lemma_first_index_of(rest, '-', vt.len() as int);
            assert(rest.subrange(0, vt.len() as int) =~= vt);
            assert(rest.subrange(vt.len() as int + 1, rest.len() as int) =~= x);
        },
        None => {
            assert(rest =~= vt);
            lemma_first_index_of_props(rest, '-');
        },
    }
    assert(t[0] == 'v');
    if parse_pinned_spec(s) == Some((v, suffix)) {
        let r = s.subrange(1, s.len() as int);
        let k = first_index_of(r, '-');
        lemma_first_index_of_props(r, '-');
        if k < 0 {
            lemma_parse_sound(r, v);
            assert(s =~= seq!['v'] + r);
        } else {
            lemma_parse_sound(r.subrange(0, k), v);
            assert(r =~= r.subrange(0, k) + seq!['-'] + r.subrange(k + 1, r.len() as int));
            assert(s =~= seq!['v'] + r);
        }
    }
}

proof fn lemma_text_has_no_dash(v: SchemaVersion)
    ensures
        !v.text().contains('-'),
{
    let a = decimal(v.major as nat);
    let b = decimal(v.minor as nat);
    let c = decimal(v.patch as nat);
    lemma_decimal(v.major as nat);
    lemma_decimal(v.minor as nat);
    lemma_decimal(v.patch as nat);
    let t = v.text();
    if t.contains('-') {
        let i = choose|i: int| 0 <= i < t.len() && t[i] == '-';
        if i < a.len() {
            assert(a[i] == '-');
        } else if i == a.len() {
        } else if i < a.len() + 1 + b.len() {
            assert(b[i - a.len() - 1] == '-');
        } else if i == a.len() + 1 + b.len() {
        } else {
            assert(c[i - a.len() - 2 - b.len()] == '-');
        }
    }
}

} // verus!
