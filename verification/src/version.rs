//! Three-part version numbers (`major.minor.patch`): ordering, bumping, compatibility,
//! rendering and parsing.
use vstd::prelude::*;
use core::cmp::Ordering;
use crate::text::{chars_of, decimal, parse_unsigned, parse_unsigned_chars, push_decimal, split_on, trim};
use crate::text_lemmas::{
    count_char, count_in, first_in, lemma_count_concat, lemma_count_single, lemma_decimal_digits, lemma_digits_no_dot,
    lemma_parse_decimal, lemma_split_concat, lemma_split_len, lemma_split_none, lemma_trim_idempotent, lemma_trim_noop,
    trim_bounds,
};

verus! {

/// A version number `major.minor.patch`.
#[derive(Debug, Clone, Copy, PartialEq, Eq, Hash, Structural, Ord)]
pub struct Version {
    pub major: u32,
    pub minor: u32,
    pub patch: u32,
}

/// Why a text is not a version number.
#[derive(Debug, Clone, Copy, PartialEq, Eq, Structural)]
pub enum VersionParseError {
    /// The text does not have three parts separated by dots.
    InvalidFormat,
    /// A part is not a number.
    InvalidNumber,
}

/// The order of versions: by major, then minor, then patch number.
pub open spec fn version_order(a: Version, b: Version) -> Ordering {
    if a.major < b.major {
        Ordering::Less
    } else if a.major > b.major {
        Ordering::Greater
    } else if a.minor < b.minor {
        Ordering::Less
    } else if a.minor > b.minor {
        Ordering::Greater
    } else if a.patch < b.patch {
        Ordering::Less
    } else if a.patch > b.patch {
        Ordering::Greater
    } else {
        Ordering::Equal
    }
}

/// Whether `a` comes no later than `b` in the order of versions.
pub open spec fn version_le(a: Version, b: Version) -> bool {
    !(version_order(a, b) is Greater)
}

/// The text of a version: its three numbers in decimal, separated by dots.
pub open spec fn version_text(v: Version) -> Seq<char> {
    decimal(v.major as nat) + seq!['.'] + decimal(v.minor as nat) + seq!['.'] + decimal(
        v.patch as nat,
    )
}

/// What parsing a text gives: the text without surrounding white space must be three
/// parts separated by dots, each a number that `u32` holds.
pub open spec fn parse_version(s: Seq<char>) -> Result<Version, VersionParseError> {
    let parts = split_on(trim(s), '.');
    if parts.len() != 3 {
        Err(VersionParseError::InvalidFormat)
    } else {
        match (
            parse_unsigned(parts[0], u32::MAX as nat),
            parse_unsigned(parts[1], u32::MAX as nat),
            parse_unsigned(parts[2], u32::MAX as nat),
        ) {
            (Some(a), Some(b), Some(c)) => Ok(
                Version { major: a as u32, minor: b as u32, patch: c as u32 },
            ),
            _ => Err(VersionParseError::InvalidNumber),
        }
    }
}

impl Version {
    /// The version `major.minor.patch`.
    pub fn new(major: u32, minor: u32, patch: u32) -> (v: Version)
        ensures
            v == (Version { major, minor, patch }),
    {
        Version { major, minor, patch }
    }

    /// The version 0.0.0.
    pub fn initial() -> (v: Version)
        ensures
            v == (Version { major: 0, minor: 0, patch: 0 }),
    {
        Version::new(0, 0, 0)
    }

    /// The version 1.0.0.
    pub fn v1() -> (v: Version)
        ensures
            v == (Version { major: 1, minor: 0, patch: 0 }),
    {
        Version::new(1, 0, 0)
    }

    /// Raises the major number and resets the others.
    pub fn bump_major(&mut self)
        requires
            old(self).major < u32::MAX,
        ensures
            *final(self) == bumped_major(*old(self)),
    {
        self.major = self.major + 1;
        self.minor = 0;
        self.patch = 0;
    }

    /// Raises the minor number and resets the patch number.
    pub fn bump_minor(&mut self)
        requires
            old(self).minor < u32::MAX,
        ensures
            *final(self) == bumped_minor(*old(self)),
    {
        self.minor = self.minor + 1;
        self.patch = 0;
    }

    /// Raises the patch number.
    pub fn bump_patch(&mut self)
        requires
            old(self).patch < u32::MAX,
        ensures
            *final(self) == bumped_patch(*old(self)),
    {
        self.patch = self.patch + 1;
    }

    /// Whether this is a pre-release version: its major number is 0.
    pub fn is_prerelease(&self) -> (b: bool)
        ensures
            b == (self.major == 0),
    {
        self.major == 0
    }

    /// Where this version stands relative to `other`.
    pub fn compare(&self, other: &Version) -> (o: Ordering)
        ensures
            o == version_order(*self, *other),
    {
        if self.major < other.major {
            Ordering::Less
        } else if self.major > other.major {
            Ordering::Greater
        } else if self.minor < other.minor {
            Ordering::Less
        } else if self.minor > other.minor {
            Ordering::Greater
        } else if self.patch < other.patch {
            Ordering::Less
        } else if self.patch > other.patch {
            Ordering::Greater
        } else {
            Ordering::Equal
        }
    }

    /// Whether this version can stand in for `other`: the same major number, and not
    /// older.
    pub fn is_compatible_with(&self, other: &Version) -> (b: bool)
        ensures
            b == (self.major == other.major && version_le(*other, *self)),
    {
        if self.major != other.major {
            return false;
        }
        match self.compare(other) {
            Ordering::Less => false,
            _ => true,
        }
    }

    /// The text of the version, `major.minor.patch`.
    pub fn to_string(&self) -> (s: String)
        ensures
            s@ == version_text(*self),
    {
        let mut s = String::new();
        push_decimal(&mut s, self.major as u64);
        s.append(".");
        push_decimal(&mut s, self.minor as u64);
        s.append(".");
        push_decimal(&mut s, self.patch as u64);
        proof {
            reveal_strlit(".");
        }
        assert(s@ =~= version_text(*self));
        s
    }

    /// Parses a version from its text.
    pub fn parse(s: &str) -> (r: Result<Version, VersionParseError>)
        ensures
            r == parse_version(s@),
    {
        let cs = chars_of(s);
        let (a, b) = trim_bounds(&cs);
        let ghost t = cs@.subrange(a as int, b as int);
        let dots = count_in(&cs, '.', a, b);
        proof {
            lemma_split_len(t, '.');
        }
        if dots != 2 {
            return Err(VersionParseError::InvalidFormat);
        }
        let d1 = first_in(&cs, '.', a, b);
        proof {
            let x = cs@.subrange(a as int, d1 as int);
            let y = cs@.subrange(d1 + 1, b as int);
            assert(t =~= x + seq!['.'] + y);
            lemma_count_concat(x + seq!['.'], y, '.');
            lemma_count_concat(x, seq!['.'], '.');
            lemma_count_single('.');
        }
        let d2 = first_in(&cs, '.', d1 + 1, b);
        proof {
            let x = cs@.subrange(a as int, d1 as int);
            let y = cs@.subrange(d1 + 1, b as int);
            let y1 = cs@.subrange(d1 + 1, d2 as int);
            let y2 = cs@.subrange(d2 + 1, b as int);
            assert(y =~= y1 + seq!['.'] + y2);
            lemma_count_concat(y1 + seq!['.'], y2, '.');
            lemma_count_concat(y1, seq!['.'], '.');
            lemma_count_single('.');
            lemma_split_concat(x, '.', y);
            lemma_split_concat(y1, '.', y2);
            lemma_split_none(x, '.');
            lemma_split_none(y1, '.');
            lemma_split_none(y2, '.');
            assert(split_on(t, '.') =~= seq![x, y1, y2]);
        }
        let major = parse_unsigned_chars(&cs, a, d1, 0xffff_ffffu64);
        let minor = parse_unsigned_chars(&cs, d1 + 1, d2, 0xffff_ffffu64);
        let patch = parse_unsigned_chars(&cs, d2 + 1, b, 0xffff_ffffu64);
        match (major, minor, patch) {
            (Some(x), Some(y), Some(z)) => Ok(
                Version { major: x as u32, minor: y as u32, patch: z as u32 },
            ),
            _ => Err(VersionParseError::InvalidNumber),
        }
    }
}

impl VersionParseError {
    /// The text of the error.
    pub fn message(&self) -> (s: String)
        ensures
            s@ == match *self {
                VersionParseError::InvalidFormat => "版本格式无效，应为 major.minor.patch 格式"@,
                VersionParseError::InvalidNumber => "版本号包含无效数字"@,
            },
    {
        match self {
            VersionParseError::InvalidFormat => String::from_str(
                "版本格式无效，应为 major.minor.patch 格式",
            ),
            VersionParseError::InvalidNumber => String::from_str("版本号包含无效数字"),
        }
    }
}

impl PartialOrd for Version {
    fn partial_cmp(&self, other: &Version) -> (r: Option<Ordering>) {
        Some(self.compare(other))
    }
}

impl vstd::std_specs::cmp::PartialOrdSpecImpl for Version {
    open spec fn obeys_partial_cmp_spec() -> bool {
        true
    }

    open spec fn partial_cmp_spec(&self, other: &Version) -> Option<Ordering> {
        Some(version_order(*self, *other))
    }
}

impl core::str::FromStr for Version {
    type Err = VersionParseError;

    fn from_str(s: &str) -> (r: Result<Version, VersionParseError>)
        ensures
            r == parse_version(s@),
    {
        Version::parse(s)
    }
}

/// Law: the order of versions is a total order: every two versions compare, the
/// comparison is reversed when the sides are swapped, is `Equal` only for equal
/// versions, and is transitive.
pub proof fn lemma_version_order_total(a: Version, b: Version, c: Version)
    ensures
        version_order(a, b) == Ordering::Equal <==> a == b,
        version_order(a, b) == Ordering::Less <==> version_order(b, a) == Ordering::Greater,
        version_le(a, b) || version_le(b, a),
        version_le(a, b) && version_le(b, c) ==> version_le(a, c),
        version_order(a, b) == Ordering::Less && version_order(b, c) == Ordering::Less
            ==> version_order(a, c) == Ordering::Less,
{
}

/// Law: rendering a version and parsing the text gives the version back.
pub proof fn lemma_parse_of_text(v: Version)
    ensures
        parse_version(version_text(v)) == Ok::<Version, VersionParseError>(v),
{
    let a = decimal(v.major as nat);
    let b = decimal(v.minor as nat);
    let c = decimal(v.patch as nat);
    lemma_decimal_digits(v.major as nat);
    lemma_decimal_digits(v.minor as nat);
    lemma_decimal_digits(v.patch as nat);
    let s = version_text(v);
    assert(s[0] == a[0]);
    assert(s.last() == c.last());
    assert(crate::text::is_digit(a[0]));
    assert(crate::text::is_digit(c[c.len() - 1]));
    lemma_trim_noop(s);
    lemma_digits_no_dot(a);
    lemma_digits_no_dot(b);
    lemma_digits_no_dot(c);
    assert(s =~= a + seq!['.'] + (b + seq!['.'] + c));
    lemma_split_concat(a, '.', b + seq!['.'] + c);
    lemma_split_concat(b, '.', c);
    lemma_split_none(a, '.');
    lemma_split_none(b, '.');
    lemma_split_none(c, '.');
    assert(split_on(s, '.') =~= seq![a, b, c]);
    lemma_parse_decimal(v.major as nat, u32::MAX as nat);
    lemma_parse_decimal(v.minor as nat, u32::MAX as nat);
    lemma_parse_decimal(v.patch as nat, u32::MAX as nat);
}

/// Law: white space around a text does not change what it parses to; a text parses as
/// its trimmed text does.
pub proof fn lemma_parse_trimmed(s: Seq<char>)
    ensures
        parse_version(s) == parse_version(trim(s)),
{
    lemma_trim_idempotent(s);
}

/// The version after `bump_patch`.
pub open spec fn bumped_patch(v: Version) -> Version {
    Version { major: v.major, minor: v.minor, patch: (v.patch + 1) as u32 }
}

/// The version after `bump_minor`.
pub open spec fn bumped_minor(v: Version) -> Version {
    Version { major: v.major, minor: (v.minor + 1) as u32, patch: 0 }
}

/// The version after `bump_major`.
pub open spec fn bumped_major(v: Version) -> Version {
    Version { major: (v.major + 1) as u32, minor: 0, patch: 0 }
}

/// Law: every bump gives a newer version; bumping the minor or patch number keeps the
/// new version compatible with the old one, bumping the major number does not.
pub proof fn lemma_bumps(v: Version)
    ensures
        v.patch < 0xffff_ffffu32 ==> version_order(v, bumped_patch(v)) == Ordering::Less
            && bumped_patch(v).major == v.major && version_le(v, bumped_patch(v)),
        v.minor < 0xffff_ffffu32 ==> version_order(v, bumped_minor(v)) == Ordering::Less
            && bumped_minor(v).major == v.major && version_le(v, bumped_minor(v)),
        v.major < 0xffff_ffffu32 ==> version_order(v, bumped_major(v)) == Ordering::Less
            && bumped_major(v).major != v.major,
{
}

/// Law: compatibility is reflexive and transitive.
pub proof fn lemma_compatibility(a: Version, b: Version, c: Version)
    ensures
        a.major == a.major && version_le(a, a),
        (a.major == b.major && version_le(b, a)) && (b.major == c.major && version_le(c, b))
            ==> (a.major == c.major && version_le(c, a)),
{
}

} // verus!
