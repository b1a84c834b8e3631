//! Vulkan API version numbers and their packed 32-bit encoding.

use vstd::prelude::*;

verus! {

/// Represents an API version of Vulkan.
#[derive(Clone, Copy, Debug, PartialEq, Eq, PartialOrd, Ord, Structural)]
pub struct Version {
    /// Major version number.
    pub major: u32,
    /// Minor version number.
    pub minor: u32,
    /// Patch version number.
    pub patch: u32,
}

impl Version {
    /// Constructs a `Version` from the given major and minor version numbers.
    pub fn major_minor(major: u32, minor: u32) -> (v: Version)
        ensures
            v == (Version { major, minor, patch: 0 }),
    {
        Version { major, minor, patch: 0 }
    }
}

/// Relies on ash's `vk::api_version_major`: it extracts bits 22..29 of a
/// packed Vulkan version word.
pub assume_specification[ ash::vk::api_version_major ](version: u32) -> (r: u32)
    ensures
        r == (version >> 22u32) & 0x7fu32,
;

/// Relies on ash's `vk::api_version_minor`: it extracts bits 12..22 of a
/// packed Vulkan version word.
pub assume_specification[ ash::vk::api_version_minor ](version: u32) -> (r: u32)
    ensures
        r == (version >> 12u32) & 0x3ffu32,
;

/// Relies on ash's `vk::api_version_patch`: it extracts bits 0..12 of a
/// packed Vulkan version word.
pub assume_specification[ ash::vk::api_version_patch ](version: u32) -> (r: u32)
    ensures
        r == version & 0xfffu32,
;

/// Relies on ash's `vk::make_api_version`: it packs the four fields into one
/// version word by shifting and or-ing.
pub assume_specification[ ash::vk::make_api_version ](
    variant: u32,
    major: u32,
    minor: u32,
    patch: u32,
) -> (r: u32)
    ensures
        r == ((variant << 29u32) | (major << 22u32) | (minor << 12u32) | patch),
;

impl From<u32> for Version {
    /// Unpacks a Vulkan version word into its major, minor and patch fields.
    fn from(val: u32) -> (v: Self) {
        Version {
            major: ash::vk::api_version_major(val),
            minor: ash::vk::api_version_minor(val),
            patch: ash::vk::api_version_patch(val),
        }
    }
}

impl vstd::std_specs::convert::FromSpecImpl<u32> for Version {
    open spec fn obeys_from_spec() -> bool {
        true
    }

    open spec fn from_spec(val: u32) -> Version {
        Version {
            major: (val >> 22u32) & 0x7fu32,
            minor: (val >> 12u32) & 0x3ffu32,
            patch: val & 0xfffu32,
        }
    }
}

proof fn lemma_zero_variant_or(a: u32, b: u32, c: u32)
    ensures
        ((0u32 << 29u32) | a | b | c) == (a | b | c),
{
    assert(((0u32 << 29u32) | a | b | c) == (a | b | c)) by (bit_vector);
}

impl TryFrom<Version> for u32 {
    type Error = ();

    /// Packs a version into a Vulkan version word, if each field fits.
    fn try_from(val: Version) -> (r: Result<u32, ()>) {
        if val.major <= 0x3ff && val.minor <= 0x3ff && val.patch <= 0xfff {
            let packed = ash::vk::make_api_version(0, val.major, val.minor, val.patch);
            proof {
                lemma_zero_variant_or(val.major << 22u32, val.minor << 12u32, val.patch);
            }
            Ok(packed)
        } else {
            Err(())
        }
    }
}

impl vstd::std_specs::convert::TryFromSpecImpl<Version> for u32 {
    open spec fn obeys_try_from_spec() -> bool {
        true
    }

    open spec fn try_from_spec(val: Version) -> Result<u32, ()> {
        if val.major <= 0x3ff && val.minor <= 0x3ff && val.patch <= 0xfff {
            Ok((val.major << 22u32) | (val.minor << 12u32) | val.patch)
        } else {
            Err(())
        }
    }
}

impl Default for Version {
    /// The default version is 1.0.0.
    fn default() -> (v: Self)
        ensures
            v == (Version { major: 1u32, minor: 0u32, patch: 0u32 }),
    {
        Version { major: 1, minor: 0, patch: 0 }
    }
}

/// Error when a version string cannot be parsed.
#[derive(Clone, Copy, Debug, PartialEq, Eq, Structural)]
pub struct VersionParseError;

/// A decimal digit, `'0'` through `'9'`.
pub open spec fn is_dec_digit(c: char) -> bool {
    '0' as int <= c as int <= '9' as int
}

/// Every character of `s` is a decimal digit.
pub open spec fn all_digits(s: Seq<char>) -> bool {
    forall|i: int| 0 <= i < s.len() ==> is_dec_digit(#[trigger] s[i])
}

/// The value of a digit string read in base ten.
pub open spec fn dec_val(s: Seq<char>) -> int
    decreases s.len(),
{
    if s.len() == 0 {
        0
    } else {
        dec_val(s.drop_last()) * 10 + (s.last() as int - '0' as int)
    }
}

/// The digits of a numeral, with one optional leading `'+'` removed.
pub open spec fn numeral_body(s: Seq<char>) -> Seq<char> {
    if s.len() > 0 && s[0] == '+' {
        s.drop_first()
    } else {
        s
    }
}

/// `s` is a numeral that a 32-bit unsigned parse accepts: an optional `'+'`,
/// then at least one digit, with a value of at most `u32::MAX`.
pub open spec fn is_u32_numeral(s: Seq<char>) -> bool {
    &&& numeral_body(s).len() > 0
    &&& all_digits(numeral_body(s))
    &&& dec_val(numeral_body(s)) <= u32::MAX
}

/// The value of a numeral accepted by `is_u32_numeral`.
pub open spec fn u32_numeral_val(s: Seq<char>) -> int {
    dec_val(numeral_body(s))
}

/// The index of the first `'.'` in `s` at or after `i`, or the length of `s`
/// if there is none.
pub open spec fn dot_from(s: Seq<char>, i: int) -> int
    decreases s.len() - i,
{
    if i < 0 || i >= s.len() {
        s.len() as int
    } else if s[i] == '.' {
        i
    } else {
        dot_from(s, i + 1)
    }
}

/// What parsing a version string yields: up to three dot-separated numerals,
/// where a missing minor or patch component counts as zero, and anything
/// else — an empty or non-numeric component, an overflowing value, or a
/// fourth component — is rejected.
pub open spec fn spec_parse_version(s: Seq<char>) -> Option<Version> {
    let d1 = dot_from(s, 0);
    if !is_u32_numeral(s.subrange(0, d1)) {
        None
    } else {
        let major = u32_numeral_val(s.subrange(0, d1)) as u32;
        if d1 == s.len() {
            Some(Version { major, minor: 0u32, patch: 0u32 })
        } else {
            let d2 = dot_from(s, d1 + 1);
            if !is_u32_numeral(s.subrange(d1 + 1, d2)) {
                None
            } else {
                let minor = u32_numeral_val(s.subrange(d1 + 1, d2)) as u32;
                if d2 == s.len() {
                    Some(Version { major, minor, patch: 0u32 })
                } else if !is_u32_numeral(s.subrange(d2 + 1, s.len() as int)) {
                    None
                } else {
                    let patch = u32_numeral_val(s.subrange(d2 + 1, s.len() as int)) as u32;
                    Some(Version { major, minor, patch })
                }
            }
        }
    }
}

proof fn lemma_dec_val_nonneg(s: Seq<char>)
    requires
        all_digits(s),
    ensures
        dec_val(s) >= 0,
    decreases s.len(),
{
    if s.len() > 0 {
        assert(forall|i: int| 0 <= i < s.drop_last().len() ==> is_dec_digit(#[trigger] s.drop_last()[i]));
        lemma_dec_val_nonneg(s.drop_last());
    }
}

proof fn lemma_dec_val_prefix_le(s: Seq<char>, j: int)
    requires
        all_digits(s),
        0 <= j <= s.len(),
    ensures
        dec_val(s.take(j)) <= dec_val(s),
    decreases s.len(),
{
    if j == s.len() {
        assert(s.take(j) =~= s);
    } else {
        assert(forall|i: int| 0 <= i < s.drop_last().len() ==> is_dec_digit(#[trigger] s.drop_last()[i]));
        assert(s.drop_last().take(j) =~= s.take(j));
        lemma_dec_val_prefix_le(s.drop_last(), j);
        lemma_dec_val_nonneg(s.drop_last());
    }
}

proof fn lemma_dot_from_bounds(s: Seq<char>, i: int)
    requires
        0 <= i <= s.len(),
    ensures
        i <= dot_from(s, i) <= s.len(),
        dot_from(s, i) < s.len() ==> s[dot_from(s, i)] == '.',
    decreases s.len() - i,
{
    if i < s.len() && s[i] != '.' {
        lemma_dot_from_bounds(s, i + 1);
    }
}

/// Returns the index of the first `'.'` in `s` at or after `from`, or the
/// character length of `s` if there is none.
fn find_dot(s: &str, from: usize, len: usize) -> (r: usize)
    requires
        from <= len,
        len == s@.len(),
    ensures
        r == dot_from(s@, from as int),
        from <= r <= len,
{
    proof {
        lemma_dot_from_bounds(s@, from as int);
    }
    let mut i = from;
    while i < len
        invariant
            from <= i <= len,
            len == s@.len(),
            dot_from(s@, from as int) == dot_from(s@, i as int),
        decreases len - i,
    {
        let c = s.get_char(i);
        if c == '.' {
            return i;
        }
        i += 1;
    }
    i
}

/// Parses one dot-free component of a version string, the characters of `s`
/// from `from` (inclusive) to `to` (exclusive), as a 32-bit unsigned numeral.
fn parse_component(s: &str, from: usize, to: usize) -> (r: Option<u32>)
    requires
        from <= to <= s@.len(),
    ensures
        (match r {
            Some(v) => is_u32_numeral(s@.subrange(from as int, to as int))
                && v == u32_numeral_val(s@.subrange(from as int, to as int)),
            None => !is_u32_numeral(s@.subrange(from as int, to as int)),
        }),
{
    let ghost comp = s@.subrange(from as int, to as int);
    let mut i = from;
    if i < to && s.get_char(i) == '+' {
        i += 1;
    }
    let start = i;
    let ghost body = numeral_body(comp);
    proof {
        assert(body =~= s@.subrange(start as int, to as int));
    }
    if start == to {
        return None;
    }
    let mut acc: u64 = 0;
    while i < to
        invariant
            from <= start <= i <= to <= s@.len(),
            comp == s@.subrange(from as int, to as int),
            body == numeral_body(comp),
            body == s@.subrange(start as int, to as int),
            all_digits(body.take(i - start)),
            acc == dec_val(body.take(i - start)),
            acc <= u32::MAX,
        decreases to - i,
    {
        let c = s.get_char(i);
        let cu = c as u32;
        proof {
            assert(body[i - start] == s@[i as int]);
        }
        if cu < 48 || cu > 57 {
            proof {
                assert(!is_dec_digit(body[i - start]));
            }
            return None;
        }
        let d = (cu - 48) as u64;
        let next = acc * 10 + d;
        proof {
            assert(body.take(i - start + 1).drop_last() =~= body.take(i - start));
            assert(body.take(i - start + 1).last() == body[i - start]);
        }
        if next > 0xFFFF_FFFF {
            proof {
                if all_digits(body) {
                    lemma_dec_val_prefix_le(body, i - start + 1);
                }
            }
            return None;
        }
        acc = next;
        i += 1;
    }
    proof {
        assert(body.take(to - start) =~= body);
    }
    Some(acc as u32)
}

impl Version {
    /// Parses a version string of up to three dot-separated components, such
    /// as `"1.2.3"`, `"1.2"` or `"1"`; missing components default to zero.
    pub fn parse(s: &str) -> (r: Result<Version, VersionParseError>)
        ensures
            (match r {
                Ok(v) => spec_parse_version(s@) == Some(v),
                Err(_) => spec_parse_version(s@) is None,
            }),
    {
        let len = s.unicode_len();
        let d1 = find_dot(s, 0, len);
        let major = match parse_component(s, 0, d1) {
            Some(m) => m,
            None => {
                return Err(VersionParseError);
            },
        };
        if d1 == len {
            return Ok(Version { major, minor: 0, patch: 0 });
        }
        proof {
            lemma_dot_from_bounds(s@, 0);
        }
        let d2 = find_dot(s, d1 + 1, len);
        let minor = match parse_component(s, d1 + 1, d2) {
            Some(m) => m,
            None => {
                return Err(VersionParseError);
            },
        };
        if d2 == len {
            return Ok(Version { major, minor, patch: 0 });
        }
        let patch = match parse_component(s, d2 + 1, len) {
            Some(p) => p,
            None => {
                return Err(VersionParseError);
            },
        };
        Ok(Version { major, minor, patch })
    }
}

impl core::str::FromStr for Version {
    type Err = VersionParseError;

    fn from_str(s: &str) -> Result<Version, VersionParseError> {
        Version::parse(s)
    }
}

} // verus!

