//! Migration filenames, checksums and the migration record itself.
use vstd::prelude::*;

use vstd::string::{StrSliceExecFns, StringSliceAdditionalSpecFns};

use crate::text::{
    all_digits, all_name_chars, chars_of, decimal_value, find_first, find_last, first_index,
    decimal_digits, is_ascii_digit, is_first_index, is_last_index, is_name_char, last_index,
    lemma_decimal_digits_value, lemma_decimal_value_leading_zero, lemma_first_index_is,
    lemma_first_index_prepend, lemma_last_index_is, lemma_last_index_prepend, range_all_digits,
    range_all_name_chars, range_equals, zeros,
};

verus! {

/// Which half of a migration pair a file represents.
#[derive(Debug, Clone, Copy, PartialEq, Eq)]
pub enum Direction {
    Up,
    Down,
}

/// The metadata pulled out of a migration filename, e.g.
/// `0001_create_users.up.sql` -> version 1, name "create_users", Up.
#[derive(Debug, Clone, PartialEq, Eq)]
pub struct ParsedName {
    pub version: u64,
    pub name: String,
    pub direction: Direction,
}

/// Why a filename is not a migration filename.
#[derive(Debug, Clone, Copy, PartialEq, Eq)]
pub enum ParseError {
    /// The filename doesn't split into exactly `stem.direction.sql`.
    InvalidFormat,
    /// The extension segment isn't `sql`.
    InvalidExtension,
    /// The direction segment isn't `up` or `down` (case sensitive).
    InvalidDirection,
    /// The stem has no `_` separating a version from a name.
    MissingName,
    /// The version segment is empty, non-numeric, or too large for a u64.
    InvalidVersion,
    /// The version segment is literally zero. Zero is reserved to mean "no
    /// migrations applied" (see `Registry::plan_rollback`), so no migration
    /// file may claim it.
    ZeroVersion,
    /// The name segment is empty or contains characters other than
    /// ASCII letters, digits, and underscores.
    InvalidName,
}

/// The outcome of parsing a filename, over character sequences:
/// the version, the name and the direction, or the error.
///
/// A filename is `STEM.DIRECTION.EXT`, split at its last two dots (the stem may
/// hold further dots); the stem is `VERSION_NAME`, split at its first underscore.
#[verifier::opaque]
pub open spec fn spec_parse_filename(s: Seq<char>) -> Result<(u64, Seq<char>, Direction), ParseError> {
    match last_index(s, '.') {
        None => Err(ParseError::InvalidFormat),
        Some(ext_dot) => match last_index(s.take(ext_dot), '.') {
            None => Err(ParseError::InvalidFormat),
            Some(dir_dot) => {
                let ext = s.skip(ext_dot + 1);
                let dir = s.subrange(dir_dot + 1, ext_dot);
                let stem = s.take(dir_dot);
                if ext != "sql"@ {
                    Err(ParseError::InvalidExtension)
                } else if dir != "up"@ && dir != "down"@ {
                    Err(ParseError::InvalidDirection)
                } else {
                    match first_index(stem, '_') {
                        None => Err(ParseError::MissingName),
                        Some(sep) => {
                            let version = stem.take(sep);
                            let name = stem.skip(sep + 1);
                            if version.len() == 0 || !all_digits(version) || decimal_value(version)
                                > u64::MAX {
                                Err(ParseError::InvalidVersion)
                            } else if decimal_value(version) == 0 {
                                Err(ParseError::ZeroVersion)
                            } else if name.len() == 0 || !all_name_chars(name) {
                                Err(ParseError::InvalidName)
                            } else {
                                Ok(
                                    (
                                        decimal_value(version) as u64,
                                        name,
                                        if dir == "up"@ {
                                            Direction::Up
                                        } else {
                                            Direction::Down
                                        },
                                    ),
                                )
                            }
                        },
                    }
                }
            },
        },
    }
}

/// `parsed` carries exactly the version, name and direction of `expected`.
pub open spec fn parsed_matches(parsed: ParsedName, expected: (u64, Seq<char>, Direction)) -> bool {
    &&& parsed.version == expected.0
    &&& parsed.name@ == expected.1
    &&& parsed.direction == expected.2
}

/// `r` is what parsing a filename whose characters are `s` gives back.
pub open spec fn parse_result_matches(r: Result<ParsedName, ParseError>, s: Seq<char>) -> bool {
    match spec_parse_filename(s) {
        Ok(expected) => r is Ok && parsed_matches(r->Ok_0, expected),
        Err(e) => r == Err::<ParsedName, ParseError>(e),
    }
}

/// Splits a migration filename into version, name, and direction.
///
/// Expects the shape `VERSION_NAME.up.sql` or `VERSION_NAME.down.sql`. The
/// version may have leading zeros (`0001` and `1` parse to the same value,
/// which the registry treats as a collision if both appear).
///
/// Version 0 is rejected outright. It's reserved to mean "nothing applied
/// yet" - `Registry::plan_rollback` takes 0 as a target to mean "roll back
/// every applied migration" - so a real migration can't claim it without
/// making that sentinel ambiguous.
pub fn parse_filename(filename: &str) -> (r: Result<ParsedName, ParseError>)
    ensures
        parse_result_matches(r, filename@),
        r matches Ok(p) ==> p.version != 0,
{
    proof {
        reveal(spec_parse_filename);
    }
    let ghost s = filename@;
    let cs = chars_of(filename);
    let n = cs.len();
    let ext_dot = match find_last(&cs, n, '.') {
        None => {
            assert(cs@.take(n as int) =~= s);
            return Err(ParseError::InvalidFormat);
        },
        Some(i) => i,
    };
    assert(cs@.take(n as int) =~= s);
    let dir_dot = match find_last(&cs, ext_dot, '.') {
        None => {
            return Err(ParseError::InvalidFormat);
        },
        Some(i) => i,
    };
    assert(cs@.take(ext_dot as int) =~= s.take(ext_dot as int));
    assert(cs@.subrange(ext_dot + 1, n as int) =~= s.skip(ext_dot + 1));
    assert(cs@.subrange(dir_dot + 1, ext_dot as int) =~= s.subrange(dir_dot + 1, ext_dot as int));
    if !range_equals(&cs, ext_dot + 1, n, "sql") {
        return Err(ParseError::InvalidExtension);
    }
    let direction = if range_equals(&cs, dir_dot + 1, ext_dot, "up") {
        Direction::Up
    } else if range_equals(&cs, dir_dot + 1, ext_dot, "down") {
        Direction::Down
    } else {
        return Err(ParseError::InvalidDirection);
    };
    let ghost stem = s.take(dir_dot as int);
    assert(cs@.subrange(0, dir_dot as int) =~= stem);
    let sep = match find_first(&cs, 0, dir_dot, '_') {
        None => {
            return Err(ParseError::MissingName);
        },
        Some(i) => i,
    };
    assert(cs@.subrange(0, sep as int) =~= stem.take(sep as int));
    assert(cs@.subrange(sep + 1, dir_dot as int) =~= stem.skip(sep + 1));
    if sep == 0 || !range_all_digits(&cs, 0, sep) {
        return Err(ParseError::InvalidVersion);
    }
    let version = match crate::text::parse_decimal(&cs, 0, sep) {
        None => {
            return Err(ParseError::InvalidVersion);
        },
        Some(v) => v,
    };
    if version == 0 {
        return Err(ParseError::ZeroVersion);
    }
    if sep + 1 == dir_dot || !range_all_name_chars(&cs, sep + 1, dir_dot) {
        return Err(ParseError::InvalidName);
    }
    let name_str = filename.substring_char(sep + 1, dir_dot);
    let name = name_str.to_owned();
    Ok(ParsedName { version, name, direction })
}

/// A filename that parses never carries version 0.
pub proof fn lemma_parsed_version_nonzero(s: Seq<char>)
    ensures
        spec_parse_filename(s) matches Ok((version, _, _)) ==> version != 0,
{
    reveal(spec_parse_filename);
}

/// Leading zeros in the version do not change what a filename parses to:
/// `0001_x.up.sql` and `1_x.up.sql` give the same version, name and direction,
/// and a filename that fails fails the same way with a zero in front.
pub proof fn lemma_leading_zero_parses_alike(s: Seq<char>)
    requires
        s.len() > 0,
        is_ascii_digit(s[0]),
    ensures
        spec_parse_filename(seq!['0'] + s) == spec_parse_filename(s),
{
    reveal(spec_parse_filename);
    let t = seq!['0'] + s;
    lemma_last_index_prepend('0', s, '.');
    if let Some(ext_dot) = last_index(s, '.') {
        assert(t.take(ext_dot + 1) =~= seq!['0'] + s.take(ext_dot));
        lemma_last_index_prepend('0', s.take(ext_dot), '.');
        if let Some(dir_dot) = last_index(s.take(ext_dot), '.') {
            assert(0 <= dir_dot < ext_dot < s.len()) by {
                let w = choose|i: int| is_last_index(s, '.', i);
                let v = choose|i: int| is_last_index(s.take(ext_dot), '.', i);
            }
            assert(t.skip(ext_dot + 2) =~= s.skip(ext_dot + 1));
            assert(t.subrange(dir_dot + 2, ext_dot + 1) =~= s.subrange(dir_dot + 1, ext_dot));
            let stem = s.take(dir_dot);
            assert(t.take(dir_dot + 1) =~= seq!['0'] + stem);
            lemma_first_index_prepend('0', stem, '_');
            if let Some(sep) = first_index(stem, '_') {
                assert(0 <= sep < stem.len()) by {
                    let w = choose|i: int| is_first_index(stem, '_', i);
                }
                let version = stem.take(sep);
                let name = stem.skip(sep + 1);
                assert((seq!['0'] + stem).take(sep + 1) =~= seq!['0'] + version);
                assert((seq!['0'] + stem).skip(sep + 2) =~= name);
                lemma_decimal_value_leading_zero(version);
                if sep == 0 {
                    assert(stem[0] == '_');
                    assert(stem[0] == s[0]);
                }
                assert(all_digits(seq!['0'] + version) == all_digits(version)) by {
                    if all_digits(version) {
                        assert forall|i: int| 0 <= i < version.len() + 1 implies is_ascii_digit(
                            #[trigger] (seq!['0'] + version)[i],
                        ) by {
                            if i > 0 {
                                assert((seq!['0'] + version)[i] == version[i - 1]);
                            }
                        }
                    }
                    if all_digits(seq!['0'] + version) {
                        assert forall|i: int| 0 <= i < version.len() implies is_ascii_digit(
                            #[trigger] version[i],
                        ) by {
                            assert((seq!['0'] + version)[i + 1] == version[i]);
                        }
                    }
                }
            }
        }
    }
}

/// Any number of leading zeros in the version leaves the parse unchanged.
pub proof fn lemma_leading_zeros_parse_alike(k: nat, s: Seq<char>)
    requires
        s.len() > 0,
        is_ascii_digit(s[0]),
    ensures
        spec_parse_filename(zeros(k) + s) == spec_parse_filename(s),
    decreases k,
{
    if k == 0 {
        assert(zeros(0) + s =~= s);
    } else {
        let shorter = zeros((k - 1) as nat) + s;
        lemma_leading_zeros_parse_alike((k - 1) as nat, s);
        assert(zeros(k) + s =~= seq!['0'] + shorter);
        if k > 1 {
            assert(shorter[0] == '0');
        } else {
            assert(shorter[0] == s[0]);
        }
        lemma_leading_zero_parses_alike(shorter);
    }
}

/// The filename `VERSION_NAME.up.sql` or `VERSION_NAME.down.sql`.
pub open spec fn migration_filename(version: Seq<char>, name: Seq<char>, up: bool) -> Seq<char> {
    version + seq!['_'] + name + seq!['.'] + (if up {
        "up"@
    } else {
        "down"@
    }) + ".sql"@
}

proof fn lemma_filename_parses(version: u64, name: Seq<char>, up: bool)
    requires
        version >= 1,
    ensures
        spec_parse_filename(migration_filename(decimal_digits(version as nat), name, up)) == if name.len()
            == 0 || !all_name_chars(name) {
            Err::<(u64, Seq<char>, Direction), ParseError>(ParseError::InvalidName)
        } else {
            Ok::<(u64, Seq<char>, Direction), ParseError>(
                (version, name, if up {
                    Direction::Up
                } else {
                    Direction::Down
                }),
            )
        },
{
    reveal(spec_parse_filename);
    reveal_strlit("up");
    reveal_strlit("down");
    reveal_strlit(".sql");
    reveal_strlit("sql");
    lemma_decimal_digits_value(version as nat);
    let d = decimal_digits(version as nat);
    let ds: Seq<char> = if up {
        "up"@
    } else {
        "down"@
    };
    let s = migration_filename(d, name, up);
    let a = d.len() as int;
    let b = a + 1 + name.len();
    let c = b + 1 + ds.len();
    assert(s =~= d + seq!['_'] + name + seq!['.'] + ds + seq!['.', 's', 'q', 'l']);
    assert(s.len() == c + 4);
    // the last dot
    assert(s[c] == '.');
    assert forall|j: int| c < j < s.len() implies s[j] != '.' by {
        assert(s[j] == seq!['.', 's', 'q', 'l'][j - c]);
    }
    assert(is_last_index(s, '.', c));
    lemma_last_index_is(s, '.', c);
    // the dot before it
    let head = s.take(c);
    assert(head =~= d + seq!['_'] + name + seq!['.'] + ds);
    assert(head[b] == '.');
    assert forall|j: int| b < j < head.len() implies head[j] != '.' by {
        assert(head[j] == ds[j - b - 1]);
    }
    assert(is_last_index(head, '.', b));
    lemma_last_index_is(head, '.', b);
    assert(s.skip(c + 1) =~= "sql"@);
    assert(s.subrange(b + 1, c) =~= ds);
    let stem = s.take(b);
    assert(stem =~= d + seq!['_'] + name);
    assert(stem[a] == '_');
    assert forall|j: int| 0 <= j < a implies stem[j] != '_' by {
        assert(stem[j] == d[j]);
        assert(is_ascii_digit(d[j]));
    }
    assert(is_first_index(stem, '_', a));
    lemma_first_index_is(stem, '_', a);
    assert(stem.take(a) =~= d);
    assert(stem.skip(a + 1) =~= name);
    if !up {
        assert(ds.len() != "up"@.len());
    }
}

/// A filename written as `VERSION_NAME.up.sql` or `VERSION_NAME.down.sql`, with
/// any number of zeros in front of the version, parses back to that version,
/// name and direction, whenever the version is at least 1 and the name is
/// non-empty and made of ASCII letters, digits and underscores.
pub proof fn lemma_formatted_filename_parses(padding: nat, version: u64, name: Seq<char>, up: bool)
    requires
        version >= 1,
        name.len() > 0,
        forall|j: int|
            0 <= j < name.len() ==> ('0' <= #[trigger] name[j] && name[j] <= '9') || ('a' <= name[j]
                && name[j] <= 'z') || ('A' <= name[j] && name[j] <= 'Z') || name[j] == '_',
    ensures
        spec_parse_filename(
            migration_filename(zeros(padding) + decimal_digits(version as nat), name, up),
        ) == Ok::<(u64, Seq<char>, Direction), ParseError>(
            (version, name, if up {
                Direction::Up
            } else {
                Direction::Down
            }),
        ),
{
    assert(all_name_chars(name)) by {
        assert forall|i: int| 0 <= i < name.len() implies is_name_char(#[trigger] name[i]) by {
            assert(('0' <= name[i] && name[i] <= '9') || ('a' <= name[i] && name[i] <= 'z') || ('A'
                <= name[i] && name[i] <= 'Z') || name[i] == '_');
        }
    }
    lemma_padded_filename_parses(padding, version, name, up);
}

proof fn lemma_padded_filename_parses(padding: nat, version: u64, name: Seq<char>, up: bool)
    requires
        version >= 1,
    ensures
        spec_parse_filename(
            migration_filename(zeros(padding) + decimal_digits(version as nat), name, up),
        ) == spec_parse_filename(migration_filename(decimal_digits(version as nat), name, up)),
        spec_parse_filename(migration_filename(decimal_digits(version as nat), name, up)) == if name.len()
            == 0 || !all_name_chars(name) {
            Err::<(u64, Seq<char>, Direction), ParseError>(ParseError::InvalidName)
        } else {
            Ok::<(u64, Seq<char>, Direction), ParseError>(
                (version, name, if up {
                    Direction::Up
                } else {
                    Direction::Down
                }),
            )
        },
{
    let d = decimal_digits(version as nat);
    lemma_decimal_digits_value(version as nat);
    lemma_filename_parses(version, name, up);
    let s = migration_filename(d, name, up);
    assert(migration_filename(zeros(padding) + d, name, up) =~= zeros(padding) + s);
    assert(s[0] == d[0]);
    lemma_leading_zeros_parse_alike(padding, s);
}

/// A filename `VERSION_NAME.up.sql` or `VERSION_NAME.down.sql` (with any
/// zeros in front of a version of at least 1) whose name is empty, or holds a
/// character that is not an ASCII letter, an ASCII digit or `_` (a space, a
/// hyphen, a dot, a non-ASCII letter...), is rejected with `InvalidName`.
pub proof fn lemma_bad_name_rejected(padding: nat, version: u64, name: Seq<char>, up: bool)
    requires
        version >= 1,
        name.len() == 0 || exists|j: int|
            0 <= j < name.len() && !(('0' <= #[trigger] name[j] && name[j] <= '9') || ('a'
                <= name[j] && name[j] <= 'z') || ('A' <= name[j] && name[j] <= 'Z') || name[j]
                == '_'),
    ensures
        spec_parse_filename(
            migration_filename(zeros(padding) + decimal_digits(version as nat), name, up),
        ) == Err::<(u64, Seq<char>, Direction), ParseError>(ParseError::InvalidName),
{
    lemma_padded_filename_parses(padding, version, name, up);
    if name.len() > 0 {
        let j = choose|j: int|
            0 <= j < name.len() && !(('0' <= #[trigger] name[j] && name[j] <= '9') || ('a'
                <= name[j] && name[j] <= 'z') || ('A' <= name[j] && name[j] <= 'Z') || name[j]
                == '_');
        assert(!is_name_char(name[j]));
    }
}

/// The FNV-1a offset basis.
pub const FNV_OFFSET: u64 = 0xcbf29ce484222325;

/// The FNV-1a prime.
pub const FNV_PRIME: u64 = 0x100000001b3;

/// One FNV-1a round: fold `byte` into `hash`.
pub open spec fn fnv1a_step(hash: u64, byte: u8) -> u64 {
    (hash ^ (byte as u64)).wrapping_mul(FNV_PRIME)
}

/// The 64-bit FNV-1a hash of `bytes`.
pub open spec fn fnv1a(bytes: Seq<u8>) -> u64
    decreases bytes.len(),
{
    if bytes.len() == 0 {
        FNV_OFFSET
    } else {
        fnv1a_step(fnv1a(bytes.drop_last()), bytes.last())
    }
}

/// The checksum of a text: FNV-1a over its UTF-8 encoding.
pub open spec fn spec_checksum(text: Seq<char>) -> u64 {
    fnv1a(vstd::utf8::encode_utf8(text))
}

/// FNV-1a over the raw bytes of a migration body. Not cryptographic; it only
/// needs to catch "this file's content changed since it was recorded as applied".
pub fn checksum(content: &str) -> (r: u64)
    ensures
        r == spec_checksum(content@),
{
    let bytes = content.as_bytes();
    let mut hash: u64 = FNV_OFFSET;
    let mut i: usize = 0;
    assert(bytes@.take(0) =~= Seq::<u8>::empty());
    while i < bytes.len()
        invariant
            i <= bytes@.len(),
            bytes@ == content.spec_bytes(),
            hash == fnv1a(bytes@.take(i as int)),
        decreases bytes@.len() - i,
    {
        assert(bytes@.take(i + 1).drop_last() =~= bytes@.take(i as int));
        hash = (hash ^ (bytes[i] as u64)).wrapping_mul(FNV_PRIME);
        i = i + 1;
    }
    assert(bytes@.take(i as int) =~= bytes@);
    hash
}

/// Multiplying by the FNV prime modulo 2^64 is undone by multiplying by its inverse.
proof fn lemma_prime_inverse(x: u64)
    by (bit_vector)
    ensures
        (((x * 0x100000001b3u64) % 0x1_0000_0000_0000_0000) * 0xce965057aff6957bu64)
            % 0x1_0000_0000_0000_0000 == x,
{
}

/// One FNV-1a round loses nothing: equal results come from equal hashes when
/// the bytes agree, and from equal bytes when the hashes agree.
proof fn lemma_fnv1a_step_injective(h1: u64, h2: u64, b1: u8, b2: u8)
    requires
        fnv1a_step(h1, b1) == fnv1a_step(h2, b2),
        h1 == h2 || b1 == b2,
    ensures
        h1 == h2 && b1 == b2,
{
    let x1 = h1 ^ (b1 as u64);
    let x2 = h2 ^ (b2 as u64);
    lemma_prime_inverse(x1);
    lemma_prime_inverse(x2);
    assert((x1 * 0x100000001b3u64) % 0x1_0000_0000_0000_0000 == (x2 * 0x100000001b3u64)
        % 0x1_0000_0000_0000_0000);
    assert(x1 == x2);
    assert(h1 == h2 && b1 == b2) by (bit_vector)
        requires
            h1 ^ (b1 as u64) == h2 ^ (b2 as u64),
            h1 == h2 || b1 == b2,
    ;
}

proof fn lemma_fnv1a_prefixes(s: Seq<u8>, t: Seq<u8>, i: int, k: int)
    requires
        s.len() == t.len(),
        0 <= i < s.len(),
        s[i] != t[i],
        forall|j: int| 0 <= j < s.len() && j != i ==> s[j] == t[j],
        0 <= k <= s.len(),
    ensures
        k <= i ==> fnv1a(s.take(k)) == fnv1a(t.take(k)),
        k > i ==> fnv1a(s.take(k)) != fnv1a(t.take(k)),
    decreases k,
{
    if k <= i {
        assert(s.take(k) =~= t.take(k));
    } else {
        lemma_fnv1a_prefixes(s, t, i, k - 1);
        assert(s.take(k).drop_last() =~= s.take(k - 1));
        assert(t.take(k).drop_last() =~= t.take(k - 1));
        assert(s.take(k).last() == s[k - 1]);
        assert(t.take(k).last() == t[k - 1]);
        if fnv1a(s.take(k)) == fnv1a(t.take(k)) {
            lemma_fnv1a_step_injective(fnv1a(s.take(k - 1)), fnv1a(t.take(k - 1)), s[k - 1], t[k - 1]);
        }
    }
}

/// Editing one byte of a body in place always changes its checksum.
pub proof fn lemma_single_byte_edit_changes_checksum(s: Seq<u8>, t: Seq<u8>, i: int)
    requires
        s.len() == t.len(),
        0 <= i < s.len(),
        s[i] != t[i],
        forall|j: int| 0 <= j < s.len() && j != i ==> s[j] == t[j],
    ensures
        fnv1a(s) != fnv1a(t),
{
    lemma_fnv1a_prefixes(s, t, i, s.len() as int);
    assert(s.take(s.len() as int) =~= s);
    assert(t.take(t.len() as int) =~= t);
}

/// A migration body whose UTF-8 encoding differs from another's in exactly one
/// byte has a different checksum, so such an edit is always detected.
pub proof fn lemma_single_byte_edit_detected(a: Seq<char>, b: Seq<char>, i: int)
    requires
        vstd::utf8::encode_utf8(a).len() == vstd::utf8::encode_utf8(b).len(),
        0 <= i < vstd::utf8::encode_utf8(a).len(),
        vstd::utf8::encode_utf8(a)[i] != vstd::utf8::encode_utf8(b)[i],
        forall|j: int|
            0 <= j < vstd::utf8::encode_utf8(a).len() && j != i ==> vstd::utf8::encode_utf8(a)[j]
                == vstd::utf8::encode_utf8(b)[j],
    ensures
        spec_checksum(a) != spec_checksum(b),
{
    lemma_single_byte_edit_changes_checksum(vstd::utf8::encode_utf8(a), vstd::utf8::encode_utf8(b), i);
}

/// One round of 64-bit FNV-1a, written out: xor the byte in, then multiply by
/// 0x100000001b3 modulo 2^64.
pub open spec fn fnv1a_round(hash: u64, byte: u8) -> u64 {
    (((hash ^ (byte as u64)) as nat * 0x100000001b3nat) % 0x1_0000_0000_0000_0000nat) as u64
}

proof fn lemma_utf8_concat(a: Seq<char>, b: Seq<char>)
    ensures
        vstd::utf8::encode_utf8(a + b) == vstd::utf8::encode_utf8(a) + vstd::utf8::encode_utf8(b),
    decreases a.len(),
{
    if a.len() == 0 {
        assert(a + b =~= b);
        assert(vstd::utf8::encode_utf8(a) =~= Seq::<u8>::empty());
        assert(vstd::utf8::encode_utf8(a) + vstd::utf8::encode_utf8(b) =~= vstd::utf8::encode_utf8(b));
    } else {
        assert((a + b).drop_first() =~= a.drop_first() + b);
        assert((a + b)[0] == a[0]);
        lemma_utf8_concat(a.drop_first(), b);
        assert(vstd::utf8::encode_utf8(a + b) =~= vstd::utf8::encode_utf8(a) + vstd::utf8::encode_utf8(b));
    }
}

proof fn lemma_fnv1a_append(x: Seq<u8>, y: Seq<u8>)
    ensures
        fnv1a(x + y) == y.fold_left(fnv1a(x), |h: u64, b: u8| fnv1a_round(h, b)),
    decreases y.len(),
{
    if y.len() == 0 {
        assert(x + y =~= x);
    } else {
        lemma_fnv1a_append(x, y.drop_last());
        assert((x + y).drop_last() =~= x + y.drop_last());
        assert((x + y).last() == y.last());
        let h = fnv1a(x + y.drop_last());
        assert(fnv1a_step(h, y.last()) == fnv1a_round(h, y.last()));
    }
}

/// The checksum of the empty body is the FNV-1a offset basis.
pub proof fn lemma_checksum_of_empty()
    ensures
        spec_checksum(Seq::<char>::empty()) == 0xcbf29ce484222325u64,
{
    assert(vstd::utf8::encode_utf8(Seq::<char>::empty()) =~= Seq::<u8>::empty());
}

/// The checksum grows one character at a time: appending a character folds
/// each byte of its UTF-8 encoding into the checksum so far with an FNV-1a
/// round, whatever the length of the body. With the empty case this fixes the
/// checksum of every body.
pub proof fn lemma_checksum_appends(text: Seq<char>, c: char)
    ensures
        spec_checksum(text.push(c)) == vstd::utf8::encode_utf8(seq![c]).fold_left(
            spec_checksum(text),
            |h: u64, b: u8| fnv1a_round(h, b),
        ),
{
    assert(text.push(c) =~= text + seq![c]);
    lemma_utf8_concat(text, seq![c]);
    lemma_fnv1a_append(vstd::utf8::encode_utf8(text), vstd::utf8::encode_utf8(seq![c]));
}

/// For a body of single-byte (ASCII) characters, appending a character `c`
/// turns checksum `h` into `(h ^ c) * 0x100000001b3 mod 2^64`.
pub proof fn lemma_checksum_appends_ascii(text: Seq<char>, c: char)
    requires
        (c as u32) < 0x80,
    ensures
        spec_checksum(text.push(c)) == (((spec_checksum(text) ^ (c as u64)) as nat * 0x100000001b3nat)
            % 0x1_0000_0000_0000_0000nat) as u64,
{
    lemma_checksum_appends(text, c);
    let v = c as u32;
    let byte = vstd::utf8::leading_byte_width_1(v);
    assert(v < 0x80 ==> ((v & 0x7F) as u8) as u64 == v as u64) by (bit_vector);
    assert(byte as u64 == c as u64);
    let e = vstd::utf8::encode_utf8(seq![c]);
    assert(seq![c].drop_first() =~= Seq::<char>::empty());
    assert(vstd::utf8::encode_utf8(seq![c].drop_first()) =~= Seq::<u8>::empty());
    assert(vstd::utf8::encode_scalar(v) == seq![byte]);
    assert(e =~= seq![byte]);
    assert(e.drop_last() =~= Seq::<u8>::empty());
    let h = spec_checksum(text);
    let round = |h: u64, b: u8| fnv1a_round(h, b);
    assert(e.drop_last().fold_left(h, round) == h);
    assert(e.last() == byte);
    assert(e.fold_left(h, round) == round(e.drop_last().fold_left(h, round), e.last()));
    assert(e.fold_left(h, round) == fnv1a_round(h, byte));
}

/// A single migration: its identity plus the SQL that applies and (optionally)
/// reverts it.
#[derive(Debug, Clone, PartialEq, Eq)]
pub struct Migration {
    pub version: u64,
    pub name: String,
    pub up_sql: String,
    pub down_sql: Option<String>,
    pub up_checksum: u64,
    pub down_checksum: Option<u64>,
}

/// The text of an optional string.
pub open spec fn opt_text(s: Option<String>) -> Option<Seq<char>> {
    match s {
        Some(t) => Some(t@),
        None => None,
    }
}

/// A migration as plain values.
pub struct MigrationView {
    pub version: u64,
    pub name: Seq<char>,
    pub up_sql: Seq<char>,
    pub down_sql: Option<Seq<char>>,
    pub up_checksum: u64,
    pub down_checksum: Option<u64>,
}

impl View for Migration {
    type V = MigrationView;

    open spec fn view(&self) -> MigrationView {
        MigrationView {
            version: self.version,
            name: self.name@,
            up_sql: self.up_sql@,
            down_sql: opt_text(self.down_sql),
            up_checksum: self.up_checksum,
            down_checksum: self.down_checksum,
        }
    }
}

/// The text `ParseError`'s messages read.
pub open spec fn parse_error_text(e: ParseError) -> Seq<char> {
    match e {
        ParseError::InvalidFormat => "filename must look like VERSION_NAME.up|down.sql"@,
        ParseError::InvalidExtension => "filename must end in .sql"@,
        ParseError::InvalidDirection => "direction segment must be exactly \"up\" or \"down\""@,
        ParseError::MissingName => "filename is missing a NAME segment after the version"@,
        ParseError::InvalidVersion => "version segment must be a plain, in-range integer"@,
        ParseError::ZeroVersion => "version 0 is reserved and cannot be used by a migration"@,
        ParseError::InvalidName => "name segment must be ASCII letters, digits, or underscores"@,
    }
}

impl ParseError {
    /// A human-readable description of the error.
    pub fn message(&self) -> (r: String)
        ensures
            r@ == parse_error_text(*self),
    {
        let text = match self {
            ParseError::InvalidFormat => "filename must look like VERSION_NAME.up|down.sql",
            ParseError::InvalidExtension => "filename must end in .sql",
            ParseError::InvalidDirection => "direction segment must be exactly \"up\" or \"down\"",
            ParseError::MissingName => "filename is missing a NAME segment after the version",
            ParseError::InvalidVersion => "version segment must be a plain, in-range integer",
            ParseError::ZeroVersion => "version 0 is reserved and cannot be used by a migration",
            ParseError::InvalidName => "name segment must be ASCII letters, digits, or underscores",
        };
        text.to_owned()
    }
}

} // verus!
