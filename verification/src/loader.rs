//! The matrix loader: three ordered row streams (Deployment,
//! DataTypeDefinition, ServiceInterfaces) are folded into a `Matrix`. Rows
//! arrive as plain column strings from whatever source read the workbook;
//! every numeric cell is parsed here, so the whole fold is verified.

use vstd::prelude::*;
use vstd::string::StringSliceAdditionalSpecFns;

use crate::matrix::{
    eq_lower, has_node, lemma_keywords_ascii, node_at, node_index, node_refs_present,
    spec_ascii_lower,
    spec_number_type_of, str_eq_literal, Matrix, MatrixDataNode, MatrixDataNodeView,
    MatrixMember, MatrixMemberView, MatrixRole, MatrixRoleServerClientPair,
    MatrixRoleServerClientPairView, MatrixRoleView, MatrixSerializationParameter,
    MatrixSerializationParameterSize, MatrixService, MatrixServiceView, MatrixType,
    MatrixTypeView, NumberType, StringArrayLength, StringEncoding,
};
use crate::types::IpAddress;
use crate::wire::be_val;

verus! {

/// Why matrix construction failed; fatal, per the load-time error policy.
#[derive(Debug)]
pub enum LoadError {
    /// A cell could not be parsed as the category requires.
    MalformedSource(String),
    /// A DataTypeDefinition row names an unknown data category.
    UnknownCategory(String),
    /// A row lacks a field its category requires.
    MissingField(String),
    /// After all rows, a referenced type name never got a definition.
    UnresolvedReference(String),
}

/// The error's kind, without its message text.
#[derive(PartialEq, Eq, Structural)]
pub ghost enum LoadErrorKind {
    MalformedSource,
    UnknownCategory,
    MissingField,
    UnresolvedReference,
}

impl View for LoadError {
    type V = LoadErrorKind;

    open spec fn view(&self) -> LoadErrorKind {
        match self {
            LoadError::MalformedSource(_) => LoadErrorKind::MalformedSource,
            LoadError::UnknownCategory(_) => LoadErrorKind::UnknownCategory,
            LoadError::MissingField(_) => LoadErrorKind::MissingField,
            LoadError::UnresolvedReference(_) => LoadErrorKind::UnresolvedReference,
        }
    }
}

/// Digit value of one character under the given radix (10 or 16; hex accepts
/// both letter cases).
pub open spec fn spec_digit_val(c: char, radix: nat) -> Option<nat> {
    let u = c as u32;
    if 48 <= u <= 57 {
        Some((u - 48) as nat)
    } else if radix == 16 && 97 <= u <= 102 {
        Some((u - 87) as nat)
    } else if radix == 16 && 65 <= u <= 70 {
        Some((u - 55) as nat)
    } else {
        None
    }
}

/// Numeric value of a digit string under the given radix; `None` when empty
/// or when any character is no digit.
pub open spec fn spec_radix_val(s: Seq<char>, radix: nat) -> Option<nat>
    decreases s.len(),
{
    if s.len() == 0 {
        None
    } else if s.len() == 1 {
        spec_digit_val(s[0], radix)
    } else {
        match spec_radix_val(s.drop_last(), radix) {
            None => None,
            Some(v) => match spec_digit_val(s.last(), radix) {
                None => None,
                Some(d) => Some(v * radix + d),
            },
        }
    }
}

/// A digit string's value only grows when more digits follow.
proof fn lemma_radix_val_monotone(s: Seq<char>, i: int, radix: nat)
    requires
        0 < i <= s.len(),
        radix >= 2,
        spec_radix_val(s.take(i), radix) is Some,
    ensures
        spec_radix_val(s, radix) is None || spec_radix_val(s, radix)->0 >= spec_radix_val(
            s.take(i),
            radix,
        )->0,
    decreases s.len() - i,
{
    if i == s.len() {
        assert(s.take(i) =~= s);
    } else {
        let t = s.take(i + 1);
        assert(t.drop_last() =~= s.take(i));
        let p = spec_radix_val(s.take(i), radix)->0;
        if spec_radix_val(t, radix) is Some {
            assert(spec_radix_val(t, radix)->0 >= p) by {
                let d = spec_digit_val(t.last(), radix)->0;
                assert(spec_radix_val(t, radix)->0 == p * radix + d);
                assert(p * radix >= p) by (nonlinear_arith)
                    requires
                        radix >= 2,
                        p >= 0,
                ;
            }
            lemma_radix_val_monotone(s, i + 1, radix);
        } else {
            lemma_radix_val_none_stays(s, i + 1, radix);
        }
    }
}

/// Once a prefix of the digits fails to parse, the whole string fails.
proof fn lemma_radix_val_none_stays(s: Seq<char>, i: int, radix: nat)
    requires
        0 < i <= s.len(),
        spec_radix_val(s.take(i), radix) is None,
    ensures
        spec_radix_val(s, radix) is None,
    decreases s.len() - i,
{
    if i == s.len() {
        assert(s.take(i) =~= s);
    } else {
        let t = s.take(i + 1);
        assert(t.drop_last() =~= s.take(i));
        assert(spec_radix_val(t, radix) is None);
        lemma_radix_val_none_stays(s, i + 1, radix);
    }
}

/// A character outside ASCII is no digit under any radix.
proof fn lemma_nonascii_char_not_digit(c: char, radix: nat)
    requires
        !('\0' <= c <= '\u{7f}'),
    ensures
        spec_digit_val(c, radix) is None,
{
    assert((c as u32) >= 128);
}

/// One invalid character makes the whole digit string unparsable.
proof fn lemma_invalid_digit_none(s: Seq<char>, i: int, radix: nat)
    requires
        0 <= i < s.len(),
        spec_digit_val(s[i], radix) is None,
    ensures
        spec_radix_val(s, radix) is None,
    decreases s.len(),
{
    if s.len() > 1 {
        if i == s.len() - 1 {
            assert(spec_radix_val(s, radix) is None);
        } else {
            lemma_invalid_digit_none(s.drop_last(), i, radix);
        }
    }
}

/// Parses `s[from..to]` (character positions; the string must be ASCII, so
/// bytes and characters line up) as digits under `radix`, rejecting values
/// above `u32::MAX`.
fn parse_radix_range(s: &str, radix: u64, from: usize, to: usize) -> (r: Result<u64, LoadError>)
    requires
        radix == 10 || radix == 16,
        from <= to <= s@.len(),
        vstd::string::is_ascii(s),
    ensures
        match r {
            Ok(v) => spec_radix_val(s@.subrange(from as int, to as int), radix as nat) == Some(
                v as nat,
            ) && v <= 0xFFFF_FFFF,
            Err(e) => e@ is MalformedSource && (spec_radix_val(
                s@.subrange(from as int, to as int),
                radix as nat,
            ) is None || spec_radix_val(s@.subrange(from as int, to as int), radix as nat)->0
                > 0xFFFF_FFFF),
        },
{
    let ghost digits: Seq<char> = s@.subrange(from as int, to as int);
    proof {
        broadcast use vstd::string::is_ascii_spec_bytes;

    }
    let b: &[u8] = s.as_bytes();
    assert(b@.len() == s@.len());
    if from == to {
        return Err(LoadError::MalformedSource("empty numeric cell".to_owned()));
    }
    let mut acc: u64 = 0;
    let mut i: usize = from;
    while i < to
        invariant
            from <= i <= to <= s@.len(),
            radix == 10 || radix == 16,
            b@.len() == s@.len(),
            forall|k: int| 0 <= k < s@.len() ==> b@[k] == (#[trigger] s@[k]) as u8,
            vstd::utf8::is_ascii_chars(s@),
            acc <= 0xFFFF_FFFF,
            i == from ==> acc == 0,
            i > from ==> spec_radix_val(digits.take(i - from), radix as nat) == Some(acc as nat),
            digits =~= s@.subrange(from as int, to as int),
        decreases to - i,
    {
        let byte: u8 = b[i];
        proof {
            assert(byte == (s@[i as int] as u8));
            assert('\0' <= s@[i as int] <= '\u{7f}');
            assert((byte as u32) == (s@[i as int] as u32));
        }
        let d: u64 = if 48 <= byte && byte <= 57 {
            (byte - 48) as u64
        } else if radix == 16 && 97 <= byte && byte <= 102 {
            (byte - 87) as u64
        } else if radix == 16 && 65 <= byte && byte <= 70 {
            (byte - 55) as u64
        } else {
            proof {
                assert(spec_digit_val(digits[i - from], radix as nat) is None);
                lemma_invalid_digit_none(digits, i - from, radix as nat);
            }
            return Err(LoadError::MalformedSource("invalid digit".to_owned()));
        };
        assert(spec_digit_val(digits[i - from], radix as nat) == Some(d as nat));
        let next: u64 = if radix == 16 {
            acc * 16 + d
        } else {
            acc * 10 + d
        };
        proof {
            let t = digits.take(i - from + 1);
            assert(t.drop_last() =~= digits.take(i - from));
            assert(t.last() == digits[i - from]);
            assert(next as nat == (acc as nat) * (radix as nat) + (d as nat));
            if i == from {
                assert(t.len() == 1);
                assert(spec_radix_val(t, radix as nat) == spec_digit_val(t[0], radix as nat));
            } else {
                assert(spec_radix_val(t.drop_last(), radix as nat) == Some(acc as nat));
            }
            assert(spec_radix_val(t, radix as nat) == Some(next as nat));
        }
        if next > 0xFFFF_FFFF {
            proof {
                lemma_radix_val_monotone(digits, i - from + 1, radix as nat);
            }
            return Err(LoadError::MalformedSource("numeric cell out of range".to_owned()));
        }
        acc = next;
        i += 1;
    }
    assert(digits.take(to - from) =~= digits);
    Ok(acc)
}

/// What remains of a cell after stripping every leading `0x`.
pub open spec fn spec_strip_hex_prefix(s: Seq<char>) -> Seq<char>
    decreases s.len(),
{
    if s.len() >= 2 && s[0] == '0' && s[1] == 'x' {
        spec_strip_hex_prefix(s.skip(2))
    } else {
        s
    }
}

/// Value of a hex cell: leading `0x` markers stripped, the rest read base 16,
/// `None` when malformed or above `u16::MAX`.
pub open spec fn spec_parse_hex_u16(s: Seq<char>) -> Option<u16> {
    match spec_radix_val(spec_strip_hex_prefix(s), 16) {
        Some(v) => if v <= 0xFFFF {
            Some(v as u16)
        } else {
            None
        },
        None => None,
    }
}

/// Value of a decimal cell, `None` when malformed or above `u16::MAX`.
pub open spec fn spec_parse_dec_u16(s: Seq<char>) -> Option<u16> {
    match spec_radix_val(s, 10) {
        Some(v) => if v <= 0xFFFF {
            Some(v as u16)
        } else {
            None
        },
        None => None,
    }
}

/// A non-ASCII cell never parses as hex: the offending character survives
/// prefix stripping and is no digit.
proof fn lemma_nonascii_strip_none(s: Seq<char>)
    requires
        exists|i: int| 0 <= i < s.len() && !('\0' <= #[trigger] s[i] <= '\u{7f}'),
    ensures
        spec_parse_hex_u16(s) is None,
    decreases s.len(),
{
    let i = choose|i: int| 0 <= i < s.len() && !('\0' <= #[trigger] s[i] <= '\u{7f}');
    assert(!('\0' <= s[i] <= '\u{7f}'));
    if s.len() >= 2 && s[0] == '0' && s[1] == 'x' {
        assert('\0' <= '0' <= '\u{7f}');
        assert('\0' <= 'x' <= '\u{7f}');
        assert(i >= 2);
        assert(s.skip(2)[i - 2] == s[i]);
        assert(!('\0' <= s.skip(2)[i - 2] <= '\u{7f}'));
        assert(exists|j: int| 0 <= j < s.skip(2).len() && !('\0' <= #[trigger] s.skip(2)[j]
            <= '\u{7f}'));
        lemma_nonascii_strip_none(s.skip(2));
    } else {
        lemma_nonascii_char_not_digit(s[i], 16);
        lemma_invalid_digit_none(s, i, 16);
    }
}

/// Parses a hex id cell such as `0x1234` (the `0x` may be absent or
/// repeated, as matrix cells in the wild allow).
pub fn parse_hex_u16(s: &str) -> (r: Result<u16, LoadError>)
    ensures
        match r {
            Ok(v) => spec_parse_hex_u16(s@) == Some(v),
            Err(e) => e@ is MalformedSource && spec_parse_hex_u16(s@) is None,
        },
{
    if !s.is_ascii() {
        proof {
            assert(!vstd::utf8::is_ascii_chars(s@));
            assert(exists|i: int| 0 <= i < s@.len() && !('\0' <= #[trigger] s@[i] <= '\u{7f}'));
            lemma_nonascii_strip_none(s@);
        }
        return Err(LoadError::MalformedSource("non-ascii numeric cell".to_owned()));
    }
    proof {
        broadcast use vstd::string::is_ascii_spec_bytes;

    }
    let b: &[u8] = s.as_bytes();
    let n = b.len();
    assert(b@.len() == s@.len());
    let mut start: usize = 0;
    proof {
        assert(s@.skip(0) =~= s@);
    }
    while n - start >= 2 && b[start] == 48 && b[start + 1] == 120
        invariant
            0 <= start <= n,
            n == s@.len(),
            b@.len() == s@.len(),
            forall|k: int| 0 <= k < s@.len() ==> b@[k] == (#[trigger] s@[k]) as u8,
            vstd::utf8::is_ascii_chars(s@),
            spec_strip_hex_prefix(s@) == spec_strip_hex_prefix(s@.skip(start as int)),
        decreases n - start,
    {
        proof {
            let t = s@.skip(start as int);
            assert(t[0] == s@[start as int]);
            assert(t[1] == s@[start as int + 1]);
            assert((s@[start as int] as u8) == 48);
            assert((s@[start as int] as u32) == 48 && ('0' as u32) == 48);
            assert(s@[start as int] == '0');
            assert((s@[start as int + 1] as u32) == 120 && ('x' as u32) == 120);
            assert(s@[start as int + 1] == 'x');
            assert(t.skip(2) =~= s@.skip(start as int + 2));
        }
        start += 2;
    }
    proof {
        let t = s@.skip(start as int);
        assert('\0' <= '0' <= '\u{7f}');
        assert('\0' <= 'x' <= '\u{7f}');
        assert(('0' as u8) == 48 && ('x' as u8) == 120);
        if t.len() >= 2 && t[0] == '0' && t[1] == 'x' {
            assert(s@[start as int] == '0' && s@[start as int + 1] == 'x');
            assert(b@[start as int] == ('0' as u8));
            assert(b@[start as int + 1] == ('x' as u8));
            assert(false);
        }
        assert(spec_strip_hex_prefix(t) == t);
        assert(t =~= s@.subrange(start as int, s@.len() as int));
    }
    match parse_radix_range(s, 16, start, s.len()) {
        Ok(v) => {
            if v <= 0xFFFF {
                Ok(v as u16)
            } else {
                Err(LoadError::MalformedSource("id out of range".to_owned()))
            }
        },
        Err(e) => Err(e),
    }
}

/// Parses a decimal cell such as a port number.
pub fn parse_dec_u16(s: &str) -> (r: Result<u16, LoadError>)
    ensures
        match r {
            Ok(v) => spec_parse_dec_u16(s@) == Some(v),
            Err(e) => e@ is MalformedSource && spec_parse_dec_u16(s@) is None,
        },
{
    if !s.is_ascii() {
        proof {
            assert(!vstd::utf8::is_ascii_chars(s@));
            assert(exists|i: int| 0 <= i < s@.len() && !('\0' <= #[trigger] s@[i] <= '\u{7f}'));
            let i = choose|i: int| 0 <= i < s@.len() && !('\0' <= #[trigger] s@[i] <= '\u{7f}');
            lemma_nonascii_char_not_digit(s@[i], 10);
            lemma_invalid_digit_none(s@, i, 10);
        }
        return Err(LoadError::MalformedSource("non-ascii numeric cell".to_owned()));
    }
    proof {
        broadcast use vstd::string::is_ascii_spec_bytes;

        assert(s.spec_bytes().len() == s@.len());
        assert(s@.subrange(0, s@.len() as int) =~= s@);
    }
    let nb = s.as_bytes().len();
    assert(nb == s@.len());
    match parse_radix_range(s, 10, 0, nb) {
        Ok(v) => {
            if v <= 0xFFFF {
                Ok(v as u16)
            } else {
                Err(LoadError::MalformedSource("number out of range".to_owned()))
            }
        },
        Err(e) => Err(e),
    }
}

/// Value of a length cell (capped at `u32::MAX`), `None` when malformed.
pub open spec fn spec_parse_dec_len(s: Seq<char>) -> Option<usize> {
    match spec_radix_val(s, 10) {
        Some(v) => if v <= 0xFFFF_FFFF {
            Some(v as usize)
        } else {
            None
        },
        None => None,
    }
}

/// Parses a string/array length cell.
pub fn parse_dec_len(s: &str) -> (r: Result<usize, LoadError>)
    ensures
        match r {
            Ok(v) => spec_parse_dec_len(s@) == Some(v),
            Err(e) => e@ is MalformedSource && spec_parse_dec_len(s@) is None,
        },
{
    if !s.is_ascii() {
        proof {
            assert(!vstd::utf8::is_ascii_chars(s@));
            assert(exists|i: int| 0 <= i < s@.len() && !('\0' <= #[trigger] s@[i] <= '\u{7f}'));
            let i = choose|i: int| 0 <= i < s@.len() && !('\0' <= #[trigger] s@[i] <= '\u{7f}');
            lemma_nonascii_char_not_digit(s@[i], 10);
            lemma_invalid_digit_none(s@, i, 10);
        }
        return Err(LoadError::MalformedSource("non-ascii numeric cell".to_owned()));
    }
    proof {
        broadcast use vstd::string::is_ascii_spec_bytes;

        assert(s.spec_bytes().len() == s@.len());
        assert(s@.subrange(0, s@.len() as int) =~= s@);
    }
    let nb = s.as_bytes().len();
    assert(nb == s@.len());
    match parse_radix_range(s, 10, 0, nb) {
        Ok(v) => Ok(v as usize),
        Err(e) => Err(e),
    }
}


/// One Deployment row, as plain column strings.
pub struct DeploymentRecord {
    pub service_interface_name: String,
    pub service_id: String,
    pub instance_id: String,
    pub major_version: String,
    pub minor_version: String,
    pub server: String,
    pub server_mac: String,
    pub server_ip: String,
    pub server_port: String,
    pub client: String,
    pub client_mac: String,
    pub client_ip: String,
}

pub ghost struct DeploymentRecordView {
    pub service_interface_name: Seq<char>,
    pub service_id: Seq<char>,
    pub instance_id: Seq<char>,
    pub major_version: Seq<char>,
    pub minor_version: Seq<char>,
    pub server: Seq<char>,
    pub server_mac: Seq<char>,
    pub server_ip: Seq<char>,
    pub server_port: Seq<char>,
    pub client: Seq<char>,
    pub client_mac: Seq<char>,
    pub client_ip: Seq<char>,
}

impl View for DeploymentRecord {
    type V = DeploymentRecordView;

    open spec fn view(&self) -> DeploymentRecordView {
        DeploymentRecordView {
            service_interface_name: self.service_interface_name@,
            service_id: self.service_id@,
            instance_id: self.instance_id@,
            major_version: self.major_version@,
            minor_version: self.minor_version@,
            server: self.server@,
            server_mac: self.server_mac@,
            server_ip: self.server_ip@,
            server_port: self.server_port@,
            client: self.client@,
            client_mac: self.client_mac@,
            client_ip: self.client_ip@,
        }
    }
}

/// One DataTypeDefinition row; absent cells are `None`.
pub struct DataTypeDefinitionRecord {
    pub parameter_data_type_name: Option<String>,
    pub data_type_description: Option<String>,
    pub data_category: Option<String>,
    pub string_array_length_type: Option<String>,
    pub string_array_length_min: Option<String>,
    pub string_array_length_max: Option<String>,
    pub member_name: Option<String>,
    pub member_description: Option<String>,
    pub member_data_type_reference: Option<String>,
    pub data_type: Option<String>,
}

pub ghost struct DataTypeDefinitionRecordView {
    pub parameter_data_type_name: Option<Seq<char>>,
    pub data_type_description: Option<Seq<char>>,
    pub data_category: Option<Seq<char>>,
    pub string_array_length_type: Option<Seq<char>>,
    pub string_array_length_min: Option<Seq<char>>,
    pub string_array_length_max: Option<Seq<char>>,
    pub member_name: Option<Seq<char>>,
    pub member_description: Option<Seq<char>>,
    pub member_data_type_reference: Option<Seq<char>>,
    pub data_type: Option<Seq<char>>,
}

/// The view of an optional cell.
pub open spec fn opt_view(o: Option<String>) -> Option<Seq<char>> {
    match o {
        Some(s) => Some(s@),
        None => None,
    }
}

/// An optional cell's text, absent meaning empty.
pub open spec fn opt_or_empty(o: Option<Seq<char>>) -> Seq<char> {
    match o {
        Some(s) => s,
        None => Seq::empty(),
    }
}

impl View for DataTypeDefinitionRecord {
    type V = DataTypeDefinitionRecordView;

    open spec fn view(&self) -> DataTypeDefinitionRecordView {
        DataTypeDefinitionRecordView {
            parameter_data_type_name: opt_view(self.parameter_data_type_name),
            data_type_description: opt_view(self.data_type_description),
            data_category: opt_view(self.data_category),
            string_array_length_type: opt_view(self.string_array_length_type),
            string_array_length_min: opt_view(self.string_array_length_min),
            string_array_length_max: opt_view(self.string_array_length_max),
            member_name: opt_view(self.member_name),
            member_description: opt_view(self.member_description),
            member_data_type_reference: opt_view(self.member_data_type_reference),
            data_type: opt_view(self.data_type),
        }
    }
}

/// One ServiceInterfaces row.
pub struct ServiceInterfacesRecord {
    pub service_interface_name: String,
    pub service_id: Option<String>,
    pub service_description: String,
}

pub ghost struct ServiceInterfacesRecordView {
    pub service_interface_name: Seq<char>,
    pub service_id: Option<Seq<char>>,
    pub service_description: Seq<char>,
}

impl View for ServiceInterfacesRecord {
    type V = ServiceInterfacesRecordView;

    open spec fn view(&self) -> ServiceInterfacesRecordView {
        ServiceInterfacesRecordView {
            service_interface_name: self.service_interface_name@,
            service_id: opt_view(self.service_id),
            service_description: self.service_description@,
        }
    }
}

/// Dotted-quad IPv4 parsing, written as the left-to-right fold the reader
/// performs: `part` is the octet being read, `done` the finished octets.
pub open spec fn spec_ipv4_fold(
    s: Seq<char>,
    i: int,
    part: Option<nat>,
    done: Seq<u8>,
) -> Option<u32>
    decreases s.len() - i,
{
    if i < 0 || i >= s.len() {
        match part {
            Some(p) => if p <= 255 && done.len() == 3 {
                Some(((be_val(done) * 256 + p) as nat % 0x1_0000_0000) as u32)
            } else {
                None
            },
            None => None,
        }
    } else if s[i] == '.' {
        match part {
            Some(p) => if p <= 255 && done.len() < 3 {
                spec_ipv4_fold(s, i + 1, None, done.push(p as u8))
            } else {
                None
            },
            None => None,
        }
    } else {
        match spec_digit_val(s[i], 10) {
            Some(d) => {
                let base: nat = match part {
                    Some(p) => p,
                    None => 0,
                };
                if base * 10 + d <= 255 {
                    spec_ipv4_fold(s, i + 1, Some(base * 10 + d), done)
                } else {
                    None
                }
            },
            None => None,
        }
    }
}

/// Value of a dotted-quad IPv4 cell, if well formed.
pub open spec fn spec_parse_ipv4(s: Seq<char>) -> Option<u32> {
    spec_ipv4_fold(s, 0, None, Seq::empty())
}

/// The address a role row yields: its IP cell parsed as a dotted quad, or
/// the loopback fallback when malformed.
pub open spec fn spec_role_ip(s: Seq<char>) -> IpAddress {
    match spec_parse_ipv4(s) {
        Some(v) => IpAddress::V4(v),
        None => IpAddress::V4(0x7F00_0001),
    }
}

/// The MAC bytes a role row yields: the cell's own six bytes when it has
/// exactly six, zeroes otherwise.
pub open spec fn spec_mac_of(s: Seq<char>) -> Seq<u8> {
    if vstd::utf8::encode_utf8(s).len() == 6 {
        vstd::utf8::encode_utf8(s)
    } else {
        seq![0u8, 0u8, 0u8, 0u8, 0u8, 0u8]
    }
}

/// A fold that still has a non-ASCII character ahead of it fails: such a
/// character is neither a digit nor a dot.
proof fn lemma_ipv4_fold_nonascii(s: Seq<char>, i: int, part: Option<nat>, done: Seq<u8>)
    requires
        0 <= i,
        exists|j: int| i <= j < s.len() && !('\0' <= #[trigger] s[j] <= '\u{7f}'),
    ensures
        spec_ipv4_fold(s, i, part, done) is None,
    decreases s.len() - i,
{
    let j = choose|j: int| i <= j < s.len() && !('\0' <= #[trigger] s[j] <= '\u{7f}');
    assert(!('\0' <= s[j] <= '\u{7f}'));
    lemma_nonascii_char_not_digit(s[j], 10);
    assert(i < s.len());
    if s[i] == '.' {
        assert(j != i);
        match part {
            Some(p) => {
                if p <= 255 && done.len() < 3 {
                    lemma_ipv4_fold_nonascii(s, i + 1, None, done.push(p as u8));
                }
            },
            None => {},
        }
    } else {
        match spec_digit_val(s[i], 10) {
            Some(d) => {
                assert(j != i);
                let base: nat = match part {
                    Some(p) => p,
                    None => 0,
                };
                if base * 10 + d <= 255 {
                    lemma_ipv4_fold_nonascii(s, i + 1, Some(base * 10 + d), done);
                }
            },
            None => {},
        }
    }
}

/// Parses a dotted-quad IPv4 cell.
pub fn parse_ipv4(s: &str) -> (r: Option<u32>)
    ensures
        r == spec_parse_ipv4(s@),
{
    if !s.is_ascii() {
        proof {
            assert(!vstd::utf8::is_ascii_chars(s@));
            assert(exists|j: int| 0 <= j < s@.len() && !('\0' <= #[trigger] s@[j] <= '\u{7f}'));
            lemma_ipv4_fold_nonascii(s@, 0, None, Seq::empty());
        }
        return None;
    }
    proof {
        broadcast use vstd::string::is_ascii_spec_bytes;

    }
    let b: &[u8] = s.as_bytes();
    let n = b.len();
    assert(n == s@.len());
    let mut i: usize = 0;
    let mut part: Option<u32> = None;
    let mut count: u8 = 0;
    let mut acc: u32 = 0;
    let ghost mut done: Seq<u8> = Seq::empty();
    while i < n
        invariant
            i <= n,
            n == s@.len(),
            b@.len() == s@.len(),
            vstd::utf8::is_ascii_chars(s@),
            forall|k: int| 0 <= k < s@.len() ==> b@[k] == (#[trigger] s@[k]) as u8,
            count <= 3,
            done.len() == count,
            acc == be_val(done),
            acc < 0x100_0000,
            (match part {
                Some(p) => p <= 255,
                None => true,
            }),
            spec_parse_ipv4(s@) == spec_ipv4_fold(
                s@,
                i as int,
                (match part {
                    Some(p) => Some(p as nat),
                    None => None::<nat>,
                }),
                done,
            ),
        decreases n - i,
    {
        let cb = b[i];
        proof {
            assert(cb == (s@[i as int] as u8));
            assert((s@[i as int] as u32) == cb as u32);
            assert(('.' as u32) == 46);
        }
        if cb == 46 {
            proof {
                vstd::utf8::char_u32_cast(s@[i as int], 46);
                assert(s@[i as int] == '.');
            }
            match part {
                None => {
                    return None;
                },
                Some(p) => {
                    if count >= 3 {
                        return None;
                    }
                    proof {
                        assert(done.push(p as u8).drop_last() =~= done);
                        assert(be_val(done.push(p as u8)) == be_val(done) * 256 + (p as u8));
                        crate::wire::lemma_be_val_bound(done);
                        crate::wire::lemma_pow256_values();
                        crate::wire::lemma_pow256_mono(done.len(), 2);
                    }
                    acc = acc * 256 + p;
                    count = count + 1;
                    proof {
                        done = done.push(p as u8);
                    }
                    part = None;
                },
            }
        } else {
            proof {
                assert(s@[i as int] != '.');
            }
            if 48 <= cb && cb <= 57 {
                let d: u32 = (cb - 48) as u32;
                assert(spec_digit_val(s@[i as int], 10) == Some(d as nat));
                let base: u32 = match part {
                    Some(p) => p,
                    None => 0,
                };
                let np = base * 10 + d;
                if np > 255 {
                    return None;
                }
                part = Some(np);
            } else {
                proof {
                    assert(spec_digit_val(s@[i as int], 10) is None);
                }
                return None;
            }
        }
        i += 1;
    }
    match part {
        Some(p) => {
            if count == 3 {
                proof {
                    crate::wire::lemma_be_val_bound(done);
                    crate::wire::lemma_pow256_values();
                }
                Some(acc * 256 + p)
            } else {
                None
            }
        },
        None => None,
    }
}

/// Builds the role a Deployment row names.
pub fn role_of(name: &String, ip: &String, mac: &String) -> (r: MatrixRole)
    ensures
        r@.name == name@,
        r@.ip_addr == spec_role_ip(ip@),
        r@.mac_addr == spec_mac_of(mac@),
{
    let ip_addr = match parse_ipv4(ip.as_str()) {
        Some(v) => IpAddress::V4(v),
        None => IpAddress::V4(0x7F00_0001),
    };
    let mb: &[u8] = mac.as_str().as_bytes();
    let mac_addr: [u8; 6] = if mb.len() == 6 {
        [mb[0], mb[1], mb[2], mb[3], mb[4], mb[5]]
    } else {
        [0, 0, 0, 0, 0, 0]
    };
    proof {
        if mb@.len() == 6 {
            assert(mac_addr@ =~= vstd::utf8::encode_utf8(mac@));
        } else {
            assert(mac_addr@ =~= seq![0u8, 0u8, 0u8, 0u8, 0u8, 0u8]);
        }
    }
    MatrixRole { name: name.clone(), ip_addr, mac_addr }
}


/// Whether a role of this name exists.
pub open spec fn has_role(roles: Seq<MatrixRoleView>, name: Seq<char>) -> bool {
    exists|i: int| 0 <= i < roles.len() && roles[i].name == name
}

/// Whether a service of this id exists.
pub open spec fn has_service(ss: Seq<MatrixServiceView>, id: u16) -> bool {
    exists|i: int| 0 <= i < ss.len() && ss[i].service_id == id
}

/// Index of the service with this id (definite when ids are unique).
pub open spec fn service_index(ss: Seq<MatrixServiceView>, id: u16) -> int {
    choose|i: int| 0 <= i < ss.len() && ss[i].service_id == id
}

/// Whether a structurally equal deployment triple is already recorded.
pub open spec fn pair_in(
    pairs: Seq<MatrixRoleServerClientPairView>,
    p: MatrixRoleServerClientPairView,
) -> bool {
    exists|i: int| 0 <= i < pairs.len() && pairs[i] == p
}

/// First-occurrence-wins role upsert: a later row with a known role name
/// reuses the stored role.
pub open spec fn spec_upsert_role(
    roles: Seq<MatrixRoleView>,
    name: Seq<char>,
    ip: Seq<char>,
    mac: Seq<char>,
) -> Seq<MatrixRoleView> {
    if has_role(roles, name) {
        roles
    } else {
        roles.push(
            MatrixRoleView { name: name, ip_addr: spec_role_ip(ip), mac_addr: spec_mac_of(mac) },
        )
    }
}

/// One Deployment row folded into the services and roles built so far: ids
/// parsed, both roles upserted, the service upserted by id (its first row
/// fixing the identity fields), and the triple appended unless a
/// structurally equal one is already there.
pub open spec fn spec_deployment_step(
    services: Seq<MatrixServiceView>,
    roles: Seq<MatrixRoleView>,
    r: DeploymentRecordView,
) -> Result<(Seq<MatrixServiceView>, Seq<MatrixRoleView>), LoadErrorKind> {
    match (
        spec_parse_hex_u16(r.service_id),
        spec_parse_hex_u16(r.instance_id),
        spec_parse_hex_u16(r.major_version),
        spec_parse_hex_u16(r.minor_version),
        spec_parse_dec_u16(r.server_port),
    ) {
        (Some(sid), Some(iid), Some(major), Some(minor), Some(port)) => {
            let roles2 = spec_upsert_role(
                spec_upsert_role(roles, r.server, r.server_ip, r.server_mac),
                r.client,
                r.client_ip,
                r.client_mac,
            );
            let pair = MatrixRoleServerClientPairView {
                server: r.server,
                server_port: port,
                client: r.client,
            };
            if has_service(services, sid) {
                let si = service_index(services, sid);
                let svc = services[si];
                if pair_in(svc.server_client, pair) {
                    Ok((services, roles2))
                } else {
                    Ok(
                        (
                            services.update(
                                si,
                                MatrixServiceView {
                                    server_client: svc.server_client.push(pair),
                                    ..svc
                                },
                            ),
                            roles2,
                        ),
                    )
                }
            } else {
                Ok(
                    (
                        services.push(
                            MatrixServiceView {
                                service_id: sid,
                                service_name: r.service_interface_name,
                                service_description: Seq::empty(),
                                instance_id: iid,
                                major_verison: major,
                                minor_version: minor,
                                methods: Seq::empty(),
                                server_client: seq![pair],
                            },
                        ),
                        roles2,
                    ),
                )
            }
        },
        _ => Err(LoadErrorKind::MalformedSource),
    }
}

/// The first `n` Deployment rows folded in order.
pub open spec fn spec_deployment_fold(rows: Seq<DeploymentRecordView>, n: int) -> Result<
    (Seq<MatrixServiceView>, Seq<MatrixRoleView>),
    LoadErrorKind,
>
    decreases n,
{
    if n <= 0 {
        Ok((Seq::empty(), Seq::empty()))
    } else {
        match spec_deployment_fold(rows, n - 1) {
            Err(e) => Err(e),
            Ok((s, rl)) => spec_deployment_step(s, rl, rows[n - 1]),
        }
    }
}

/// Once the fold fails it stays failed.
proof fn lemma_deployment_fold_err_stays(rows: Seq<DeploymentRecordView>, i: int, n: int)
    requires
        0 <= i <= n,
        spec_deployment_fold(rows, i) is Err,
    ensures
        spec_deployment_fold(rows, n) == spec_deployment_fold(rows, i),
    decreases n - i,
{
    if i < n {
        lemma_deployment_fold_err_stays(rows, i, n - 1);
    }
}

/// Invariants of the deployment fold: service ids unique, role names
/// unique, and within each service no two equal deployment triples -- the
/// dedup guarantee.
pub proof fn lemma_deployment_fold_wf(rows: Seq<DeploymentRecordView>, n: int)
    requires
        spec_deployment_fold(rows, n) is Ok,
    ensures
        (match spec_deployment_fold(rows, n) {
            Ok((s, rl)) => {
                &&& (forall|i: int, j: int|
                    0 <= i < j < s.len() ==> s[i].service_id != s[j].service_id)
                &&& (forall|i: int, j: int| 0 <= i < j < rl.len() ==> rl[i].name != rl[j].name)
                &&& (forall|si: int, i: int, j: int|
                    0 <= si < s.len() && 0 <= i < j < s[si].server_client.len()
                        ==> s[si].server_client[i] != s[si].server_client[j])
            },
            Err(_) => true,
        }),
    decreases n,
{
    if n > 0 {
        match spec_deployment_fold(rows, n - 1) {
            Err(_) => {},
            Ok((s0, rl0)) => {
                lemma_deployment_fold_wf(rows, n - 1);
            },
        }
    }
}

/// Dedup law: a Deployment row identical to one already folded in changes
/// nothing -- the second fold of the same row is the identity.
pub proof fn lemma_deployment_row_dedup(
    services: Seq<MatrixServiceView>,
    roles: Seq<MatrixRoleView>,
    r: DeploymentRecordView,
    s2: Seq<MatrixServiceView>,
    r2: Seq<MatrixRoleView>,
)
    requires
        forall|i: int, j: int|
            0 <= i < j < services.len() ==> services[i].service_id != services[j].service_id,
        spec_deployment_step(services, roles, r) == Ok::<
            (Seq<MatrixServiceView>, Seq<MatrixRoleView>),
            LoadErrorKind,
        >((s2, r2)),
    ensures
        spec_deployment_step(s2, r2, r) == Ok::<
            (Seq<MatrixServiceView>, Seq<MatrixRoleView>),
            LoadErrorKind,
        >((s2, r2)),
{
    let sid = spec_parse_hex_u16(r.service_id)->0;
    let port = spec_parse_dec_u16(r.server_port)->0;
    let pair = MatrixRoleServerClientPairView {
        server: r.server,
        server_port: port,
        client: r.client,
    };
    assert(has_role(r2, r.server)) by {
        let ra = spec_upsert_role(roles, r.server, r.server_ip, r.server_mac);
        if has_role(roles, r.server) {
            let i = choose|i: int| 0 <= i < roles.len() && roles[i].name == r.server;
            assert(ra[i].name == r.server);
        } else {
            assert(ra[ra.len() - 1].name == r.server);
        }
        let i = choose|i: int| 0 <= i < ra.len() && ra[i].name == r.server;
        assert(r2[i].name == r.server);
    }
    assert(has_role(r2, r.client)) by {
        let ra = spec_upsert_role(roles, r.server, r.server_ip, r.server_mac);
        if has_role(ra, r.client) {
            let i = choose|i: int| 0 <= i < ra.len() && ra[i].name == r.client;
            assert(r2[i].name == r.client);
        } else {
            assert(r2[r2.len() - 1].name == r.client);
        }
    }
    assert(spec_upsert_role(r2, r.server, r.server_ip, r.server_mac) == r2);
    assert(spec_upsert_role(r2, r.client, r.client_ip, r.client_mac) == r2);
    if has_service(services, sid) {
        let si = service_index(services, sid);
        let svc = services[si];
        if pair_in(svc.server_client, pair) {
            assert(s2 == services);
            assert(has_service(s2, sid));
            let si2 = service_index(s2, sid);
            assert(0 <= si2 < s2.len() && s2[si2].service_id == sid);
            assert(0 <= si < s2.len() && s2[si].service_id == sid);
            if si < si2 {
                assert(s2[si].service_id != s2[si2].service_id);
            }
            if si2 < si {
                assert(s2[si2].service_id != s2[si].service_id);
            }
            assert(si2 == si);
            assert(pair_in(s2[si2].server_client, pair));
        } else {
            let upd = MatrixServiceView { server_client: svc.server_client.push(pair), ..svc };
            assert(s2 == services.update(si, upd));
            assert(s2[si].service_id == sid);
            assert(has_service(s2, sid));
            let si2 = service_index(s2, sid);
            assert(0 <= si2 < s2.len() && s2[si2].service_id == sid);
            if si < si2 {
                assert(services[si].service_id != services[si2].service_id);
                assert(s2[si2] == services[si2]);
            }
            if si2 < si {
                assert(services[si2].service_id != services[si].service_id);
                assert(s2[si2] == services[si2]);
            }
            assert(si2 == si);
            assert(s2[si].server_client.last() == pair);
            assert(pair_in(s2[si].server_client, pair));
        }
    } else {
        assert(s2 == services.push(
            MatrixServiceView {
                service_id: sid,
                service_name: r.service_interface_name,
                service_description: Seq::empty(),
                instance_id: spec_parse_hex_u16(r.instance_id)->0,
                major_verison: spec_parse_hex_u16(r.major_version)->0,
                minor_version: spec_parse_hex_u16(r.minor_version)->0,
                methods: Seq::empty(),
                server_client: seq![pair],
            },
        ));
        let last = s2.len() - 1;
        assert(s2[last].service_id == sid);
        assert(has_service(s2, sid));
        let si2 = service_index(s2, sid);
        assert(0 <= si2 < s2.len() && s2[si2].service_id == sid);
        if si2 < last {
            assert(services[si2].service_id == sid);
            assert(has_service(services, sid));
            assert(false);
        }
        assert(si2 == last);
        assert(s2[si2].server_client[0] == pair);
        assert(pair_in(s2[si2].server_client, pair));
    }
}


/// Whether the roles built so far hold this name.
fn contains_role(roles: &Vec<MatrixRole>, name: &String) -> (r: bool)
    ensures
        r == has_role(roles@.map_values(|x: MatrixRole| x@), name@),
{
    let ghost rolesv = roles@.map_values(|x: MatrixRole| x@);
    let n = roles.len();
    let mut i: usize = 0;
    while i < n
        invariant
            i <= n,
            n == roles.len(),
            rolesv == roles@.map_values(|x: MatrixRole| x@),
            forall|k: int| 0 <= k < i ==> rolesv[k].name != name@,
        decreases n - i,
    {
        proof {
            assert(rolesv[i as int] == roles@[i as int]@);
        }
        if roles[i].name == *name {
            return true;
        }
        i += 1;
    }
    false
}

/// Index of the service with this id among those built so far.
fn find_service(services: &Vec<MatrixService>, id: u16) -> (r: Option<usize>)
    ensures
        (match r {
            Some(i) => i < services@.len() && services@.map_values(|x: MatrixService| x@)[
                i as int].service_id == id && has_service(
                services@.map_values(|x: MatrixService| x@),
                id,
            ),
            None => !has_service(services@.map_values(|x: MatrixService| x@), id),
        }),
{
    let ghost sv = services@.map_values(|x: MatrixService| x@);
    let n = services.len();
    let mut i: usize = 0;
    while i < n
        invariant
            i <= n,
            n == services.len(),
            sv == services@.map_values(|x: MatrixService| x@),
            forall|k: int| 0 <= k < i ==> sv[k].service_id != id,
        decreases n - i,
    {
        proof {
            assert(sv[i as int] == services@[i as int]@);
        }
        if services[i].service_id == id {
            return Some(i);
        }
        i += 1;
    }
    None
}

/// Whether a structurally equal triple is already recorded.
fn contains_pair(pairs: &Vec<MatrixRoleServerClientPair>, p: &MatrixRoleServerClientPair) -> (r:
    bool)
    ensures
        r == pair_in(pairs@.map_values(|x: MatrixRoleServerClientPair| x@), p@),
{
    let ghost pv = pairs@.map_values(|x: MatrixRoleServerClientPair| x@);
    let n = pairs.len();
    let mut i: usize = 0;
    while i < n
        invariant
            i <= n,
            n == pairs.len(),
            pv == pairs@.map_values(|x: MatrixRoleServerClientPair| x@),
            forall|k: int| 0 <= k < i ==> pv[k] != p@,
        decreases n - i,
    {
        proof {
            assert(pv[i as int] == pairs@[i as int]@);
        }
        if pairs[i] == *p {
            return true;
        }
        i += 1;
    }
    false
}

/// The Deployment pass: folds the rows into services and roles exactly as
/// `spec_deployment_fold` describes.
pub fn deployment_pass(rows: &Vec<DeploymentRecord>) -> (r: Result<
    (Vec<MatrixService>, Vec<MatrixRole>),
    LoadError,
>)
    ensures
        (match r {
            Ok((ss, rr)) => spec_deployment_fold(
                rows@.map_values(|x: DeploymentRecord| x@),
                rows@.len() as int,
            ) == Ok::<(Seq<MatrixServiceView>, Seq<MatrixRoleView>), LoadErrorKind>(
                (
                    ss@.map_values(|s: MatrixService| s@),
                    rr@.map_values(|x: MatrixRole| x@),
                ),
            ),
            Err(e) => spec_deployment_fold(
                rows@.map_values(|x: DeploymentRecord| x@),
                rows@.len() as int,
            ) == Err::<(Seq<MatrixServiceView>, Seq<MatrixRoleView>), LoadErrorKind>(e@),
        }),
{
    let ghost rowsv = rows@.map_values(|x: DeploymentRecord| x@);
    let n = rows.len();
    let mut services: Vec<MatrixService> = Vec::new();
    let mut roles: Vec<MatrixRole> = Vec::new();
    proof {
        assert(services@.map_values(|s: MatrixService| s@) =~= Seq::<MatrixServiceView>::empty());
        assert(roles@.map_values(|x: MatrixRole| x@) =~= Seq::<MatrixRoleView>::empty());
    }
    let mut i: usize = 0;
    while i < n
        invariant
            i <= n,
            n == rows.len(),
            rowsv == rows@.map_values(|x: DeploymentRecord| x@),
            spec_deployment_fold(rowsv, i as int) == Ok::<
                (Seq<MatrixServiceView>, Seq<MatrixRoleView>),
                LoadErrorKind,
            >(
                (
                    services@.map_values(|s: MatrixService| s@),
                    roles@.map_values(|x: MatrixRole| x@),
                ),
            ),
        decreases n - i,
    {
        let ghost sv0 = services@.map_values(|s: MatrixService| s@);
        let ghost rv0 = roles@.map_values(|x: MatrixRole| x@);
        let row = &rows[i];
        proof {
            assert(rowsv[i as int] == rows@[i as int]@);
        }
        let sid = match parse_hex_u16(row.service_id.as_str()) {
            Ok(v) => v,
            Err(e) => {
                proof {
                    lemma_deployment_fold_err_stays(rowsv, i as int + 1, n as int);
                }
                return Err(e);
            },
        };
        let iid = match parse_hex_u16(row.instance_id.as_str()) {
            Ok(v) => v,
            Err(e) => {
                proof {
                    lemma_deployment_fold_err_stays(rowsv, i as int + 1, n as int);
                }
                return Err(e);
            },
        };
        let major = match parse_hex_u16(row.major_version.as_str()) {
            Ok(v) => v,
            Err(e) => {
                proof {
                    lemma_deployment_fold_err_stays(rowsv, i as int + 1, n as int);
                }
                return Err(e);
            },
        };
        let minor = match parse_hex_u16(row.minor_version.as_str()) {
            Ok(v) => v,
            Err(e) => {
                proof {
                    lemma_deployment_fold_err_stays(rowsv, i as int + 1, n as int);
                }
                return Err(e);
            },
        };
        let port = match parse_dec_u16(row.server_port.as_str()) {
            Ok(v) => v,
            Err(e) => {
                proof {
                    lemma_deployment_fold_err_stays(rowsv, i as int + 1, n as int);
                }
                return Err(e);
            },
        };
        if !contains_role(&roles, &row.server) {
            let ghost before = roles@.map_values(|x: MatrixRole| x@);
            roles.push(role_of(&row.server, &row.server_ip, &row.server_mac));
            proof {
                assert(roles@.map_values(|x: MatrixRole| x@) =~= before.push(
                    MatrixRoleView {
                        name: rowsv[i as int].server,
                        ip_addr: spec_role_ip(rowsv[i as int].server_ip),
                        mac_addr: spec_mac_of(rowsv[i as int].server_mac),
                    },
                ));
            }
        }
        proof {
            assert(roles@.map_values(|x: MatrixRole| x@) == spec_upsert_role(
                rv0,
                rowsv[i as int].server,
                rowsv[i as int].server_ip,
                rowsv[i as int].server_mac,
            ));
        }
        let ghost rv1 = roles@.map_values(|x: MatrixRole| x@);
        if !contains_role(&roles, &row.client) {
            let ghost before = roles@.map_values(|x: MatrixRole| x@);
            roles.push(role_of(&row.client, &row.client_ip, &row.client_mac));
            proof {
                assert(roles@.map_values(|x: MatrixRole| x@) =~= before.push(
                    MatrixRoleView {
                        name: rowsv[i as int].client,
                        ip_addr: spec_role_ip(rowsv[i as int].client_ip),
                        mac_addr: spec_mac_of(rowsv[i as int].client_mac),
                    },
                ));
            }
        }
        proof {
            assert(roles@.map_values(|x: MatrixRole| x@) == spec_upsert_role(
                rv1,
                rowsv[i as int].client,
                rowsv[i as int].client_ip,
                rowsv[i as int].client_mac,
            ));
        }
        let pair = MatrixRoleServerClientPair {
            server: row.server.clone(),
            server_port: port,
            client: row.client.clone(),
        };
        let ghost pairv = MatrixRoleServerClientPairView {
            server: rowsv[i as int].server,
            server_port: port,
            client: rowsv[i as int].client,
        };
        proof {
            assert(pair@ == pairv);
        }
        match find_service(&services, sid) {
            Some(si) => {
                proof {
                    lemma_deployment_fold_wf(rowsv, i as int);
                    let sj = service_index(sv0, sid);
                    assert(0 <= sj < sv0.len() && sv0[sj].service_id == sid);
                    if (si as int) < sj {
                        assert(sv0[si as int].service_id != sv0[sj].service_id);
                    }
                    if sj < (si as int) {
                        assert(sv0[sj].service_id != sv0[si as int].service_id);
                    }
                    assert(si as int == sj);
                }
                if !contains_pair(&services[si].server_client, &pair) {
                    let ghost before = services@.map_values(|s: MatrixService| s@);
                    let ghost braw = services@;
                    services[si].server_client.push(pair);
                    proof {
                        assert(services@.len() == braw.len());
                        assert(forall|k: int|
                            0 <= k < braw.len() && k != si ==> services@[k] == braw[k]);
                        assert(services@[si as int].server_client@ == braw[si as int
                        ].server_client@.push(pair));
                        assert(services@[si as int].service_id == braw[si as int].service_id);
                        assert(services@[si as int].service_name == braw[si as int].service_name);
                        assert(services@[si as int].service_description == braw[si as int
                        ].service_description);
                        assert(services@[si as int].instance_id == braw[si as int].instance_id);
                        assert(services@[si as int].major_verison == braw[si as int].major_verison);
                        assert(services@[si as int].minor_version == braw[si as int].minor_version);
                        assert(services@[si as int].methods == braw[si as int].methods);
                    }
                    proof {
                        let svc = before[si as int];
                        let upd = MatrixServiceView {
                            server_client: svc.server_client.push(pairv),
                            ..svc
                        };
                        assert(braw[si as int]@ == svc);
                        let newv = services@[si as int]@;
                        assert(newv.server_client =~= svc.server_client.push(pairv)) by {
                            assert(forall|k: int|
                                0 <= k < braw[si as int].server_client@.len()
                                    ==> services@[si as int].server_client@[k] == braw[si as int
                                ].server_client@[k]);
                        }
                        assert(newv == upd);
                        assert(services@.map_values(|s: MatrixService| s@) =~= before.update(
                            si as int,
                            upd,
                        ));
                    }
                }
            },
            None => {
                let ghost before = services@.map_values(|s: MatrixService| s@);
                let mut sc: Vec<MatrixRoleServerClientPair> = Vec::new();
                sc.push(pair);
                let svc = MatrixService {
                    service_id: sid,
                    service_name: row.service_interface_name.clone(),
                    service_description: String::new(),
                    instance_id: iid,
                    major_verison: major,
                    minor_version: minor,
                    methods: Vec::new(),
                    server_client: sc,
                };
                proof {
                    assert(svc@.server_client =~= seq![pairv]);
                    assert(svc@.methods =~= Seq::<crate::matrix::MatrixServiceMethodView>::empty());
                }
                services.push(svc);
                proof {
                    assert(services@.map_values(|s: MatrixService| s@) =~= before.push(
                        MatrixServiceView {
                            service_id: sid,
                            service_name: rowsv[i as int].service_interface_name,
                            service_description: Seq::empty(),
                            instance_id: iid,
                            major_verison: major,
                            minor_version: minor,
                            methods: Seq::empty(),
                            server_client: seq![pairv],
                        },
                    ));
                }
            },
        }
        proof {
            assert(spec_deployment_fold(rowsv, i as int + 1) == spec_deployment_step(
                sv0,
                rv0,
                rowsv[i as int],
            ));
        }
        i += 1;
    }
    proof {
        assert(rowsv.len() == n);
    }
    Ok((services, roles))
}


/// Upsert of a node by name: a known name reuses the node (forward
/// references may already have created a placeholder), a new one gets an
/// `Unimplemented` placeholder carrying the description.
pub open spec fn spec_upsert_node(
    nodes: Seq<MatrixDataNodeView>,
    name: Seq<char>,
    desc: Seq<char>,
) -> Seq<MatrixDataNodeView> {
    if has_node(nodes, name) {
        nodes
    } else {
        nodes.push(
            MatrixDataNodeView {
                name: name,
                description: desc,
                data_type: MatrixTypeView::Unimplemented,
            },
        )
    }
}

/// Upsert of the shared leaf node a primitive-typed member references.
pub open spec fn spec_upsert_number_node(
    nodes: Seq<MatrixDataNodeView>,
    key: Seq<char>,
    nt: NumberType,
) -> Seq<MatrixDataNodeView> {
    if has_node(nodes, key) {
        nodes
    } else {
        nodes.push(
            MatrixDataNodeView {
                name: key,
                description: Seq::empty(),
                data_type: MatrixTypeView::Number { size: nt },
            },
        )
    }
}

/// The named node's payload shape.
pub open spec fn node_type_at(nodes: Seq<MatrixDataNodeView>, name: Seq<char>) -> MatrixTypeView {
    node_at(nodes, name).data_type
}

/// Overwrites the named node's description.
pub open spec fn spec_set_desc(
    nodes: Seq<MatrixDataNodeView>,
    name: Seq<char>,
    desc: Seq<char>,
) -> Seq<MatrixDataNodeView> {
    if has_node(nodes, name) {
        let i = node_index(nodes, name);
        nodes.update(i, MatrixDataNodeView { description: desc, ..nodes[i] })
    } else {
        nodes
    }
}

/// Overwrites the named node's payload shape.
pub open spec fn spec_set_type(
    nodes: Seq<MatrixDataNodeView>,
    name: Seq<char>,
    ty: MatrixTypeView,
) -> Seq<MatrixDataNodeView> {
    if has_node(nodes, name) {
        let i = node_index(nodes, name);
        nodes.update(i, MatrixDataNodeView { data_type: ty, ..nodes[i] })
    } else {
        nodes
    }
}

/// Appends a member to the named node when it is a struct.
pub open spec fn spec_append_member(
    nodes: Seq<MatrixDataNodeView>,
    name: Seq<char>,
    m: MatrixMemberView,
) -> Seq<MatrixDataNodeView> {
    if has_node(nodes, name) {
        match node_type_at(nodes, name) {
            MatrixTypeView::Struct { members } => spec_set_type(
                nodes,
                name,
                MatrixTypeView::Struct { members: members.push(m) },
            ),
            _ => nodes,
        }
    } else {
        nodes
    }
}

/// Replaces the named node's element and length when it is an array.
pub open spec fn spec_set_array(
    nodes: Seq<MatrixDataNodeView>,
    name: Seq<char>,
    len: StringArrayLength,
    m: MatrixMemberView,
) -> Seq<MatrixDataNodeView> {
    if has_node(nodes, name) {
        match node_type_at(nodes, name) {
            MatrixTypeView::Array { .. } => spec_set_type(
                nodes,
                name,
                MatrixTypeView::Array { length: len, member: m },
            ),
            _ => nodes,
        }
    } else {
        nodes
    }
}

/// One when a further array row overwrites an element already configured:
/// the loader warns instead of losing the earlier row silently.
pub open spec fn spec_array_warn(nodes: Seq<MatrixDataNodeView>, name: Seq<char>) -> int {
    if has_node(nodes, name) {
        match node_type_at(nodes, name) {
            MatrixTypeView::Array { member, .. } => if member.member_ref.len() > 0 {
                1
            } else {
                0
            },
            _ => 0,
        }
    } else {
        0
    }
}

/// Whether a data-type cell (lowered) marks a composite or referenced
/// member rather than a primitive.
pub open spec fn is_composite_dt(dt: Seq<char>) -> bool {
    dt == "struct"@ || dt == "array"@ || dt == "/"@ || dt.len() == 0 || dt == "union"@ || dt
        == "string"@ || dt == "utf-8"@
}

/// The arena key a member row references: an explicit reference not
/// starting with `/` wins over the member name.
pub open spec fn spec_member_key(mn: Seq<char>, rn: Seq<char>) -> Seq<char> {
    if rn.len() == 0 || rn[0] == '/' {
        mn
    } else {
        rn
    }
}

/// The length policy a row declares: `Fixed` with the declared byte or
/// element count (for a fixed run the length columns coincide, and the
/// count is read from the length-maximum column), or `Dynamic` with parsed
/// bounds. A missing length column is a missing-field error, an unparsable
/// one a malformed-source error.
#[verifier::opaque]
pub open spec fn spec_parse_length(r: DataTypeDefinitionRecordView) -> Result<
    StringArrayLength,
    LoadErrorKind,
> {
    match r.string_array_length_type {
        None => Err(LoadErrorKind::MissingField),
        Some(lt) => if lt == "Fixed"@ {
            match r.string_array_length_max {
                None => Err(LoadErrorKind::MissingField),
                Some(mx) => match spec_parse_dec_len(mx) {
                    Some(n) => Ok(StringArrayLength::FIXED(n)),
                    None => Err(LoadErrorKind::MalformedSource),
                },
            }
        } else if lt == "Dynamic"@ {
            match (r.string_array_length_min, r.string_array_length_max) {
                (Some(mn), Some(mx)) => match (spec_parse_dec_len(mn), spec_parse_dec_len(mx)) {
                    (Some(a), Some(b)) => Ok(StringArrayLength::DYNAMIC(a, b)),
                    _ => Err(LoadErrorKind::MalformedSource),
                },
                _ => Err(LoadErrorKind::MissingField),
            }
        } else {
            Err(LoadErrorKind::MalformedSource)
        },
    }
}

/// The string encoding a (lowered) data-type cell declares.
pub open spec fn spec_encoding_of(dt: Seq<char>) -> Result<StringEncoding, LoadErrorKind> {
    if dt == "utf-8"@ {
        Ok(StringEncoding::UTF8)
    } else if dt == "utf-16"@ {
        Ok(StringEncoding::UTF16LE)
    } else {
        Err(LoadErrorKind::MalformedSource)
    }
}

/// One DataTypeDefinition row folded into the arena: rows sharing a name
/// accumulate into one node, members and elements reference nodes by name
/// (creating placeholders for forward references), and primitive members
/// share one leaf node keyed by the primitive's name.
pub open spec fn spec_datatype_step(
    nodes: Seq<MatrixDataNodeView>,
    warns: int,
    r: DataTypeDefinitionRecordView,
) -> Result<(Seq<MatrixDataNodeView>, int), LoadErrorKind> {
    match r.parameter_data_type_name {
        None => Ok((nodes, warns)),
        Some(name) => match r.data_category {
            None => Err(LoadErrorKind::MissingField),
            Some(cat_raw) => {
                let cat = spec_ascii_lower(cat_raw);
                let desc = opt_or_empty(r.data_type_description);
                let nodes2 = spec_set_desc(spec_upsert_node(nodes, name, desc), name, desc);
                let dt = spec_ascii_lower(opt_or_empty(r.data_type));
                if cat == "struct"@ {
                    let nodes3 = if node_type_at(nodes2, name) is Unimplemented {
                        spec_set_type(
                            nodes2,
                            name,
                            MatrixTypeView::Struct { members: Seq::empty() },
                        )
                    } else {
                        nodes2
                    };
                    match r.member_name {
                        None => Err(LoadErrorKind::MissingField),
                        Some(mn) => {
                            let mdesc = opt_or_empty(r.member_description);
                            if is_composite_dt(dt) {
                                let key = spec_member_key(
                                    mn,
                                    opt_or_empty(r.member_data_type_reference),
                                );
                                let nodes4 = spec_upsert_node(nodes3, key, mdesc);
                                Ok(
                                    (
                                        spec_append_member(
                                            nodes4,
                                            name,
                                            MatrixMemberView {
                                                member_name: mn,
                                                member_description: mdesc,
                                                member_ref: key,
                                            },
                                        ),
                                        warns,
                                    ),
                                )
                            } else {
                                match spec_number_type_of(dt) {
                                    None => Err(LoadErrorKind::MalformedSource),
                                    Some(nt) => {
                                        let key = opt_or_empty(r.data_type);
                                        let nodes4 = spec_upsert_number_node(nodes3, key, nt);
                                        Ok(
                                            (
                                                spec_append_member(
                                                    nodes4,
                                                    name,
                                                    MatrixMemberView {
                                                        member_name: mn,
                                                        member_description: mdesc,
                                                        member_ref: key,
                                                    },
                                                ),
                                                warns,
                                            ),
                                        )
                                    },
                                }
                            }
                        },
                    }
                } else if cat == "array"@ {
                    let nodes3 = if node_type_at(nodes2, name) is Unimplemented {
                        spec_set_type(
                            nodes2,
                            name,
                            MatrixTypeView::Array {
                                length: StringArrayLength::FIXED(0),
                                member: MatrixMemberView {
                                    member_name: Seq::empty(),
                                    member_description: Seq::empty(),
                                    member_ref: Seq::empty(),
                                },
                            },
                        )
                    } else {
                        nodes2
                    };
                    let mn = opt_or_empty(r.member_name);
                    let mdesc = opt_or_empty(r.member_description);
                    if is_composite_dt(dt) {
                        if mn.len() == 0 {
                            Err(LoadErrorKind::MissingField)
                        } else {
                            let key = spec_member_key(
                                mn,
                                opt_or_empty(r.member_data_type_reference),
                            );
                            let nodes4 = spec_upsert_node(nodes3, key, mdesc);
                            match spec_parse_length(r) {
                                Err(e) => Err(e),
                                Ok(len) => Ok(
                                    (
                                        spec_set_array(
                                            nodes4,
                                            name,
                                            len,
                                            MatrixMemberView {
                                                member_name: mn,
                                                member_description: mdesc,
                                                member_ref: key,
                                            },
                                        ),
                                        warns + spec_array_warn(nodes4, name),
                                    ),
                                ),
                            }
                        }
                    } else {
                        match spec_number_type_of(dt) {
                            None => Err(LoadErrorKind::MalformedSource),
                            Some(nt) => {
                                let key = opt_or_empty(r.data_type);
                                let nodes4 = spec_upsert_number_node(nodes3, key, nt);
                                match spec_parse_length(r) {
                                    Err(e) => Err(e),
                                    Ok(len) => Ok(
                                        (
                                            spec_set_array(
                                                nodes4,
                                                name,
                                                len,
                                                MatrixMemberView {
                                                    member_name: mn,
                                                    member_description: mdesc,
                                                    member_ref: key,
                                                },
                                            ),
                                            warns + spec_array_warn(nodes4, name),
                                        ),
                                    ),
                                }
                            },
                        }
                    }
                } else if cat == "string"@ {
                    match spec_parse_length(r) {
                        Err(e) => Err(e),
                        Ok(len) => match spec_encoding_of(dt) {
                            Err(e) => Err(e),
                            Ok(enc) => Ok(
                                (
                                    spec_set_type(
                                        nodes2,
                                        name,
                                        MatrixTypeView::String { length: len, encoding: enc },
                                    ),
                                    warns,
                                ),
                            ),
                        },
                    }
                } else if cat == "integer"@ || cat == "enumeration"@ || cat == "float"@ || cat
                    == "double"@ {
                    match spec_number_type_of(dt) {
                        None => Err(LoadErrorKind::MalformedSource),
                        Some(nt) => Ok(
                            (
                                spec_set_type(
                                    nodes2,
                                    name,
                                    MatrixTypeView::Number { size: nt },
                                ),
                                warns,
                            ),
                        ),
                    }
                } else {
                    Err(LoadErrorKind::UnknownCategory)
                }
            },
        },
    }
}

/// The first `n` DataTypeDefinition rows folded in order, with the count of
/// array-redefinition warnings.
pub open spec fn spec_datatype_fold(rows: Seq<DataTypeDefinitionRecordView>, n: int) -> Result<
    (Seq<MatrixDataNodeView>, int),
    LoadErrorKind,
>
    decreases n,
{
    if n <= 0 {
        Ok((Seq::empty(), 0))
    } else {
        match spec_datatype_fold(rows, n - 1) {
            Err(e) => Err(e),
            Ok((nodes, w)) => spec_datatype_step(nodes, w, rows[n - 1]),
        }
    }
}

proof fn lemma_datatype_fold_err_stays(rows: Seq<DataTypeDefinitionRecordView>, i: int, n: int)
    requires
        0 <= i <= n,
        spec_datatype_fold(rows, i) is Err,
    ensures
        spec_datatype_fold(rows, n) == spec_datatype_fold(rows, i),
    decreases n - i,
{
    if i < n {
        lemma_datatype_fold_err_stays(rows, i, n - 1);
    }
}

/// The fold keeps node names unique and warning counts non-negative.
#[verifier::rlimit(100)]
#[verifier::spinoff_prover]
pub proof fn lemma_datatype_fold_unique(rows: Seq<DataTypeDefinitionRecordView>, n: int)
    requires
        spec_datatype_fold(rows, n) is Ok,
    ensures
        (match spec_datatype_fold(rows, n) {
            Ok((nodes, w)) => w >= 0 && (forall|i: int, j: int|
                0 <= i < j < nodes.len() ==> nodes[i].name != nodes[j].name),
            Err(_) => true,
        }),
    decreases n,
{
    if n > 0 {
        match spec_datatype_fold(rows, n - 1) {
            Err(_) => {},
            Ok((nodes0, w0)) => {
                lemma_datatype_fold_unique(rows, n - 1);
            },
        }
    }
}


/// A non-empty character sequence encodes to at least one byte, and its
/// first byte is 47 exactly when its first character is `/`.
proof fn lemma_first_byte_slash(s: Seq<char>)
    requires
        s.len() > 0,
    ensures
        vstd::utf8::encode_utf8(s).len() > 0,
        (vstd::utf8::encode_utf8(s)[0] == 47) == (s[0] == '/'),
{
    let u = s[0] as u32;
    vstd::utf8::char_is_scalar(s[0]);
    let head = vstd::utf8::encode_scalar(u);
    assert(vstd::utf8::encode_utf8(s) == head + vstd::utf8::encode_utf8(s.drop_first()));
    assert(('/' as u32) == 47);
    if vstd::utf8::has_width_1_encoding(u) {
        assert(head[0] == vstd::utf8::leading_byte_width_1(u));
        assert(vstd::utf8::leading_byte_width_1(u) == (u & 0x7F) as u8);
        assert(u <= 0x7F ==> (u & 0x7F) == u) by (bit_vector);
        if head[0] == 47 {
            assert(u == 47);
            vstd::utf8::char_u32_cast(s[0], 47);
        }
        if s[0] == '/' {
            assert(u == 47);
        }
    } else {
        let b0 = head[0];
        if vstd::utf8::has_width_2_encoding(u) {
            assert(b0 == (0xC0u8 | (((u >> 6) & 0x1F) as u8)));
            assert(forall|y: u8| (0xC0u8 | y) >= 0xC0) by (bit_vector);
        } else if vstd::utf8::has_width_3_encoding(u) {
            assert(b0 == (0xE0u8 | (((u >> 12) & 0x0F) as u8)));
            assert(forall|y: u8| (0xE0u8 | y) >= 0xE0) by (bit_vector);
        } else {
            assert(b0 == (0xF0u8 | (((u >> 18) & 0x7) as u8)));
            assert(forall|y: u8| (0xF0u8 | y) >= 0xF0) by (bit_vector);
        }
        assert(b0 != 47);
        assert(u >= 0x80);
        assert(s[0] != '/');
    }
}

/// An optional cell's text, absent meaning empty.
fn opt_or_empty_str(o: &Option<String>) -> (r: String)
    ensures
        r@ == opt_or_empty(opt_view(*o)),
{
    match o {
        Some(s) => s.clone(),
        None => String::new(),
    }
}

/// Whether the cell starts with `/`: such references fall back to the
/// member name.
fn starts_with_slash(s: &String) -> (r: bool)
    ensures
        r == (s@.len() > 0 && s@[0] == '/'),
{
    let st: &str = s.as_str();
    let b: &[u8] = st.as_bytes();
    proof {
        assert(b@ == st.spec_bytes());
        assert(st.spec_bytes() == vstd::utf8::encode_utf8(s@));
    }
    if b.len() == 0 {
        proof {
            if s@.len() > 0 {
                lemma_first_byte_slash(s@);
            }
        }
        false
    } else {
        proof {
            if s@.len() == 0 {
                assert(vstd::utf8::encode_utf8(s@) =~= Seq::<u8>::empty());
            }
            assert(s@.len() > 0);
            lemma_first_byte_slash(s@);
        }
        b[0] == 47
    }
}

/// Whether the string is empty (its view has no characters).
fn is_empty_str(s: &String) -> (r: bool)
    ensures
        r == (s@.len() == 0),
{
    let st: &str = s.as_str();
    let b: &[u8] = st.as_bytes();
    proof {
        assert(b@ == st.spec_bytes());
        assert(st.spec_bytes() == vstd::utf8::encode_utf8(s@));
    }
    if b.len() == 0 {
        proof {
            if s@.len() > 0 {
                lemma_first_byte_slash(s@);
            }
        }
        true
    } else {
        proof {
            if s@.len() == 0 {
                assert(vstd::utf8::encode_utf8(s@) =~= Seq::<u8>::empty());
            }
        }
        false
    }
}

/// Whether the (lowered) data-type cell marks a composite member.
fn is_composite(dt: &String) -> (r: bool)
    ensures
        r == is_composite_dt(spec_ascii_lower(dt@)),
{
    proof {
        lemma_keywords_ascii();
    }
    let lowered_empty = is_empty_str(dt);
    proof {
        assert(spec_ascii_lower(dt@).len() == dt@.len());
    }
    eq_lower(dt.as_str(), "struct") || eq_lower(dt.as_str(), "array") || eq_lower(
        dt.as_str(),
        "/",
    ) || lowered_empty || eq_lower(dt.as_str(), "union") || eq_lower(dt.as_str(), "string")
        || eq_lower(dt.as_str(), "utf-8")
}

/// Matches the data-type cell, lowered, against the numeric spellings: the
/// loader's case-insensitive counterpart of `NumberType::try_from`.
fn parse_number_type_lowered(dt: &String) -> (r: Result<NumberType, LoadError>)
    ensures
        (match r {
            Ok(n) => spec_number_type_of(spec_ascii_lower(dt@)) == Some(n),
            Err(e) => spec_number_type_of(spec_ascii_lower(dt@)) is None && e@
                == LoadErrorKind::MalformedSource,
        }),
{
    proof {
        lemma_keywords_ascii();
    }
    let n = if eq_lower(dt.as_str(), "boolean") {
        Some(NumberType::Boolean)
    } else if eq_lower(dt.as_str(), "uint8") {
        Some(NumberType::Uint8)
    } else if eq_lower(dt.as_str(), "uint16") {
        Some(NumberType::Uint16)
    } else if eq_lower(dt.as_str(), "uint32") {
        Some(NumberType::Uint32)
    } else if eq_lower(dt.as_str(), "uint64") {
        Some(NumberType::Uint64)
    } else if eq_lower(dt.as_str(), "sint8") {
        Some(NumberType::Sint8)
    } else if eq_lower(dt.as_str(), "sint16") {
        Some(NumberType::Sint16)
    } else if eq_lower(dt.as_str(), "sint32") {
        Some(NumberType::Sint32)
    } else if eq_lower(dt.as_str(), "sint64") {
        Some(NumberType::Sint64)
    } else if eq_lower(dt.as_str(), "float") {
        Some(NumberType::Float32)
    } else if eq_lower(dt.as_str(), "double") {
        Some(NumberType::Float64)
    } else {
        None
    };
    match n {
        Some(t) => Ok(t),
        None => Err(LoadError::MalformedSource("parse number type error.".to_owned())),
    }
}

/// Parses the string encoding a data-type cell declares.
pub fn parse_string_encoding(dt: &String) -> (r: Result<StringEncoding, LoadError>)
    ensures
        (match r {
            Ok(enc) => spec_encoding_of(spec_ascii_lower(dt@)) == Ok::<
                StringEncoding,
                LoadErrorKind,
            >(enc),
            Err(e) => spec_encoding_of(spec_ascii_lower(dt@)) == Err::<
                StringEncoding,
                LoadErrorKind,
            >(e@),
        }),
{
    proof {
        lemma_keywords_ascii();
    }
    if eq_lower(dt.as_str(), "utf-8") {
        Ok(StringEncoding::UTF8)
    } else if eq_lower(dt.as_str(), "utf-16") {
        Ok(StringEncoding::UTF16LE)
    } else {
        Err(LoadError::MalformedSource("parse encoding error".to_owned()))
    }
}

/// Parses the length policy a row declares.
pub fn parse_string_array_length(row: &DataTypeDefinitionRecord) -> (r: Result<
    StringArrayLength,
    LoadError,
>)
    ensures
        (match r {
            Ok(len) => spec_parse_length(row@) == Ok::<StringArrayLength, LoadErrorKind>(len),
            Err(e) => spec_parse_length(row@) == Err::<StringArrayLength, LoadErrorKind>(e@),
        }),
{
    proof {
        reveal(spec_parse_length);
    }
    match &row.string_array_length_type {
        None => Err(LoadError::MissingField("length type".to_owned())),
        Some(lt) => {
            if str_eq_literal(lt.as_str(), "Fixed") {
                match &row.string_array_length_max {
                    None => Err(LoadError::MissingField("length".to_owned())),
                    Some(mx) => match parse_dec_len(mx.as_str()) {
                        Err(_) => Err(LoadError::MalformedSource("length".to_owned())),
                        Ok(n) => Ok(StringArrayLength::FIXED(n)),
                    },
                }
            } else if str_eq_literal(lt.as_str(), "Dynamic") {
                match (&row.string_array_length_min, &row.string_array_length_max) {
                    (Some(mn), Some(mx)) => {
                        match parse_dec_len(mn.as_str()) {
                            Err(_) => Err(LoadError::MalformedSource(
                                "length bound".to_owned(),
                            )),
                            Ok(a) => match parse_dec_len(mx.as_str()) {
                                Err(_) => Err(LoadError::MalformedSource(
                                    "length bound".to_owned(),
                                )),
                                Ok(b) => Ok(StringArrayLength::DYNAMIC(a, b)),
                            },
                        }
                    },
                    _ => Err(LoadError::MissingField("length bound".to_owned())),
                }
            } else {
                Err(LoadError::MalformedSource("parse length type error".to_owned()))
            }
        },
    }
}

/// Copies one member slot.
fn clone_member(m: &MatrixMember) -> (r: MatrixMember)
    ensures
        r == *m,
{
    MatrixMember {
        member_name: m.member_name.clone(),
        member_description: m.member_description.clone(),
        member_ref: m.member_ref.clone(),
    }
}

/// Copies a member list.
fn copy_members(src: &Vec<MatrixMember>) -> (r: Vec<MatrixMember>)
    ensures
        r@ == src@,
{
    let n = src.len();
    let mut out: Vec<MatrixMember> = Vec::new();
    let mut i: usize = 0;
    while i < n
        invariant
            i <= n,
            n == src.len(),
            out@ =~= src@.subrange(0, i as int),
        decreases n - i,
    {
        out.push(clone_member(&src[i]));
        i += 1;
    }
    proof {
        assert(out@ =~= src@);
    }
    out
}

/// Index of the arena node with this name, when names are unique.
fn find_node_vec(nodes: &Vec<MatrixDataNode>, name: &String) -> (r: Option<usize>)
    requires
        forall|i: int, j: int|
            #![trigger nodes@[i], nodes@[j]]
            0 <= i < j < nodes@.len() ==> nodes@.map_values(|x: MatrixDataNode| x@)[i].name
                != nodes@.map_values(|x: MatrixDataNode| x@)[j].name,
    ensures
        (match r {
            Some(j) => j < nodes@.len() && has_node(
                nodes@.map_values(|x: MatrixDataNode| x@),
                name@,
            ) && j == node_index(nodes@.map_values(|x: MatrixDataNode| x@), name@),
            None => !has_node(nodes@.map_values(|x: MatrixDataNode| x@), name@),
        }),
{
    let ghost nv = nodes@.map_values(|x: MatrixDataNode| x@);
    let n = nodes.len();
    let mut idx: usize = 0;
    while idx < n
        invariant
            idx <= n,
            n == nodes.len(),
            nv == nodes@.map_values(|x: MatrixDataNode| x@),
            forall|i: int, j: int| 0 <= i < j < nv.len() ==> nv[i].name != nv[j].name,
            forall|i: int| 0 <= i < idx ==> nv[i].name != name@,
        decreases n - idx,
    {
        proof {
            assert(nv[idx as int] == nodes@[idx as int]@);
        }
        if nodes[idx].name == *name {
            proof {
                let i = idx as int;
                let j = node_index(nv, name@);
                assert(0 <= j < nv.len() && nv[j].name == name@);
                if i < j {
                    assert(nv[i].name != nv[j].name);
                }
                if j < i {
                    assert(nv[j].name != nv[i].name);
                }
            }
            return Some(idx);
        }
        idx += 1;
    }
    None
}


/// Appends a placeholder node to the arena.
fn push_node(nodes: &mut Vec<MatrixDataNode>, name: &String, desc: &String)
    ensures
        final(nodes)@.map_values(|x: MatrixDataNode| x@) == old(nodes)@.map_values(
            |x: MatrixDataNode| x@,
        ).push(
            MatrixDataNodeView {
                name: name@,
                description: desc@,
                data_type: MatrixTypeView::Unimplemented,
            },
        ),
{
    let ghost before = nodes@.map_values(|x: MatrixDataNode| x@);
    nodes.push(
        MatrixDataNode {
            name: name.clone(),
            description: desc.clone(),
            data_type: MatrixType::Unimplemented,
        },
    );
    proof {
        assert(nodes@.map_values(|x: MatrixDataNode| x@) =~= before.push(
            MatrixDataNodeView {
                name: name@,
                description: desc@,
                data_type: MatrixTypeView::Unimplemented,
            },
        ));
    }
}

/// Overwrites one node's description.
fn set_node_desc(nodes: &mut Vec<MatrixDataNode>, idx: usize, desc: &String)
    requires
        idx < old(nodes)@.len(),
    ensures
        final(nodes)@.map_values(|x: MatrixDataNode| x@) == old(nodes)@.map_values(
            |x: MatrixDataNode| x@,
        ).update(
            idx as int,
            MatrixDataNodeView {
                description: desc@,
                ..old(nodes)@.map_values(|x: MatrixDataNode| x@)[idx as int]
            },
        ),
{
    let ghost before = nodes@.map_values(|x: MatrixDataNode| x@);
    let ghost braw = nodes@;
    nodes[idx].description = desc.clone();
    proof {
        assert(nodes@.len() == braw.len());
        assert(forall|k: int| 0 <= k < braw.len() && k != idx ==> nodes@[k] == braw[k]);
        assert(nodes@[idx as int].name == braw[idx as int].name);
        assert(nodes@[idx as int].description@ == desc@);
        assert(nodes@[idx as int].data_type == braw[idx as int].data_type);
        assert(nodes@[idx as int]@ == MatrixDataNodeView {
            description: desc@,
            ..before[idx as int]
        });
        assert(nodes@.map_values(|x: MatrixDataNode| x@) =~= before.update(
            idx as int,
            MatrixDataNodeView { description: desc@, ..before[idx as int] },
        ));
    }
}

/// Overwrites one node's payload shape.
fn set_node_type(nodes: &mut Vec<MatrixDataNode>, idx: usize, ty: MatrixType)
    requires
        idx < old(nodes)@.len(),
    ensures
        final(nodes)@.map_values(|x: MatrixDataNode| x@) == old(nodes)@.map_values(
            |x: MatrixDataNode| x@,
        ).update(
            idx as int,
            MatrixDataNodeView {
                data_type: ty@,
                ..old(nodes)@.map_values(|x: MatrixDataNode| x@)[idx as int]
            },
        ),
{
    let ghost before = nodes@.map_values(|x: MatrixDataNode| x@);
    let ghost braw = nodes@;
    let ghost tyv = ty@;
    nodes[idx].data_type = ty;
    proof {
        assert(nodes@.len() == braw.len());
        assert(forall|k: int| 0 <= k < braw.len() && k != idx ==> nodes@[k] == braw[k]);
        assert(nodes@[idx as int].name == braw[idx as int].name);
        assert(nodes@[idx as int].description == braw[idx as int].description);
        assert(nodes@[idx as int].data_type@ == tyv);
        assert(nodes@[idx as int]@ == MatrixDataNodeView { data_type: tyv, ..before[idx as int] });
        assert(nodes@.map_values(|x: MatrixDataNode| x@) =~= before.update(
            idx as int,
            MatrixDataNodeView { data_type: tyv, ..before[idx as int] },
        ));
    }
}

/// Appends a member slot to a struct node (no effect on another shape).
fn append_struct_member(nodes: &mut Vec<MatrixDataNode>, idx: usize, m: MatrixMember)
    requires
        idx < old(nodes)@.len(),
    ensures
        final(nodes)@.map_values(|x: MatrixDataNode| x@) == (match old(nodes)@.map_values(
            |x: MatrixDataNode| x@,
        )[idx as int].data_type {
            MatrixTypeView::Struct { members } => old(nodes)@.map_values(
                |x: MatrixDataNode| x@,
            ).update(
                idx as int,
                MatrixDataNodeView {
                    data_type: MatrixTypeView::Struct { members: members.push(m@) },
                    ..old(nodes)@.map_values(|x: MatrixDataNode| x@)[idx as int]
                },
            ),
            _ => old(nodes)@.map_values(|x: MatrixDataNode| x@),
        }),
{
    let ghost before = nodes@.map_values(|x: MatrixDataNode| x@);
    let ghost mv = m@;
    let new_members: Option<Vec<MatrixMember>> = match &nodes[idx].data_type {
        MatrixType::Struct { members } => {
            let mut c = copy_members(members);
            c.push(m);
            Some(c)
        },
        _ => None,
    };
    match new_members {
        Some(ms) => {
            proof {
                assert(before[idx as int].data_type matches MatrixTypeView::Struct { .. });
                match nodes@[idx as int].data_type {
                    MatrixType::Struct { members } => {
                        assert(ms@ =~= members@.push(
                            MatrixMember {
                                member_name: m.member_name,
                                member_description: m.member_description,
                                member_ref: m.member_ref,
                            },
                        ));
                    },
                    _ => {
                        assert(false);
                    },
                }
            }
            let ghost msv = ms@.map_values(|x: MatrixMember| x@);
            proof {
                match before[idx as int].data_type {
                    MatrixTypeView::Struct { members } => {
                        assert(msv =~= members.push(mv));
                    },
                    _ => {
                        assert(false);
                    },
                }
            }
            set_node_type(nodes, idx, MatrixType::Struct { members: ms });
        },
        None => {
            proof {
                assert(!(before[idx as int].data_type matches MatrixTypeView::Struct { .. }));
            }
        },
    }
}

/// Replaces an array node's length and element member (no effect on
/// another shape).
fn set_array_node(nodes: &mut Vec<MatrixDataNode>, idx: usize, len: StringArrayLength, m: MatrixMember)
    requires
        idx < old(nodes)@.len(),
    ensures
        final(nodes)@.map_values(|x: MatrixDataNode| x@) == (match old(nodes)@.map_values(
            |x: MatrixDataNode| x@,
        )[idx as int].data_type {
            MatrixTypeView::Array { .. } => old(nodes)@.map_values(
                |x: MatrixDataNode| x@,
            ).update(
                idx as int,
                MatrixDataNodeView {
                    data_type: MatrixTypeView::Array { length: len, member: m@ },
                    ..old(nodes)@.map_values(|x: MatrixDataNode| x@)[idx as int]
                },
            ),
            _ => old(nodes)@.map_values(|x: MatrixDataNode| x@),
        }),
{
    let ghost before = nodes@.map_values(|x: MatrixDataNode| x@);
    let is_array = matches!(nodes[idx].data_type, MatrixType::Array { .. });
    if is_array {
        proof {
            assert(before[idx as int].data_type matches MatrixTypeView::Array { .. });
        }
        set_node_type(nodes, idx, MatrixType::Array { length: len, member: m });
    } else {
        proof {
            assert(!(before[idx as int].data_type matches MatrixTypeView::Array { .. }));
        }
    }
}


/// The DataTypeDefinition pass: folds the rows into the type arena exactly
/// as `spec_datatype_fold` describes, counting array-redefinition warnings.
#[verifier::rlimit(100)]
#[verifier::spinoff_prover]
pub fn datatype_pass(rows: &Vec<DataTypeDefinitionRecord>) -> (r: Result<
    (Vec<MatrixDataNode>, usize),
    LoadError,
>)
    ensures
        (match r {
            Ok((nodes, warns)) => spec_datatype_fold(
                rows@.map_values(|x: DataTypeDefinitionRecord| x@),
                rows@.len() as int,
            ) == Ok::<(Seq<MatrixDataNodeView>, int), LoadErrorKind>(
                (nodes@.map_values(|x: MatrixDataNode| x@), warns as int),
            ),
            Err(e) => spec_datatype_fold(
                rows@.map_values(|x: DataTypeDefinitionRecord| x@),
                rows@.len() as int,
            ) == Err::<(Seq<MatrixDataNodeView>, int), LoadErrorKind>(e@),
        }),
{
    let ghost rowsv = rows@.map_values(|x: DataTypeDefinitionRecord| x@);
    let n = rows.len();
    let mut nodes: Vec<MatrixDataNode> = Vec::new();
    let mut warns: usize = 0;
    proof {
        assert(nodes@.map_values(|x: MatrixDataNode| x@) =~= Seq::<MatrixDataNodeView>::empty());
    }
    let mut i: usize = 0;
    while i < n
        invariant
            i <= n,
            n == rows.len(),
            rowsv == rows@.map_values(|x: DataTypeDefinitionRecord| x@),
            warns <= i,
            spec_datatype_fold(rowsv, i as int) == Ok::<
                (Seq<MatrixDataNodeView>, int),
                LoadErrorKind,
            >((nodes@.map_values(|x: MatrixDataNode| x@), warns as int)),
        decreases n - i,
    {
        let ghost g0 = nodes@.map_values(|x: MatrixDataNode| x@);
        let ghost warns0 = warns as int;
        proof {
            assert(rowsv[i as int] == rows@[i as int]@);
            lemma_datatype_fold_unique(rowsv, i as int);
            lemma_keywords_ascii();
        }
        let row = &rows[i];
        let ghost rv = rowsv[i as int];
        match &row.parameter_data_type_name {
            None => {
                proof {
                    assert(spec_datatype_step(g0, warns0, rv) == Ok::<
                        (Seq<MatrixDataNodeView>, int),
                        LoadErrorKind,
                    >((g0, warns0)));
                }
            },
            Some(name) => {
                match &row.data_category {
                    None => {
                        proof {
                            lemma_datatype_fold_err_stays(rowsv, i as int + 1, n as int);
                        }
                        return Err(LoadError::MissingField("data_category is empty".to_owned()));
                    },
                    Some(cat_raw) => {
                        let desc = opt_or_empty_str(&row.data_type_description);
                        let idx: usize = match find_node_vec(&nodes, name) {
                            Some(j) => j,
                            None => {
                                push_node(&mut nodes, name, &desc);
                                nodes.len() - 1
                            },
                        };
                        let ghost g1 = spec_upsert_node(g0, name@, desc@);
                        proof {
                            assert(nodes@.map_values(|x: MatrixDataNode| x@) == g1);
                            assert(forall|a: int, b: int|
                                0 <= a < b < g1.len() ==> g1[a].name != g1[b].name);
                            assert(0 <= (idx as int) < g1.len() && g1[idx as int].name == name@);
                            assert(has_node(g1, name@));
                            let j = node_index(g1, name@);
                            assert(0 <= j < g1.len() && g1[j].name == name@);
                            if (idx as int) < j {
                                assert(g1[idx as int].name != g1[j].name);
                            }
                            if j < (idx as int) {
                                assert(g1[j].name != g1[idx as int].name);
                            }
                            assert(idx as int == node_index(g1, name@));
                        }
                        set_node_desc(&mut nodes, idx, &desc);
                        let ghost g2 = spec_set_desc(g1, name@, desc@);
                        proof {
                            assert(nodes@.map_values(|x: MatrixDataNode| x@) == g2);
                            assert(forall|a: int, b: int|
                                0 <= a < b < g2.len() ==> g2[a].name != g2[b].name);
                            assert(idx as int == node_index(g2, name@)) by {
                                assert(g2[idx as int].name == name@);
                                let j = node_index(g2, name@);
                                assert(0 <= j < g2.len() && g2[j].name == name@);
                                if (idx as int) < j {
                                    assert(g2[idx as int].name != g2[j].name);
                                }
                                if j < (idx as int) {
                                    assert(g2[j].name != g2[idx as int].name);
                                }
                            }
                        }
                        let dts = opt_or_empty_str(&row.data_type);
                        let ghost dtl = spec_ascii_lower(dts@);
                        if eq_lower(cat_raw.as_str(), "struct") {
                            if matches!(nodes[idx].data_type, MatrixType::Unimplemented) {
                                let empty_members: Vec<MatrixMember> = Vec::new();
                                proof {
                                    assert(empty_members@.map_values(|x: MatrixMember| x@)
                                        =~= Seq::<MatrixMemberView>::empty());
                                }
                                set_node_type(
                                    &mut nodes,
                                    idx,
                                    MatrixType::Struct { members: empty_members },
                                );
                            }
                            let ghost g3 = if node_type_at(g2, name@) is Unimplemented {
                                spec_set_type(
                                    g2,
                                    name@,
                                    MatrixTypeView::Struct { members: Seq::empty() },
                                )
                            } else {
                                g2
                            };
                            proof {
                                assert(nodes@.map_values(|x: MatrixDataNode| x@) == g3);
                                assert(forall|a: int, b: int|
                                    0 <= a < b < g3.len() ==> g3[a].name != g3[b].name);
                                assert(g3[idx as int].name == name@);
                            }
                            let mn: String = match &row.member_name {
                                Some(sv) => sv.clone(),
                                None => {
                                    proof {
                                        lemma_datatype_fold_err_stays(
                                            rowsv,
                                            i as int + 1,
                                            n as int,
                                        );
                                    }
                                    return Err(LoadError::MissingField(
                                        "parse record member name error".to_owned(),
                                    ));
                                },
                            };
                            let mdesc = opt_or_empty_str(&row.member_description);
                            let key: String = if is_composite(&dts) {
                                let rn = opt_or_empty_str(&row.member_data_type_reference);
                                let use_name = is_empty_str(&rn) || starts_with_slash(&rn);
                                let key = if use_name {
                                    mn.clone()
                                } else {
                                    rn
                                };
                                proof {
                                    assert(key@ == spec_member_key(
                                        mn@,
                                        opt_or_empty(rv.member_data_type_reference),
                                    ));
                                }
                                match find_node_vec(&nodes, &key) {
                                    Some(_) => {},
                                    None => {
                                        push_node(&mut nodes, &key, &mdesc);
                                    },
                                }
                                proof {
                                    assert(nodes@.map_values(|x: MatrixDataNode| x@)
                                        == spec_upsert_node(g3, key@, mdesc@));
                                }
                                key
                            } else {
                                match parse_number_type_lowered(&dts) {
                                    Err(e) => {
                                        proof {
                                            lemma_datatype_fold_err_stays(
                                                rowsv,
                                                i as int + 1,
                                                n as int,
                                            );
                                        }
                                        return Err(e);
                                    },
                                    Ok(nt) => {
                                        match find_node_vec(&nodes, &dts) {
                                            Some(_) => {},
                                            None => {
                                                let ghost gb = nodes@.map_values(
                                                    |x: MatrixDataNode| x@,
                                                );
                                                let empty_desc = String::new();
                                                nodes.push(
                                                    MatrixDataNode {
                                                        name: dts.clone(),
                                                        description: empty_desc,
                                                        data_type: MatrixType::Number {
                                                            size: nt,
                                                        },
                                                    },
                                                );
                                                proof {
                                                    assert(nodes@.map_values(
                                                        |x: MatrixDataNode| x@,
                                                    ) =~= gb.push(
                                                        MatrixDataNodeView {
                                                            name: dts@,
                                                            description: Seq::empty(),
                                                            data_type: MatrixTypeView::Number {
                                                                size: nt,
                                                            },
                                                        },
                                                    ));
                                                }
                                            },
                                        }
                                        proof {
                                            assert(nodes@.map_values(|x: MatrixDataNode| x@)
                                                == spec_upsert_number_node(g3, dts@, nt));
                                        }
                                        dts.clone()
                                    },
                                }
                            };
                            let ghost g4 = nodes@.map_values(|x: MatrixDataNode| x@);
                            proof {
                                assert(forall|a: int, b: int|
                                    0 <= a < b < g4.len() ==> g4[a].name != g4[b].name) by {
                                    assert(g3.len() <= g4.len());
                                    assert(forall|a: int| 0 <= a < g3.len() ==> g4[a] == g3[a]);
                                    if g4.len() > g3.len() {
                                        assert(!has_node(g3, g4[g4.len() - 1].name));
                                    }
                                }
                                assert(g4[idx as int].name == name@);
                                let j = node_index(g4, name@);
                                assert(0 <= j < g4.len() && g4[j].name == name@);
                                if (idx as int) < j {
                                    assert(g4[idx as int].name != g4[j].name);
                                }
                                if j < (idx as int) {
                                    assert(g4[j].name != g4[idx as int].name);
                                }
                                assert(idx as int == node_index(g4, name@));
                            }
                            let member = MatrixMember {
                                member_name: mn,
                                member_description: mdesc,
                                member_ref: key,
                            };
                            append_struct_member(&mut nodes, idx, member);
                            proof {
                                assert(spec_datatype_step(g0, warns0, rv) == Ok::<
                                    (Seq<MatrixDataNodeView>, int),
                                    LoadErrorKind,
                                >((nodes@.map_values(|x: MatrixDataNode| x@), warns as int)));
                            }
                        } else if eq_lower(cat_raw.as_str(), "array") {
                            if matches!(nodes[idx].data_type, MatrixType::Unimplemented) {
                                set_node_type(
                                    &mut nodes,
                                    idx,
                                    MatrixType::Array {
                                        length: StringArrayLength::FIXED(0),
                                        member: MatrixMember {
                                            member_name: String::new(),
                                            member_description: String::new(),
                                            member_ref: String::new(),
                                        },
                                    },
                                );
                            }
                            let ghost g3 = if node_type_at(g2, name@) is Unimplemented {
                                spec_set_type(
                                    g2,
                                    name@,
                                    MatrixTypeView::Array {
                                        length: StringArrayLength::FIXED(0),
                                        member: MatrixMemberView {
                                            member_name: Seq::empty(),
                                            member_description: Seq::empty(),
                                            member_ref: Seq::empty(),
                                        },
                                    },
                                )
                            } else {
                                g2
                            };
                            proof {
                                assert(nodes@.map_values(|x: MatrixDataNode| x@) == g3);
                                assert(forall|a: int, b: int|
                                    0 <= a < b < g3.len() ==> g3[a].name != g3[b].name);
                                assert(g3[idx as int].name == name@);
                            }
                            let mn = opt_or_empty_str(&row.member_name);
                            let mdesc = opt_or_empty_str(&row.member_description);
                            let key: String = if is_composite(&dts) {
                                if is_empty_str(&mn) {
                                    proof {
                                        lemma_datatype_fold_err_stays(
                                            rowsv,
                                            i as int + 1,
                                            n as int,
                                        );
                                    }
                                    return Err(LoadError::MissingField(
                                        "parse array error".to_owned(),
                                    ));
                                }
                                let rn = opt_or_empty_str(&row.member_data_type_reference);
                                let use_name = is_empty_str(&rn) || starts_with_slash(&rn);
                                let key = if use_name {
                                    mn.clone()
                                } else {
                                    rn
                                };
                                proof {
                                    assert(key@ == spec_member_key(
                                        mn@,
                                        opt_or_empty(rv.member_data_type_reference),
                                    ));
                                }
                                match find_node_vec(&nodes, &key) {
                                    Some(_) => {},
                                    None => {
                                        push_node(&mut nodes, &key, &mdesc);
                                    },
                                }
                                proof {
                                    assert(nodes@.map_values(|x: MatrixDataNode| x@)
                                        == spec_upsert_node(g3, key@, mdesc@));
                                }
                                key
                            } else {
                                match parse_number_type_lowered(&dts) {
                                    Err(e) => {
                                        proof {
                                            lemma_datatype_fold_err_stays(
                                                rowsv,
                                                i as int + 1,
                                                n as int,
                                            );
                                        }
                                        return Err(e);
                                    },
                                    Ok(nt) => {
                                        match find_node_vec(&nodes, &dts) {
                                            Some(_) => {},
                                            None => {
                                                let ghost gb = nodes@.map_values(
                                                    |x: MatrixDataNode| x@,
                                                );
                                                let empty_desc = String::new();
                                                nodes.push(
                                                    MatrixDataNode {
                                                        name: dts.clone(),
                                                        description: empty_desc,
                                                        data_type: MatrixType::Number {
                                                            size: nt,
                                                        },
                                                    },
                                                );
                                                proof {
                                                    assert(nodes@.map_values(
                                                        |x: MatrixDataNode| x@,
                                                    ) =~= gb.push(
                                                        MatrixDataNodeView {
                                                            name: dts@,
                                                            description: Seq::empty(),
                                                            data_type: MatrixTypeView::Number {
                                                                size: nt,
                                                            },
                                                        },
                                                    ));
                                                }
                                            },
                                        }
                                        proof {
                                            assert(nodes@.map_values(|x: MatrixDataNode| x@)
                                                == spec_upsert_number_node(g3, dts@, nt));
                                        }
                                        dts.clone()
                                    },
                                }
                            };
                            let ghost g4 = nodes@.map_values(|x: MatrixDataNode| x@);
                            proof {
                                assert(forall|a: int, b: int|
                                    0 <= a < b < g4.len() ==> g4[a].name != g4[b].name) by {
                                    assert(g3.len() <= g4.len());
                                    assert(forall|a: int| 0 <= a < g3.len() ==> g4[a] == g3[a]);
                                    if g4.len() > g3.len() {
                                        assert(!has_node(g3, g4[g4.len() - 1].name));
                                    }
                                }
                                assert(g4[idx as int].name == name@);
                                let j = node_index(g4, name@);
                                assert(0 <= j < g4.len() && g4[j].name == name@);
                                if (idx as int) < j {
                                    assert(g4[idx as int].name != g4[j].name);
                                }
                                if j < (idx as int) {
                                    assert(g4[j].name != g4[idx as int].name);
                                }
                                assert(idx as int == node_index(g4, name@));
                            }
                            let length = match parse_string_array_length(row) {
                                Ok(l) => l,
                                Err(e) => {
                                    proof {
                                        lemma_datatype_fold_err_stays(
                                            rowsv,
                                            i as int + 1,
                                            n as int,
                                        );
                                    }
                                    return Err(e);
                                },
                            };
                            let had_member: bool = match &nodes[idx].data_type {
                                MatrixType::Array { member, .. } => !is_empty_str(
                                    &member.member_ref,
                                ),
                                _ => false,
                            };
                            proof {
                                assert((if had_member {
                                    1int
                                } else {
                                    0int
                                }) == spec_array_warn(g4, name@));
                            }
                            if had_member {
                                warns = warns + 1;
                            }
                            let member = MatrixMember {
                                member_name: mn,
                                member_description: mdesc,
                                member_ref: key,
                            };
                            set_array_node(&mut nodes, idx, length, member);
                            proof {
                                assert(spec_datatype_step(g0, warns0, rv) == Ok::<
                                    (Seq<MatrixDataNodeView>, int),
                                    LoadErrorKind,
                                >((nodes@.map_values(|x: MatrixDataNode| x@), warns as int)));
                            }
                        } else if eq_lower(cat_raw.as_str(), "string") {
                            let length = match parse_string_array_length(row) {
                                Ok(l) => l,
                                Err(e) => {
                                    proof {
                                        lemma_datatype_fold_err_stays(
                                            rowsv,
                                            i as int + 1,
                                            n as int,
                                        );
                                    }
                                    return Err(e);
                                },
                            };
                            let encoding = match parse_string_encoding(&dts) {
                                Ok(enc) => enc,
                                Err(e) => {
                                    proof {
                                        lemma_datatype_fold_err_stays(
                                            rowsv,
                                            i as int + 1,
                                            n as int,
                                        );
                                    }
                                    return Err(e);
                                },
                            };
                            set_node_type(
                                &mut nodes,
                                idx,
                                MatrixType::String { length, encoding },
                            );
                            proof {
                                assert(spec_datatype_step(g0, warns0, rv) == Ok::<
                                    (Seq<MatrixDataNodeView>, int),
                                    LoadErrorKind,
                                >((nodes@.map_values(|x: MatrixDataNode| x@), warns as int)));
                            }
                        } else if eq_lower(cat_raw.as_str(), "integer") || eq_lower(
                            cat_raw.as_str(),
                            "enumeration",
                        ) || eq_lower(cat_raw.as_str(), "float") || eq_lower(
                            cat_raw.as_str(),
                            "double",
                        ) {
                            let nt = match parse_number_type_lowered(&dts) {
                                Ok(t) => t,
                                Err(e) => {
                                    proof {
                                        lemma_datatype_fold_err_stays(
                                            rowsv,
                                            i as int + 1,
                                            n as int,
                                        );
                                    }
                                    return Err(e);
                                },
                            };
                            set_node_type(&mut nodes, idx, MatrixType::Number { size: nt });
                            proof {
                                assert(spec_datatype_step(g0, warns0, rv) == Ok::<
                                    (Seq<MatrixDataNodeView>, int),
                                    LoadErrorKind,
                                >((nodes@.map_values(|x: MatrixDataNode| x@), warns as int)));
                            }
                        } else {
                            proof {
                                lemma_datatype_fold_err_stays(rowsv, i as int + 1, n as int);
                            }
                            return Err(LoadError::UnknownCategory(
                                "parse data category error".to_owned(),
                            ));
                        }
                    },
                }
            },
        }
        i += 1;
    }
    proof {
        assert(rowsv.len() == n);
    }
    Ok((nodes, warns))
}


/// Value of an optional id cell: absent or empty means "no id" (the row is
/// skipped), `0x`-prefixed cells read hex, others decimal; `None` is a
/// parse failure.
pub open spec fn spec_parse_empty_or_hex(v: Option<Seq<char>>) -> Option<Option<u16>> {
    match v {
        None => Some(None),
        Some(s) => if s.len() == 0 {
            Some(None)
        } else if s.len() >= 2 && s[0] == '0' && s[1] == 'x' {
            match spec_radix_val(s.skip(2), 16) {
                Some(x) => if x <= 0xFFFF {
                    Some(Some(x as u16))
                } else {
                    None
                },
                None => None,
            }
        } else {
            match spec_radix_val(s, 10) {
                Some(x) => if x <= 0xFFFF {
                    Some(Some(x as u16))
                } else {
                    None
                },
                None => None,
            }
        },
    }
}

/// Parses an optional id cell as the ServiceInterfaces pass reads it.
pub fn parse_empty_or_hex(v: &Option<String>) -> (r: Result<Option<u16>, LoadError>)
    ensures
        (match r {
            Ok(o) => spec_parse_empty_or_hex(opt_view(*v)) == Some(o),
            Err(e) => spec_parse_empty_or_hex(opt_view(*v)) is None && e@
                == LoadErrorKind::MalformedSource,
        }),
{
    match v {
        None => Ok(None),
        Some(sv) => {
            let st: &str = sv.as_str();
            if !st.is_ascii() {
                proof {
                    assert(!vstd::utf8::is_ascii_chars(sv@));
                    assert(exists|j: int|
                        0 <= j < sv@.len() && !('\0' <= #[trigger] sv@[j] <= '\u{7f}'));
                    let j = choose|j: int|
                        0 <= j < sv@.len() && !('\0' <= #[trigger] sv@[j] <= '\u{7f}');
                    lemma_nonascii_char_not_digit(sv@[j], 16);
                    lemma_nonascii_char_not_digit(sv@[j], 10);
                    let sq = sv@;
                    if sq.len() >= 2 && sq[0] == '0' && sq[1] == 'x' {
                        assert(j >= 2);
                        assert(sq.skip(2)[j - 2] == sq[j]);
                        lemma_invalid_digit_none(sq.skip(2), j - 2, 16);
                    } else {
                        if sq.len() > 0 {
                            lemma_invalid_digit_none(sq, j, 10);
                        }
                    }
                }
                return Err(LoadError::MalformedSource("non-ascii id cell".to_owned()));
            }
            proof {
                broadcast use vstd::string::is_ascii_spec_bytes;

            }
            let b: &[u8] = st.as_bytes();
            let n = b.len();
            assert(n == sv@.len());
            if n == 0 {
                return Ok(None);
            }
            if n >= 2 && b[0] == 48 && b[1] == 120 {
                proof {
                    vstd::utf8::char_u32_cast(sv@[0], 48);
                    vstd::utf8::char_u32_cast(sv@[1], 120);
                    assert(sv@[0] == '0' && sv@[1] == 'x');
                    assert(sv@.subrange(2, n as int) =~= sv@.skip(2));
                }
                match parse_radix_range(st, 16, 2, n) {
                    Ok(x) => {
                        if x <= 0xFFFF {
                            Ok(Some(x as u16))
                        } else {
                            Err(LoadError::MalformedSource("id out of range".to_owned()))
                        }
                    },
                    Err(_) => Err(LoadError::MalformedSource("bad hex id".to_owned())),
                }
            } else {
                proof {
                    if n >= 2 && sv@[0] == '0' && sv@[1] == 'x' {
                        assert(b@[0] == ('0' as u8) && b@[1] == ('x' as u8));
                        assert(false);
                    }
                    assert(sv@.subrange(0, n as int) =~= sv@);
                }
                match parse_radix_range(st, 10, 0, n) {
                    Ok(x) => {
                        if x <= 0xFFFF {
                            Ok(Some(x as u16))
                        } else {
                            Err(LoadError::MalformedSource("id out of range".to_owned()))
                        }
                    },
                    Err(_) => Err(LoadError::MalformedSource("bad decimal id".to_owned())),
                }
            }
        },
    }
}

/// One ServiceInterfaces row folded in: the first row of each contiguous id
/// run sets the service's description; a row whose id is absent from
/// Deployment is skipped and counted, not fatal.
pub open spec fn spec_interfaces_step(
    services: Seq<MatrixServiceView>,
    last_id: u16,
    skipped: int,
    r: ServiceInterfacesRecordView,
) -> Result<(Seq<MatrixServiceView>, u16, int), LoadErrorKind> {
    match spec_parse_empty_or_hex(r.service_id) {
        None => Err(LoadErrorKind::MalformedSource),
        Some(None) => Ok((services, last_id, skipped)),
        Some(Some(sid)) => if sid != last_id {
            if has_service(services, sid) {
                let si = service_index(services, sid);
                Ok(
                    (
                        services.update(
                            si,
                            MatrixServiceView {
                                service_description: r.service_description,
                                ..services[si]
                            },
                        ),
                        sid,
                        skipped,
                    ),
                )
            } else {
                Ok((services, sid, skipped + 1))
            }
        } else {
            Ok((services, last_id, skipped))
        },
    }
}

/// The first `n` ServiceInterfaces rows folded in order.
pub open spec fn spec_interfaces_fold(
    services: Seq<MatrixServiceView>,
    rows: Seq<ServiceInterfacesRecordView>,
    n: int,
) -> Result<(Seq<MatrixServiceView>, u16, int), LoadErrorKind>
    decreases n,
{
    if n <= 0 {
        Ok((services, 0u16, 0))
    } else {
        match spec_interfaces_fold(services, rows, n - 1) {
            Err(e) => Err(e),
            Ok((s, last, sk)) => spec_interfaces_step(s, last, sk, rows[n - 1]),
        }
    }
}

proof fn lemma_interfaces_fold_err_stays(
    services: Seq<MatrixServiceView>,
    rows: Seq<ServiceInterfacesRecordView>,
    i: int,
    n: int,
)
    requires
        0 <= i <= n,
        spec_interfaces_fold(services, rows, i) is Err,
    ensures
        spec_interfaces_fold(services, rows, n) == spec_interfaces_fold(services, rows, i),
    decreases n - i,
{
    if i < n {
        lemma_interfaces_fold_err_stays(services, rows, i, n - 1);
    }
}

/// The interfaces fold only rewrites descriptions: ids, triples, methods
/// and every other field survive, as do the deployment invariants.
pub proof fn lemma_interfaces_fold_preserves(
    services: Seq<MatrixServiceView>,
    rows: Seq<ServiceInterfacesRecordView>,
    n: int,
)
    requires
        spec_interfaces_fold(services, rows, n) is Ok,
    ensures
        (match spec_interfaces_fold(services, rows, n) {
            Ok((s, last, sk)) => {
                &&& s.len() == services.len()
                &&& sk >= 0
                &&& (forall|i: int|
                    0 <= i < s.len() ==> (#[trigger] s[i]).service_id
                        == services[i].service_id && s[i].service_name
                        == services[i].service_name && s[i].instance_id
                        == services[i].instance_id && s[i].major_verison
                        == services[i].major_verison && s[i].minor_version
                        == services[i].minor_version && s[i].methods == services[i].methods
                        && s[i].server_client == services[i].server_client)
            },
            Err(_) => true,
        }),
    decreases n,
{
    if n > 0 {
        match spec_interfaces_fold(services, rows, n - 1) {
            Err(_) => {},
            Ok((s0, l0, k0)) => {
                lemma_interfaces_fold_preserves(services, rows, n - 1);
            },
        }
    }
}

/// Overwrites one service's description.
fn set_service_desc(services: &mut Vec<MatrixService>, idx: usize, desc: &String)
    requires
        idx < old(services)@.len(),
    ensures
        final(services)@.map_values(|x: MatrixService| x@) == old(services)@.map_values(
            |x: MatrixService| x@,
        ).update(
            idx as int,
            MatrixServiceView {
                service_description: desc@,
                ..old(services)@.map_values(|x: MatrixService| x@)[idx as int]
            },
        ),
{
    let ghost before = services@.map_values(|x: MatrixService| x@);
    let ghost braw = services@;
    services[idx].service_description = desc.clone();
    proof {
        assert(services@.len() == braw.len());
        assert(forall|k: int| 0 <= k < braw.len() && k != idx ==> services@[k] == braw[k]);
        assert(services@[idx as int].service_id == braw[idx as int].service_id);
        assert(services@[idx as int].service_name == braw[idx as int].service_name);
        assert(services@[idx as int].service_description@ == desc@);
        assert(services@[idx as int].instance_id == braw[idx as int].instance_id);
        assert(services@[idx as int].major_verison == braw[idx as int].major_verison);
        assert(services@[idx as int].minor_version == braw[idx as int].minor_version);
        assert(services@[idx as int].methods == braw[idx as int].methods);
        assert(services@[idx as int].server_client == braw[idx as int].server_client);
        assert(services@[idx as int]@ == MatrixServiceView {
            service_description: desc@,
            ..before[idx as int]
        });
        assert(services@.map_values(|x: MatrixService| x@) =~= before.update(
            idx as int,
            MatrixServiceView { service_description: desc@, ..before[idx as int] },
        ));
    }
}

/// The ServiceInterfaces pass: folds the rows into the services exactly as
/// `spec_interfaces_fold` describes, returning the count of skipped rows.
pub fn interfaces_pass(services: &mut Vec<MatrixService>, rows: &Vec<ServiceInterfacesRecord>) -> (r:
    Result<usize, LoadError>)
    requires
        forall|i: int, j: int|
            #![trigger old(services)@[i], old(services)@[j]]
            0 <= i < j < old(services)@.len() ==> old(services)@.map_values(
                |x: MatrixService| x@,
            )[i].service_id != old(services)@.map_values(|x: MatrixService| x@)[j].service_id,
    ensures
        (match r {
            Ok(skipped) => spec_interfaces_fold(
                old(services)@.map_values(|x: MatrixService| x@),
                rows@.map_values(|x: ServiceInterfacesRecord| x@),
                rows@.len() as int,
            ) matches Ok((s, last, sk)) && s == final(services)@.map_values(
                |x: MatrixService| x@,
            ) && sk == skipped as int,
            Err(e) => spec_interfaces_fold(
                old(services)@.map_values(|x: MatrixService| x@),
                rows@.map_values(|x: ServiceInterfacesRecord| x@),
                rows@.len() as int,
            ) == Err::<(Seq<MatrixServiceView>, u16, int), LoadErrorKind>(e@),
        }),
{
    let ghost sv0 = services@.map_values(|x: MatrixService| x@);
    let ghost rowsv = rows@.map_values(|x: ServiceInterfacesRecord| x@);
    let n = rows.len();
    let mut last_id: u16 = 0;
    let mut skipped: usize = 0;
    let mut i: usize = 0;
    while i < n
        invariant
            i <= n,
            n == rows.len(),
            rowsv == rows@.map_values(|x: ServiceInterfacesRecord| x@),
            sv0 == old(services)@.map_values(|x: MatrixService| x@),
            skipped <= i,
            spec_interfaces_fold(sv0, rowsv, i as int) == Ok::<
                (Seq<MatrixServiceView>, u16, int),
                LoadErrorKind,
            >((services@.map_values(|x: MatrixService| x@), last_id, skipped as int)),
            forall|a: int, b: int| 0 <= a < b < sv0.len() ==> (#[trigger] sv0[a]).service_id != (
            #[trigger] sv0[b]).service_id,
        decreases n - i,
    {
        let ghost g0 = services@.map_values(|x: MatrixService| x@);
        proof {
            assert(rowsv[i as int] == rows@[i as int]@);
            lemma_interfaces_fold_preserves(sv0, rowsv, i as int);
            assert(forall|a: int, b: int|
                0 <= a < b < g0.len() ==> (#[trigger] g0[a]).service_id != (
                #[trigger] g0[b]).service_id);
        }
        let row = &rows[i];
        match parse_empty_or_hex(&row.service_id) {
            Err(e) => {
                proof {
                    lemma_interfaces_fold_err_stays(sv0, rowsv, i as int + 1, n as int);
                }
                return Err(e);
            },
            Ok(None) => {},
            Ok(Some(sid)) => {
                if sid != last_id {
                    last_id = sid;
                    match find_service(services, sid) {
                        Some(si) => {
                            proof {
                                let sj = service_index(g0, sid);
                                assert(0 <= sj < g0.len() && g0[sj].service_id == sid);
                                if (si as int) < sj {
                                    assert(g0[si as int].service_id != g0[sj].service_id);
                                }
                                if sj < (si as int) {
                                    assert(g0[sj].service_id != g0[si as int].service_id);
                                }
                                assert(si as int == sj);
                            }
                            set_service_desc(services, si, &row.service_description);
                        },
                        None => {
                            skipped = skipped + 1;
                        },
                    }
                }
            },
        }
        i += 1;
    }
    proof {
        assert(rowsv.len() == n);
    }
    Ok(skipped)
}


/// Serialization parameters of the classic wire format the analyzer
/// targets: one-byte alignment, struct length fields on, 32-bit length
/// fields, UTF-8 strings.
pub open spec fn spec_standard_params() -> MatrixSerializationParameter {
    MatrixSerializationParameter {
        alignment: MatrixSerializationParameterSize::B8,
        padding_for_fix_length: false,
        length_field_for_struct: true,
        tag_for_serialization: false,
        string_encoding: StringEncoding::UTF8,
        struct_length_field_size: MatrixSerializationParameterSize::B32,
        string_length_field_size: MatrixSerializationParameterSize::B32,
        array_length_field_size: MatrixSerializationParameterSize::B32,
        union_length_field_size: MatrixSerializationParameterSize::B32,
        union_type_selector_field_size: MatrixSerializationParameterSize::B32,
        union_null: false,
    }
}

/// Node `i` is defined (no placeholder) and its references resolve.
pub open spec fn type_usable_at(nodes: Seq<MatrixDataNodeView>, i: int) -> bool {
    node_refs_present(nodes, nodes[i]) && !(nodes[i].data_type is Unimplemented)
}

/// Every node is defined (no placeholder remains) and every reference
/// resolves: what the final load validation demands.
pub open spec fn all_types_usable(nodes: Seq<MatrixDataNodeView>) -> bool {
    forall|i: int| 0 <= i < nodes.len() ==> #[trigger] type_usable_at(nodes, i)
}

/// Whether some node of the arena bears this name.
fn has_node_vec(nodes: &Vec<MatrixDataNode>, name: &String) -> (r: bool)
    ensures
        r == has_node(nodes@.map_values(|x: MatrixDataNode| x@), name@),
{
    let ghost nv = nodes@.map_values(|x: MatrixDataNode| x@);
    let n = nodes.len();
    let mut i: usize = 0;
    while i < n
        invariant
            i <= n,
            n == nodes.len(),
            nv == nodes@.map_values(|x: MatrixDataNode| x@),
            forall|k: int| 0 <= k < i ==> nv[k].name != name@,
        decreases n - i,
    {
        proof {
            assert(nv[i as int] == nodes@[i as int]@);
        }
        if nodes[i].name == *name {
            return true;
        }
        i += 1;
    }
    false
}

/// The final load validation: no placeholder left, all references present.
fn check_types_usable(nodes: &Vec<MatrixDataNode>) -> (r: bool)
    ensures
        r == all_types_usable(nodes@.map_values(|x: MatrixDataNode| x@)),
{
    let ghost nv = nodes@.map_values(|x: MatrixDataNode| x@);
    let n = nodes.len();
    let mut i: usize = 0;
    while i < n
        invariant
            i <= n,
            n == nodes.len(),
            nv == nodes@.map_values(|x: MatrixDataNode| x@),
            forall|k: int| 0 <= k < i ==> #[trigger] type_usable_at(nv, k),
        decreases n - i,
    {
        proof {
            assert(nv[i as int] == nodes@[i as int]@);
        }
        match &nodes[i].data_type {
            MatrixType::Unimplemented => {
                proof {
                    assert(nv[i as int].data_type is Unimplemented);
                    assert(!type_usable_at(nv, i as int));
                    assert(!all_types_usable(nv));
                }
                return false;
            },
            MatrixType::Number { .. } => {
                proof {
                    assert(type_usable_at(nv, i as int));
                }
            },
            MatrixType::String { .. } => {
                proof {
                    assert(type_usable_at(nv, i as int));
                }
            },
            MatrixType::Array { member, .. } => {
                if !has_node_vec(nodes, &member.member_ref) {
                    proof {
                        assert(!node_refs_present(nv, nv[i as int]));
                        assert(!type_usable_at(nv, i as int));
                        assert(!all_types_usable(nv));
                    }
                    return false;
                }
                proof {
                    assert(type_usable_at(nv, i as int));
                }
            },
            MatrixType::Struct { members } => {
                let ghost mv = members@.map_values(|x: MatrixMember| x@);
                proof {
                    assert(nv[i as int].data_type matches MatrixTypeView::Struct { members: mm }
                        && mm == mv);
                }
                let mcount = members.len();
                let mut k: usize = 0;
                while k < mcount
                    invariant
                        k <= mcount,
                        i < n,
                        n == nodes.len(),
                        mcount == members.len(),
                        mv == members@.map_values(|x: MatrixMember| x@),
                        nv == nodes@.map_values(|x: MatrixDataNode| x@),
                        (nv[i as int].data_type matches MatrixTypeView::Struct { members: mm }
                            && mm == mv),
                        forall|q: int| 0 <= q < k ==> has_node(nv, (#[trigger] mv[q]).member_ref),
                    decreases mcount - k,
                {
                    proof {
                        assert(mv[k as int] == members@[k as int]@);
                    }
                    if !has_node_vec(nodes, &members[k].member_ref) {
                        proof {
                            assert(!has_node(nv, mv[k as int].member_ref));
                            assert(!node_refs_present(nv, nv[i as int]));
                            assert(!type_usable_at(nv, i as int));
                            assert(!all_types_usable(nv));
                        }
                        return false;
                    }
                    k += 1;
                }
                proof {
                    assert(type_usable_at(nv, i as int));
                }
            },
        }
        i += 1;
    }
    true
}

/// The whole load: the three passes in order, then the final validation,
/// exactly as the loader's specification fold describes.
pub open spec fn spec_from_rows(
    version: Seq<char>,
    drows: Seq<DeploymentRecordView>,
    trows: Seq<DataTypeDefinitionRecordView>,
    irows: Seq<ServiceInterfacesRecordView>,
) -> Result<(crate::matrix::MatrixView, int, int), LoadErrorKind> {
    match spec_deployment_fold(drows, drows.len() as int) {
        Err(e) => Err(e),
        Ok((services, roles)) => match spec_datatype_fold(trows, trows.len() as int) {
            Err(e) => Err(e),
            Ok((nodes, warns)) => match spec_interfaces_fold(
                services,
                irows,
                irows.len() as int,
            ) {
                Err(e) => Err(e),
                Ok((services2, _, skipped)) => if !all_types_usable(nodes) {
                    Err(LoadErrorKind::UnresolvedReference)
                } else {
                    Ok(
                        (
                            crate::matrix::MatrixView {
                                version: version,
                                services: services2,
                                data_types: nodes,
                                serialization_parameter: spec_standard_params(),
                                roles: roles,
                            },
                            warns,
                            skipped,
                        ),
                    )
                },
            },
        },
    }
}

impl Matrix {
    /// Builds a matrix from the three row streams. On success the model is
    /// well formed: unique service ids, node names and role names,
    /// deduplicated deployment triples, and every type reference resolved.
    pub fn from_rows(
        version: &String,
        deployment_rows: &Vec<DeploymentRecord>,
        datatype_rows: &Vec<DataTypeDefinitionRecord>,
        interface_rows: &Vec<ServiceInterfacesRecord>,
    ) -> (r: Result<(Matrix, usize, usize), LoadError>)
        ensures
            (match r {
                Ok((m, warns, skipped)) => spec_from_rows(
                    version@,
                    deployment_rows@.map_values(|x: DeploymentRecord| x@),
                    datatype_rows@.map_values(|x: DataTypeDefinitionRecord| x@),
                    interface_rows@.map_values(|x: ServiceInterfacesRecord| x@),
                ) == Ok::<(crate::matrix::MatrixView, int, int), LoadErrorKind>(
                    (m@, warns as int, skipped as int),
                ) && m@.wf(),
                Err(e) => spec_from_rows(
                    version@,
                    deployment_rows@.map_values(|x: DeploymentRecord| x@),
                    datatype_rows@.map_values(|x: DataTypeDefinitionRecord| x@),
                    interface_rows@.map_values(|x: ServiceInterfacesRecord| x@),
                ) == Err::<(crate::matrix::MatrixView, int, int), LoadErrorKind>(e@),
            }),
    {
        let ghost drows = deployment_rows@.map_values(|x: DeploymentRecord| x@);
        let ghost trows = datatype_rows@.map_values(|x: DataTypeDefinitionRecord| x@);
        let ghost irows = interface_rows@.map_values(|x: ServiceInterfacesRecord| x@);
        let (mut services, roles) = match deployment_pass(deployment_rows) {
            Ok(x) => x,
            Err(e) => {
                return Err(e);
            },
        };
        let (nodes, warns) = match datatype_pass(datatype_rows) {
            Ok(x) => x,
            Err(e) => {
                return Err(e);
            },
        };
        proof {
            lemma_deployment_fold_wf(drows, drows.len() as int);
            lemma_datatype_fold_unique(trows, trows.len() as int);
        }
        let skipped = match interfaces_pass(&mut services, interface_rows) {
            Ok(x) => x,
            Err(e) => {
                return Err(e);
            },
        };
        if !check_types_usable(&nodes) {
            return Err(LoadError::UnresolvedReference(
                "a referenced type never got a definition".to_owned(),
            ));
        }
        let params = MatrixSerializationParameter {
            alignment: MatrixSerializationParameterSize::B8,
            padding_for_fix_length: false,
            length_field_for_struct: true,
            tag_for_serialization: false,
            string_encoding: StringEncoding::UTF8,
            struct_length_field_size: MatrixSerializationParameterSize::B32,
            string_length_field_size: MatrixSerializationParameterSize::B32,
            array_length_field_size: MatrixSerializationParameterSize::B32,
            union_length_field_size: MatrixSerializationParameterSize::B32,
            union_type_selector_field_size: MatrixSerializationParameterSize::B32,
            union_null: false,
        };
        let m = Matrix {
            version: version.clone(),
            services,
            data_types: nodes,
            serialization_parameter: params,
            roles,
        };
        proof {
            lemma_interfaces_fold_preserves(
                spec_deployment_fold(drows, drows.len() as int)->Ok_0.0,
                irows,
                irows.len() as int,
            );
            assert(m@.service_ids_unique());
            assert(m@.data_type_names_unique());
            assert(m@.role_names_unique());
            assert(m@.deployment_pairs_distinct());
            assert(m@.type_refs_resolved()) by {
                assert forall|i: int| 0 <= i < m@.data_types.len() implies #[trigger] node_refs_present(
                    m@.data_types,
                    m@.data_types[i],
                ) by {
                    assert(type_usable_at(m@.data_types, i));
                }
            }
        }
        Ok((m, warns, skipped))
    }
}

/// Determinism law: loading the same three row streams (and version) twice
/// yields structurally equal models, warning counts and skip counts --
/// `spec_from_rows` is a function of its inputs and `from_rows` returns
/// exactly its value.
pub proof fn lemma_load_deterministic(
    version: Seq<char>,
    drows: Seq<DeploymentRecordView>,
    trows: Seq<DataTypeDefinitionRecordView>,
    irows: Seq<ServiceInterfacesRecordView>,
    m1: crate::matrix::MatrixView,
    w1: int,
    s1: int,
    m2: crate::matrix::MatrixView,
    w2: int,
    s2: int,
)
    requires
        spec_from_rows(version, drows, trows, irows) == Ok::<
            (crate::matrix::MatrixView, int, int),
            LoadErrorKind,
        >((m1, w1, s1)),
        spec_from_rows(version, drows, trows, irows) == Ok::<
            (crate::matrix::MatrixView, int, int),
            LoadErrorKind,
        >((m2, w2, s2)),
    ensures
        m1 == m2,
        w1 == w2,
        s1 == s2,
{
}


/// One arena grew out of another: no node was removed, and every node kept
/// its name and place; only new nodes were appended and existing ones
/// filled in.
pub open spec fn names_extended(a: Seq<MatrixDataNodeView>, b: Seq<MatrixDataNodeView>) -> bool {
    b.len() >= a.len() && forall|j: int| 0 <= j < a.len() ==> a[j].name == (#[trigger] b[j]).name
}

/// One successful fold step only extends the arena: nodes are appended or
/// filled in, never removed or renamed.
#[verifier::rlimit(100)]
#[verifier::spinoff_prover]
proof fn lemma_step_extends_names(
    nodes: Seq<MatrixDataNodeView>,
    warns: int,
    r: DataTypeDefinitionRecordView,
)
    requires
        spec_datatype_step(nodes, warns, r) is Ok,
    ensures
        names_extended(nodes, spec_datatype_step(nodes, warns, r)->Ok_0.0),
{
}

/// A successful fold of `n` rows only extends what the first `i` rows
/// built.
pub proof fn lemma_fold_extends_names(rows: Seq<DataTypeDefinitionRecordView>, i: int, n: int)
    requires
        0 <= i <= n,
        spec_datatype_fold(rows, n) is Ok,
    ensures
        spec_datatype_fold(rows, i) is Ok,
        names_extended(
            spec_datatype_fold(rows, i)->Ok_0.0,
            spec_datatype_fold(rows, n)->Ok_0.0,
        ),
    decreases n - i,
{
    if spec_datatype_fold(rows, i) is Err {
        lemma_datatype_fold_err_stays(rows, i, n);
    }
    if i < n {
        lemma_fold_extends_names(rows, i, n - 1);
        let a = spec_datatype_fold(rows, i)->Ok_0.0;
        let (b, wb) = spec_datatype_fold(rows, n - 1)->Ok_0;
        lemma_step_extends_names(b, wb, rows[n - 1]);
        let c = spec_datatype_step(b, wb, rows[n - 1])->Ok_0.0;
        assert(names_extended(a, c));
    }
}

/// Forward-reference law, whole table: when the fold of a table succeeds,
/// the arena key that any struct-member row references is present in the
/// final arena -- also when the referenced type's own defining rows appear
/// only later in the stream, since the member row inserts a placeholder at
/// once and every later row only extends or fills nodes, never removes
/// one.
pub proof fn lemma_forward_reference_table(
    rows: Seq<DataTypeDefinitionRecordView>,
    i: int,
    n: int,
)
    requires
        0 <= i < n <= rows.len(),
        spec_datatype_fold(rows, n) is Ok,
        rows[i].parameter_data_type_name is Some,
        rows[i].data_category matches Some(cat) && spec_ascii_lower(cat) == "struct"@,
        rows[i].member_name is Some,
        is_composite_dt(spec_ascii_lower(opt_or_empty(rows[i].data_type))),
    ensures
        (match spec_datatype_fold(rows, n) {
            Ok((nodes, _)) => has_node(
                nodes,
                spec_member_key(
                    rows[i].member_name->0,
                    opt_or_empty(rows[i].member_data_type_reference),
                ),
            ),
            Err(_) => true,
        }),
{
    let key = spec_member_key(
        rows[i].member_name->0,
        opt_or_empty(rows[i].member_data_type_reference),
    );
    lemma_fold_extends_names(rows, i + 1, n);
    lemma_fold_extends_names(rows, i, i + 1);
    let (nodes_i, w_i) = spec_datatype_fold(rows, i)->Ok_0;
    lemma_forward_reference(nodes_i, w_i, rows[i]);
    let after = spec_datatype_fold(rows, i + 1)->Ok_0.0;
    assert(after == spec_datatype_step(nodes_i, w_i, rows[i])->Ok_0.0);
    assert(has_node(after, key));
    let fin = spec_datatype_fold(rows, n)->Ok_0.0;
    let j = choose|j: int| 0 <= j < after.len() && after[j].name == key;
    assert(fin[j].name == key);
    assert(has_node(fin, key));
}

/// Forward-reference law: a struct-member row that references a type with
/// no definition yet is no error. The loader records the member and at once
/// creates a placeholder node under the referenced name, so the reference
/// resolves by name as soon as (and wherever) the defining rows appear.
pub proof fn lemma_forward_reference(
    nodes: Seq<MatrixDataNodeView>,
    warns: int,
    r: DataTypeDefinitionRecordView,
)
    requires
        r.parameter_data_type_name is Some,
        r.data_category matches Some(cat) && spec_ascii_lower(cat) == "struct"@,
        r.member_name is Some,
        is_composite_dt(spec_ascii_lower(opt_or_empty(r.data_type))),
    ensures
        spec_datatype_step(nodes, warns, r) is Ok,
        (match spec_datatype_step(nodes, warns, r) {
            Ok((nodes2, _)) => has_node(
                nodes2,
                spec_member_key(
                    r.member_name->0,
                    opt_or_empty(r.member_data_type_reference),
                ),
            ),
            Err(_) => true,
        }),
{
    let name = r.parameter_data_type_name->0;
    let desc = opt_or_empty(r.data_type_description);
    let nodes2 = spec_set_desc(spec_upsert_node(nodes, name, desc), name, desc);
    let nodes3 = if node_type_at(nodes2, name) is Unimplemented {
        spec_set_type(nodes2, name, MatrixTypeView::Struct { members: Seq::empty() })
    } else {
        nodes2
    };
    let mn = r.member_name->0;
    let mdesc = opt_or_empty(r.member_description);
    let key = spec_member_key(mn, opt_or_empty(r.member_data_type_reference));
    let nodes4 = spec_upsert_node(nodes3, key, mdesc);
    assert(has_node(nodes4, key)) by {
        if has_node(nodes3, key) {
        } else {
            assert(nodes4[nodes4.len() - 1].name == key);
        }
    }
    let nodes5 = spec_append_member(
        nodes4,
        name,
        MatrixMemberView { member_name: mn, member_description: mdesc, member_ref: key },
    );
    assert(has_node(nodes5, key)) by {
        let i = choose|i: int| 0 <= i < nodes4.len() && nodes4[i].name == key;
        assert(nodes5.len() == nodes4.len());
        assert(nodes5[i].name == key);
    }
}

} // verus!
