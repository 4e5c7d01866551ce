//! In-memory model of a communication matrix: a graph of named data-type
//! nodes (an arena whose cross-references are names, so cycles and forward
//! references are harmless), the deployed services with their roles, and the
//! per-matrix serialization parameters.

use vstd::prelude::*;

use crate::types::{
    IpAddress, ServerPort, SomeipInstanceId, SomeipMajorVersion, SomeipMethodId,
    SomeipMinorVersion, SomeipServiceId, SomeipTransportPortocol,
};

verus! {

#[derive(Clone, Copy, PartialEq, Eq, Structural, Debug)]
pub enum MatrixServiceMethodFieldType {
    Getter,
    Setter,
    Notifier,
}

/// Kind of a service method, with payload slots as type-node names.
#[derive(Debug)]
pub enum MatrixServiceMethodType {
    RRMethod { data_in: Vec<String>, data_out: String },
    FFMethod { data_in: Vec<String> },
    EVENT { data_out: String },
    FIELD { field_type: MatrixServiceMethodFieldType, data: String },
}

pub ghost enum MatrixServiceMethodTypeView {
    RRMethod { data_in: Seq<Seq<char>>, data_out: Seq<char> },
    FFMethod { data_in: Seq<Seq<char>> },
    EVENT { data_out: Seq<char> },
    FIELD { field_type: MatrixServiceMethodFieldType, data: Seq<char> },
}

impl View for MatrixServiceMethodType {
    type V = MatrixServiceMethodTypeView;

    open spec fn view(&self) -> MatrixServiceMethodTypeView {
        match self {
            MatrixServiceMethodType::RRMethod { data_in, data_out } => {
                MatrixServiceMethodTypeView::RRMethod {
                    data_in: data_in@.map_values(|s: String| s@),
                    data_out: data_out@,
                }
            },
            MatrixServiceMethodType::FFMethod { data_in } => {
                MatrixServiceMethodTypeView::FFMethod {
                    data_in: data_in@.map_values(|s: String| s@),
                }
            },
            MatrixServiceMethodType::EVENT { data_out } => {
                MatrixServiceMethodTypeView::EVENT { data_out: data_out@ }
            },
            MatrixServiceMethodType::FIELD { field_type, data } => {
                MatrixServiceMethodTypeView::FIELD { field_type: *field_type, data: data@ }
            },
        }
    }
}

/// Width class of a number node.
#[derive(Clone, Copy, PartialEq, Eq, Structural, Debug)]
pub enum NumberType {
    Boolean,
    Uint8,
    Uint16,
    Uint32,
    Uint64,
    Sint8,
    Sint16,
    Sint32,
    Sint64,
    Float32,
    Float64,
}

impl NumberType {
    /// Number of payload bytes a value of this numeric kind occupies.
    pub open spec fn spec_width(self) -> nat {
        match self {
            NumberType::Boolean | NumberType::Uint8 | NumberType::Sint8 => 1,
            NumberType::Uint16 | NumberType::Sint16 => 2,
            NumberType::Uint32 | NumberType::Sint32 | NumberType::Float32 => 4,
            NumberType::Uint64 | NumberType::Sint64 | NumberType::Float64 => 8,
        }
    }

    pub fn width(self) -> (w: usize)
        ensures
            w == self.spec_width(),
    {
        match self {
            NumberType::Boolean | NumberType::Uint8 | NumberType::Sint8 => 1,
            NumberType::Uint16 | NumberType::Sint16 => 2,
            NumberType::Uint32 | NumberType::Sint32 | NumberType::Float32 => 4,
            NumberType::Uint64 | NumberType::Sint64 | NumberType::Float64 => 8,
        }
    }

    /// Parses a data-type spelling into a numeric kind. The match is exact:
    /// only the lowercase spellings are accepted, and the loader lowers its
    /// cells before calling.
    pub fn try_from(value: &str) -> (r: Result<NumberType, crate::loader::LoadError>)
        ensures
            match r {
                Ok(n) => spec_number_type_of(value@) == Some(n),
                Err(e) => spec_number_type_of(value@) is None && e is MalformedSource,
            },
    {
        let n = if str_eq_literal(value, "boolean") {
            Some(NumberType::Boolean)
        } else if str_eq_literal(value, "uint8") {
            Some(NumberType::Uint8)
        } else if str_eq_literal(value, "uint16") {
            Some(NumberType::Uint16)
        } else if str_eq_literal(value, "uint32") {
            Some(NumberType::Uint32)
        } else if str_eq_literal(value, "uint64") {
            Some(NumberType::Uint64)
        } else if str_eq_literal(value, "sint8") {
            Some(NumberType::Sint8)
        } else if str_eq_literal(value, "sint16") {
            Some(NumberType::Sint16)
        } else if str_eq_literal(value, "sint32") {
            Some(NumberType::Sint32)
        } else if str_eq_literal(value, "sint64") {
            Some(NumberType::Sint64)
        } else if str_eq_literal(value, "float") {
            Some(NumberType::Float32)
        } else if str_eq_literal(value, "double") {
            Some(NumberType::Float64)
        } else {
            None
        };
        match n {
            Some(t) => Ok(t),
            None => Err(crate::loader::LoadError::MalformedSource(
                "parse number type error.".to_owned(),
            )),
        }
    }
}

/// The keyword literals the loader matches against are ASCII.
pub proof fn lemma_keywords_ascii()
    ensures
        vstd::utf8::is_ascii_chars("boolean"@),
        vstd::utf8::is_ascii_chars("uint8"@),
        vstd::utf8::is_ascii_chars("uint16"@),
        vstd::utf8::is_ascii_chars("uint32"@),
        vstd::utf8::is_ascii_chars("uint64"@),
        vstd::utf8::is_ascii_chars("sint8"@),
        vstd::utf8::is_ascii_chars("sint16"@),
        vstd::utf8::is_ascii_chars("sint32"@),
        vstd::utf8::is_ascii_chars("sint64"@),
        vstd::utf8::is_ascii_chars("float"@),
        vstd::utf8::is_ascii_chars("double"@),
        vstd::utf8::is_ascii_chars("struct"@),
        vstd::utf8::is_ascii_chars("array"@),
        vstd::utf8::is_ascii_chars("string"@),
        vstd::utf8::is_ascii_chars("integer"@),
        vstd::utf8::is_ascii_chars("enumeration"@),
        vstd::utf8::is_ascii_chars("union"@),
        vstd::utf8::is_ascii_chars("utf-8"@),
        vstd::utf8::is_ascii_chars("utf-16"@),
        vstd::utf8::is_ascii_chars("/"@),
        vstd::utf8::is_ascii_chars(""@),
{
    reveal_strlit("boolean");
    reveal_strlit("uint8");
    reveal_strlit("uint16");
    reveal_strlit("uint32");
    reveal_strlit("uint64");
    reveal_strlit("sint8");
    reveal_strlit("sint16");
    reveal_strlit("sint32");
    reveal_strlit("sint64");
    reveal_strlit("float");
    reveal_strlit("double");
    reveal_strlit("struct");
    reveal_strlit("array");
    reveal_strlit("string");
    reveal_strlit("integer");
    reveal_strlit("enumeration");
    reveal_strlit("union");
    reveal_strlit("utf-8");
    reveal_strlit("utf-16");
    reveal_strlit("/");
    reveal_strlit("");
}

/// The numeric kind a data-type column spelling denotes, if any.
pub open spec fn spec_number_type_of(s: Seq<char>) -> Option<NumberType> {
    if s == "boolean"@ {
        Some(NumberType::Boolean)
    } else if s == "uint8"@ {
        Some(NumberType::Uint8)
    } else if s == "uint16"@ {
        Some(NumberType::Uint16)
    } else if s == "uint32"@ {
        Some(NumberType::Uint32)
    } else if s == "uint64"@ {
        Some(NumberType::Uint64)
    } else if s == "sint8"@ {
        Some(NumberType::Sint8)
    } else if s == "sint16"@ {
        Some(NumberType::Sint16)
    } else if s == "sint32"@ {
        Some(NumberType::Sint32)
    } else if s == "sint64"@ {
        Some(NumberType::Sint64)
    } else if s == "float"@ {
        Some(NumberType::Float32)
    } else if s == "double"@ {
        Some(NumberType::Float64)
    } else {
        None
    }
}

/// Compares a `&str` against a literal through `String` equality, whose
/// result vstd ties to view equality.
pub fn str_eq_literal(a: &str, b: &str) -> (r: bool)
    ensures
        r == (a@ == b@),
{
    let sa: String = a.to_owned();
    let sb: String = b.to_owned();
    sa == sb
}

/// ASCII lowercase of one character; anything but `A`..`Z` is unchanged.
pub open spec fn lower_char(c: char) -> char {
    if 'A' <= c && c <= 'Z' {
        ((c as u32) + 32) as char
    } else {
        c
    }
}

/// ASCII lowercase of a character sequence: how the loader normalizes
/// category and data-type cells before matching keywords.
pub open spec fn spec_ascii_lower(s: Seq<char>) -> Seq<char> {
    s.map_values(|c: char| lower_char(c))
}

/// A character outside ASCII has a code point of 128 or more.
proof fn lemma_nonascii_code(c: char)
    requires
        !('\0' <= c <= '\u{7f}'),
    ensures
        (c as u32) >= 128,
{
}

/// Compares `a`, lowered, against an all-ASCII keyword.
pub fn eq_lower(a: &str, b: &str) -> (r: bool)
    requires
        vstd::utf8::is_ascii_chars(b@),
    ensures
        r == (spec_ascii_lower(a@) == b@),
{
    if !a.is_ascii() {
        proof {
            assert(!vstd::utf8::is_ascii_chars(a@));
            assert(exists|i: int| 0 <= i < a@.len() && !('\0' <= #[trigger] a@[i] <= '\u{7f}'));
            let i = choose|i: int| 0 <= i < a@.len() && !('\0' <= #[trigger] a@[i] <= '\u{7f}');
            assert(!('\0' <= a@[i] <= '\u{7f}'));
            lemma_nonascii_code(a@[i]);
            assert((a@[i] as u32) >= 128);
            assert(lower_char(a@[i]) == a@[i]);
            assert(spec_ascii_lower(a@)[i] == a@[i]);
            if a@.len() == b@.len() {
                assert(i < b@.len());
                assert((b@[i] as u32) < 128);
                assert(spec_ascii_lower(a@)[i] != b@[i]);
            }
            assert(spec_ascii_lower(a@) != b@);
        }
        return false;
    }
    proof {
        broadcast use vstd::string::is_ascii_spec_bytes;

        assert(vstd::string::is_ascii(a));
        assert(vstd::string::is_ascii(b));
    }
    let ab: &[u8] = a.as_bytes();
    let bb: &[u8] = b.as_bytes();
    let na = ab.len();
    let nb = bb.len();
    proof {
        assert(na == a@.len() && nb == b@.len());
    }
    if na != nb {
        proof {
            assert(spec_ascii_lower(a@).len() == a@.len());
        }
        return false;
    }
    let mut i: usize = 0;
    while i < na
        invariant
            i <= na,
            na == a@.len() && na == b@.len(),
            ab@.len() == a@.len() && bb@.len() == b@.len(),
            vstd::utf8::is_ascii_chars(a@),
            vstd::utf8::is_ascii_chars(b@),
            forall|k: int| 0 <= k < a@.len() ==> ab@[k] == (#[trigger] a@[k]) as u8,
            forall|k: int| 0 <= k < b@.len() ==> bb@[k] == (#[trigger] b@[k]) as u8,
            forall|k: int| 0 <= k < i ==> spec_ascii_lower(a@)[k] == b@[k],
        decreases na - i,
    {
        let ca = ab[i];
        let la: u8 = if 65 <= ca && ca <= 90 {
            ca + 32
        } else {
            ca
        };
        let cb = bb[i];
        proof {
            let av = a@[i as int];
            let bv = b@[i as int];
            assert(ca == av as u8 && cb == bv as u8);
            assert((av as u32) < 128 && (bv as u32) < 128);
            assert(('A' as u32) == 65 && ('Z' as u32) == 90);
            if 65 <= ca && ca <= 90 {
                assert('A' <= av && av <= 'Z');
                assert(lower_char(av) == ((av as u32) + 32) as char);
                assert((lower_char(av) as u32) == (av as u32) + 32);
                assert((lower_char(av) as u32) == la as u32);
            } else {
                assert(!('A' <= av && av <= 'Z'));
                assert(lower_char(av) == av);
            }
            assert((lower_char(av) as u32) == la as u32);
            assert((spec_ascii_lower(a@)[i as int] as u32) == la as u32);
        }
        if la != cb {
            proof {
                assert((spec_ascii_lower(a@)[i as int] as u32) != (b@[i as int] as u32));
                assert(spec_ascii_lower(a@)[i as int] != b@[i as int]);
            }
            return false;
        }
        proof {
            vstd::utf8::char_u32_cast(spec_ascii_lower(a@)[i as int], la as u32);
            vstd::utf8::char_u32_cast(b@[i as int], cb as u32);
            assert(spec_ascii_lower(a@)[i as int] == b@[i as int]);
        }
        i += 1;
    }
    proof {
        assert(spec_ascii_lower(a@) =~= b@);
    }
    true
}

#[derive(Clone, Copy, PartialEq, Eq, Structural, Debug)]
pub enum StringEncoding {
    UTF8,
    UTF16LE,
    UTF16BE,
}

impl Default for StringEncoding {
    fn default() -> (r: Self)
        ensures
            r == StringEncoding::UTF8,
    {
        StringEncoding::UTF8
    }
}

pub type StringArrayLengthFixed = usize;

pub type StringArrayLengthMin = usize;

pub type StringArrayLengthMax = usize;

/// Length policy of a string or array node: a fixed byte/element count, or a
/// dynamic range read from a length field on the wire.
#[derive(Clone, Copy, PartialEq, Eq, Structural, Debug)]
pub enum StringArrayLength {
    FIXED(StringArrayLengthFixed),
    DYNAMIC(StringArrayLengthMin, StringArrayLengthMax),
}

impl Default for StringArrayLength {
    fn default() -> (r: Self)
        ensures
            r == StringArrayLength::FIXED(0),
    {
        StringArrayLength::FIXED(0)
    }
}

/// One member slot of a struct or array node; `member_ref` is the arena name
/// of the member's type node.
#[derive(Debug)]
pub struct MatrixMember {
    pub member_name: String,
    pub member_description: String,
    pub member_ref: String,
}

pub ghost struct MatrixMemberView {
    pub member_name: Seq<char>,
    pub member_description: Seq<char>,
    pub member_ref: Seq<char>,
}

impl View for MatrixMember {
    type V = MatrixMemberView;

    open spec fn view(&self) -> MatrixMemberView {
        MatrixMemberView {
            member_name: self.member_name@,
            member_description: self.member_description@,
            member_ref: self.member_ref@,
        }
    }
}

/// Payload shape of one data-type node. `Unimplemented` is the placeholder a
/// forward reference creates until the defining rows arrive.
#[derive(Debug)]
pub enum MatrixType {
    Number { size: NumberType },
    String { length: StringArrayLength, encoding: StringEncoding },
    Array { length: StringArrayLength, member: MatrixMember },
    Struct { members: Vec<MatrixMember> },
    Unimplemented,
}

pub ghost enum MatrixTypeView {
    Number { size: NumberType },
    String { length: StringArrayLength, encoding: StringEncoding },
    Array { length: StringArrayLength, member: MatrixMemberView },
    Struct { members: Seq<MatrixMemberView> },
    Unimplemented,
}

impl View for MatrixType {
    type V = MatrixTypeView;

    open spec fn view(&self) -> MatrixTypeView {
        match self {
            MatrixType::Number { size } => MatrixTypeView::Number { size: *size },
            MatrixType::String { length, encoding } => MatrixTypeView::String {
                length: *length,
                encoding: *encoding,
            },
            MatrixType::Array { length, member } => MatrixTypeView::Array {
                length: *length,
                member: member@,
            },
            MatrixType::Struct { members } => MatrixTypeView::Struct {
                members: members@.map_values(|m: MatrixMember| m@),
            },
            MatrixType::Unimplemented => MatrixTypeView::Unimplemented,
        }
    }
}

impl Default for MatrixType {
    fn default() -> (r: Self)
        ensures
            r@ is Unimplemented,
    {
        MatrixType::Unimplemented
    }
}

/// One node of the type arena; other nodes refer to it by `name`.
#[derive(Debug)]
pub struct MatrixDataNode {
    pub name: String,
    pub description: String,
    pub data_type: MatrixType,
}

pub ghost struct MatrixDataNodeView {
    pub name: Seq<char>,
    pub description: Seq<char>,
    pub data_type: MatrixTypeView,
}

impl View for MatrixDataNode {
    type V = MatrixDataNodeView;

    open spec fn view(&self) -> MatrixDataNodeView {
        MatrixDataNodeView {
            name: self.name@,
            description: self.description@,
            data_type: self.data_type@,
        }
    }
}

pub type RoleName = String;

/// A named network endpoint taking part as server and/or client.
#[derive(Debug)]
pub struct MatrixRole {
    pub name: RoleName,
    pub ip_addr: IpAddress,
    pub mac_addr: [u8; 6],
}

pub ghost struct MatrixRoleView {
    pub name: Seq<char>,
    pub ip_addr: IpAddress,
    pub mac_addr: Seq<u8>,
}

impl View for MatrixRole {
    type V = MatrixRoleView;

    open spec fn view(&self) -> MatrixRoleView {
        MatrixRoleView { name: self.name@, ip_addr: self.ip_addr, mac_addr: self.mac_addr@ }
    }
}

impl Default for MatrixRole {
    fn default() -> (r: Self)
        ensures
            r@.name.len() == 0,
            r@.ip_addr == IpAddress::V4(0),
            r@.mac_addr =~= seq![0u8, 0u8, 0u8, 0u8, 0u8, 0u8],
    {
        MatrixRole { name: String::new(), ip_addr: IpAddress::V4(0), mac_addr: [0, 0, 0, 0, 0, 0] }
    }
}

/// One deployment triple: a server role name, its port, and a client role
/// name. Two triples are equal when these three fields are equal.
#[derive(Debug)]
pub struct MatrixRoleServerClientPair {
    pub server: String,
    pub server_port: ServerPort,
    pub client: String,
}

pub ghost struct MatrixRoleServerClientPairView {
    pub server: Seq<char>,
    pub server_port: u16,
    pub client: Seq<char>,
}

impl View for MatrixRoleServerClientPair {
    type V = MatrixRoleServerClientPairView;

    open spec fn view(&self) -> MatrixRoleServerClientPairView {
        MatrixRoleServerClientPairView {
            server: self.server@,
            server_port: self.server_port,
            client: self.client@,
        }
    }
}

impl PartialEq for MatrixRoleServerClientPair {
    fn eq(&self, other: &Self) -> (r: bool) {
        self.server == other.server && self.server_port == other.server_port && self.client
            == other.client
    }
}

impl vstd::std_specs::cmp::PartialEqSpecImpl for MatrixRoleServerClientPair {
    open spec fn obeys_eq_spec() -> bool {
        true
    }

    open spec fn eq_spec(&self, other: &Self) -> bool {
        self@ == other@
    }
}

/// One method of a service interface.
#[derive(Debug)]
pub struct MatrixServiceMethod {
    pub method_id: SomeipMethodId,
    pub method_name: String,
    pub method_type: MatrixServiceMethodType,
    pub transport_protocol: SomeipTransportPortocol,
}

pub ghost struct MatrixServiceMethodView {
    pub method_id: SomeipMethodId,
    pub method_name: Seq<char>,
    pub method_type: MatrixServiceMethodTypeView,
    pub transport_protocol: SomeipTransportPortocol,
}

impl View for MatrixServiceMethod {
    type V = MatrixServiceMethodView;

    open spec fn view(&self) -> MatrixServiceMethodView {
        MatrixServiceMethodView {
            method_id: self.method_id,
            method_name: self.method_name@,
            method_type: self.method_type@,
            transport_protocol: self.transport_protocol,
        }
    }
}

/// One deployed service: identity fields from its first Deployment row, its
/// methods, and the deduplicated set of deployment triples.
#[derive(Debug)]
pub struct MatrixService {
    pub service_id: SomeipServiceId,
    pub service_name: String,
    pub service_description: String,
    pub instance_id: SomeipInstanceId,
    pub major_verison: SomeipMajorVersion,
    pub minor_version: SomeipMinorVersion,
    pub methods: Vec<MatrixServiceMethod>,
    pub server_client: Vec<MatrixRoleServerClientPair>,
}

pub ghost struct MatrixServiceView {
    pub service_id: SomeipServiceId,
    pub service_name: Seq<char>,
    pub service_description: Seq<char>,
    pub instance_id: SomeipInstanceId,
    pub major_verison: SomeipMajorVersion,
    pub minor_version: SomeipMinorVersion,
    pub methods: Seq<MatrixServiceMethodView>,
    pub server_client: Seq<MatrixRoleServerClientPairView>,
}

impl View for MatrixService {
    type V = MatrixServiceView;

    open spec fn view(&self) -> MatrixServiceView {
        MatrixServiceView {
            service_id: self.service_id,
            service_name: self.service_name@,
            service_description: self.service_description@,
            instance_id: self.instance_id,
            major_verison: self.major_verison,
            minor_version: self.minor_version,
            methods: self.methods@.map_values(|m: MatrixServiceMethod| m@),
            server_client: self.server_client@.map_values(
                |p: MatrixRoleServerClientPair| p@,
            ),
        }
    }
}

/// Width class of a serialization length or selector field.
#[derive(Clone, Copy, PartialEq, Eq, Structural, Debug)]
pub enum MatrixSerializationParameterSize {
    B8,
    B16,
    B32,
    B64,
}

impl MatrixSerializationParameterSize {
    /// Byte width of a field of this size class.
    pub open spec fn spec_width(self) -> nat {
        match self {
            MatrixSerializationParameterSize::B8 => 1,
            MatrixSerializationParameterSize::B16 => 2,
            MatrixSerializationParameterSize::B32 => 4,
            MatrixSerializationParameterSize::B64 => 8,
        }
    }

    pub fn width(self) -> (w: usize)
        ensures
            w == self.spec_width(),
    {
        match self {
            MatrixSerializationParameterSize::B8 => 1,
            MatrixSerializationParameterSize::B16 => 2,
            MatrixSerializationParameterSize::B32 => 4,
            MatrixSerializationParameterSize::B64 => 8,
        }
    }
}

impl Default for MatrixSerializationParameterSize {
    fn default() -> (r: Self)
        ensures
            r == MatrixSerializationParameterSize::B8,
    {
        MatrixSerializationParameterSize::B8
    }
}

/// Wire-format rules of one matrix, immutable once loaded.
#[derive(Clone, Copy, PartialEq, Eq, Structural, Debug)]
pub struct MatrixSerializationParameter {
    pub alignment: MatrixSerializationParameterSize,
    pub padding_for_fix_length: bool,
    pub length_field_for_struct: bool,
    pub tag_for_serialization: bool,
    pub string_encoding: StringEncoding,
    pub struct_length_field_size: MatrixSerializationParameterSize,
    pub string_length_field_size: MatrixSerializationParameterSize,
    pub array_length_field_size: MatrixSerializationParameterSize,
    pub union_length_field_size: MatrixSerializationParameterSize,
    pub union_type_selector_field_size: MatrixSerializationParameterSize,
    pub union_null: bool,
}

impl Default for MatrixSerializationParameter {
    fn default() -> (r: Self)
        ensures
            r == MatrixSerializationParameter::spec_default(),
    {
        MatrixSerializationParameter {
            alignment: MatrixSerializationParameterSize::B8,
            padding_for_fix_length: false,
            length_field_for_struct: false,
            tag_for_serialization: false,
            string_encoding: StringEncoding::UTF8,
            struct_length_field_size: MatrixSerializationParameterSize::B8,
            string_length_field_size: MatrixSerializationParameterSize::B8,
            array_length_field_size: MatrixSerializationParameterSize::B8,
            union_length_field_size: MatrixSerializationParameterSize::B8,
            union_type_selector_field_size: MatrixSerializationParameterSize::B8,
            union_null: false,
        }
    }
}

impl MatrixSerializationParameter {
    pub open spec fn spec_default() -> MatrixSerializationParameter {
        MatrixSerializationParameter {
            alignment: MatrixSerializationParameterSize::B8,
            padding_for_fix_length: false,
            length_field_for_struct: false,
            tag_for_serialization: false,
            string_encoding: StringEncoding::UTF8,
            struct_length_field_size: MatrixSerializationParameterSize::B8,
            string_length_field_size: MatrixSerializationParameterSize::B8,
            array_length_field_size: MatrixSerializationParameterSize::B8,
            union_length_field_size: MatrixSerializationParameterSize::B8,
            union_type_selector_field_size: MatrixSerializationParameterSize::B8,
            union_null: false,
        }
    }
}

/// The whole loaded matrix: services, the type arena, roles and the
/// serialization parameters.
#[derive(Debug)]
pub struct Matrix {
    pub version: String,
    pub services: Vec<MatrixService>,
    pub data_types: Vec<MatrixDataNode>,
    pub serialization_parameter: MatrixSerializationParameter,
    pub roles: Vec<MatrixRole>,
}

pub ghost struct MatrixView {
    pub version: Seq<char>,
    pub services: Seq<MatrixServiceView>,
    pub data_types: Seq<MatrixDataNodeView>,
    pub serialization_parameter: MatrixSerializationParameter,
    pub roles: Seq<MatrixRoleView>,
}

impl View for Matrix {
    type V = MatrixView;

    open spec fn view(&self) -> MatrixView {
        MatrixView {
            version: self.version@,
            services: self.services@.map_values(|s: MatrixService| s@),
            data_types: self.data_types@.map_values(|n: MatrixDataNode| n@),
            serialization_parameter: self.serialization_parameter,
            roles: self.roles@.map_values(|r: MatrixRole| r@),
        }
    }
}

/// Whether some node of the arena bears this name.
pub open spec fn has_node(nodes: Seq<MatrixDataNodeView>, name: Seq<char>) -> bool {
    exists|i: int| 0 <= i < nodes.len() && nodes[i].name == name
}

/// Index of the node bearing this name; a definite value when names are
/// unique and `has_node` holds.
pub open spec fn node_index(nodes: Seq<MatrixDataNodeView>, name: Seq<char>) -> int {
    choose|i: int| 0 <= i < nodes.len() && nodes[i].name == name
}

/// The node bearing this name.
pub open spec fn node_at(nodes: Seq<MatrixDataNodeView>, name: Seq<char>) -> MatrixDataNodeView {
    nodes[node_index(nodes, name)]
}

impl MatrixView {
    /// No two services share an id.
    pub open spec fn service_ids_unique(self) -> bool {
        forall|i: int, j: int|
            0 <= i < j < self.services.len() ==> self.services[i].service_id
                != self.services[j].service_id
    }

    /// No two arena nodes share a name.
    pub open spec fn data_type_names_unique(self) -> bool {
        forall|i: int, j: int|
            0 <= i < j < self.data_types.len() ==> self.data_types[i].name
                != self.data_types[j].name
    }

    /// No two roles share a name.
    pub open spec fn role_names_unique(self) -> bool {
        forall|i: int, j: int|
            0 <= i < j < self.roles.len() ==> self.roles[i].name != self.roles[j].name
    }

    /// Within one service no two deployment triples are equal: the dedup
    /// guarantee of the Deployment pass.
    pub open spec fn deployment_pairs_distinct(self) -> bool {
        forall|s: int, i: int, j: int|
            0 <= s < self.services.len() && 0 <= i < j < self.services[s].server_client.len()
                ==> self.services[s].server_client[i] != self.services[s].server_client[j]
    }

    /// Every name a composite node references is present in the arena.
    pub open spec fn type_refs_resolved(self) -> bool {
        forall|i: int|
            0 <= i < self.data_types.len() ==> #[trigger] node_refs_present(
                self.data_types,
                self.data_types[i],
            )
    }

    /// No node is still a forward-reference placeholder.
    pub open spec fn types_all_defined(self) -> bool {
        forall|i: int|
            0 <= i < self.data_types.len() ==> !(#[trigger] self.data_types[i].data_type
                is Unimplemented)
    }

    /// Well-formedness a successful load establishes.
    pub open spec fn wf(self) -> bool {
        &&& self.service_ids_unique()
        &&& self.data_type_names_unique()
        &&& self.role_names_unique()
        &&& self.deployment_pairs_distinct()
        &&& self.type_refs_resolved()
    }
}

/// All names referenced by one node are present in the arena.
pub open spec fn node_refs_present(
    nodes: Seq<MatrixDataNodeView>,
    node: MatrixDataNodeView,
) -> bool {
    match node.data_type {
        MatrixTypeView::Array { member, .. } => has_node(nodes, member.member_ref),
        MatrixTypeView::Struct { members } => forall|k: int|
            0 <= k < members.len() ==> has_node(nodes, members[k].member_ref),
        _ => true,
    }
}

impl Matrix {
    /// Looks a service up by id: the read-only directory access of the
    /// loaded matrix.
    pub fn lookup(&self, service_id: u16) -> (r: Option<&MatrixService>)
        ensures
            match r {
                Some(s) => exists|i: int|
                    0 <= i < self@.services.len() && self@.services[i] == s@
                        && s@.service_id == service_id,
                None => forall|i: int|
                    0 <= i < self@.services.len() ==> self@.services[i].service_id != service_id,
            },
    {
        let n = self.services.len();
        let mut idx: usize = 0;
        while idx < n
            invariant
                n == self.services.len(),
                idx <= n,
                forall|i: int|
                    0 <= i < idx ==> self@.services[i].service_id != service_id,
            decreases n - idx,
        {
            if self.services[idx].service_id == service_id {
                proof {
                    assert(self@.services[idx as int] == self.services@[idx as int]@);
                }
                return Some(&self.services[idx]);
            }
            proof {
                assert(self@.services[idx as int] == self.services@[idx as int]@);
            }
            idx += 1;
        }
        None
    }

    /// Looks a method up inside the service with the given id. `None` means
    /// (once service ids are unique, as a successful load guarantees) that no
    /// service with this id holds a method with this method id.
    pub fn lookup_method(&self, service_id: u16, method_id: u16) -> (r: Option<
        &MatrixServiceMethod,
    >)
        ensures
            match r {
                Some(m) => exists|i: int, k: int|
                    0 <= i < self@.services.len() && 0 <= k < self@.services[i].methods.len()
                        && self@.services[i].service_id == service_id
                        && self@.services[i].methods[k] == m@ && m@.method_id == method_id,
                None => self@.service_ids_unique() ==> forall|i: int, k: int|
                    0 <= i < self@.services.len() && self@.services[i].service_id == service_id
                        && 0 <= k < self@.services[i].methods.len()
                        ==> (#[trigger] self@.services[i].methods[k]).method_id != method_id,
            },
    {
        match self.lookup(service_id) {
            None => None,
            Some(service) => {
                let n = service.methods.len();
                let mut idx: usize = 0;
                while idx < n
                    invariant
                        n == service.methods.len(),
                        idx <= n,
                        exists|i: int|
                            0 <= i < self@.services.len() && self@.services[i] == service@
                                && service@.service_id == service_id,
                        forall|k: int|
                            0 <= k < idx ==> (#[trigger] service@.methods[k]).method_id
                                != method_id,
                    decreases n - idx,
                {
                    proof {
                        assert(service@.methods[idx as int] == service.methods@[idx as int]@);
                    }
                    if service.methods[idx].method_id == method_id {
                        return Some(&service.methods[idx]);
                    }
                    idx += 1;
                }
                proof {
                    if self@.service_ids_unique() {
                        let i0 = choose|i: int|
                            0 <= i < self@.services.len() && self@.services[i] == service@
                                && service@.service_id == service_id;
                        assert forall|i: int, k: int|
                            0 <= i < self@.services.len() && self@.services[i].service_id
                                == service_id && 0 <= k
                                < self@.services[i].methods.len() implies (
                        #[trigger] self@.services[i].methods[k]).method_id != method_id by {
                            if i != i0 {
                                if i < i0 {
                                    assert(self@.services[i].service_id
                                        != self@.services[i0].service_id);
                                } else {
                                    assert(self@.services[i0].service_id
                                        != self@.services[i].service_id);
                                }
                            }
                            assert(self@.services[i] == service@);
                        }
                    }
                }
                None
            },
        }
    }

    /// Index of the arena node with this name, when names are unique.
    pub fn find_node_index(&self, name: &String) -> (r: Option<usize>)
        requires
            self@.data_type_names_unique(),
        ensures
            match r {
                Some(j) => 0 <= j < self@.data_types.len() && has_node(self@.data_types, name@)
                    && j == node_index(self@.data_types, name@),
                None => !has_node(self@.data_types, name@),
            },
    {
        let n = self.data_types.len();
        let mut idx: usize = 0;
        while idx < n
            invariant
                n == self.data_types.len(),
                idx <= n,
                self@.data_type_names_unique(),
                forall|i: int| 0 <= i < idx ==> self@.data_types[i].name != name@,
            decreases n - idx,
        {
            proof {
                assert(self@.data_types[idx as int] == self.data_types@[idx as int]@);
            }
            if self.data_types[idx].name == *name {
                proof {
                    let i = idx as int;
                    let j = node_index(self@.data_types, name@);
                    assert(0 <= j < self@.data_types.len() && self@.data_types[j].name == name@);
                    if i < j {
                        assert(self@.data_types[i].name != self@.data_types[j].name);
                    }
                    if j < i {
                        assert(self@.data_types[j].name != self@.data_types[i].name);
                    }
                }
                return Some(idx);
            }
            idx += 1;
        }
        None
    }

    /// Looks a type node up by name in the arena.
    pub fn get_data_type(&self, name: &String) -> (r: Option<&MatrixDataNode>)
        ensures
            match r {
                Some(node) => has_node(self@.data_types, name@) && node@.name == name@
                    && (self@.data_type_names_unique() ==> node@ == node_at(
                    self@.data_types,
                    name@,
                )),
                None => !has_node(self@.data_types, name@),
            },
    {
        let n = self.data_types.len();
        let mut idx: usize = 0;
        while idx < n
            invariant
                n == self.data_types.len(),
                idx <= n,
                forall|i: int| 0 <= i < idx ==> self@.data_types[i].name != name@,
            decreases n - idx,
        {
            proof {
                assert(self@.data_types[idx as int] == self.data_types@[idx as int]@);
            }
            if self.data_types[idx].name == *name {
                let node = &self.data_types[idx];
                proof {
                    let i = idx as int;
                    assert(self@.data_types[i].name == name@);
                    if self@.data_type_names_unique() {
                        let j = node_index(self@.data_types, name@);
                        assert(0 <= j < self@.data_types.len() && self@.data_types[j].name
                            == name@);
                        if i != j {
                            if i < j {
                                assert(self@.data_types[i].name != self@.data_types[j].name);
                            } else {
                                assert(self@.data_types[j].name != self@.data_types[i].name);
                            }
                        }
                    }
                }
                return Some(node);
            }
            idx += 1;
        }
        None
    }
}

} // verus!
