//! The wire codec: decoding and encoding of SOME/IP payload bytes against a
//! type-graph node under the matrix's serialization parameters, plus the
//! boundedness analysis that rejects type cycles with no dynamic exit.
//!
//! Decoding recurses through the graph by node name. Termination does not
//! lean on any well-formedness assumption: every recursive step either
//! consumes at least one byte (after a dynamic length prefix) or follows a
//! static edge, and static edges are only followed when the precomputed
//! boundedness rank strictly drops; where a rank is missing the decoder
//! answers `UnboundedType` instead of recursing.

use vstd::prelude::*;

use crate::matrix::{
    has_node, node_index, Matrix, MatrixDataNodeView, MatrixMember, MatrixMemberView,
    MatrixSerializationParameter, MatrixType, MatrixTypeView, StringArrayLength, StringEncoding,
};
use crate::wire::{be_bytes, be_val, pow256};

verus! {

/// Why one message's payload could not be decoded (or a value not encoded);
/// recovered per message, never fatal.
#[derive(Clone, Copy, PartialEq, Eq, Structural, Debug)]
pub enum CodecError {
    /// Fewer bytes remain than the type needs.
    TruncatedInput,
    /// A string's BOM or terminator is malformed, or a value handed to the
    /// encoder does not fit its node.
    InvalidEncoding,
    /// A length field disagrees with the bytes that follow it.
    LengthMismatch,
    /// The node's expansion is unbounded (a type cycle with no dynamic
    /// exit), or the graph under it is unusable.
    UnboundedType,
}

/// A decoded payload value: a tagged tree of numbers, raw string bytes,
/// element lists and ordered named records.
#[derive(PartialEq, Debug)]
pub enum Value {
    Number(u64),
    Text(Vec<u8>),
    List(Vec<Value>),
    Record(Vec<(String, Value)>),
}

/// Mathematical image of a `Value`.
pub ghost enum ValueView {
    Number(u64),
    Text(Seq<u8>),
    List(Seq<ValueView>),
    Record(Seq<(Seq<char>, ValueView)>),
}

impl View for Value {
    type V = ValueView;

    open spec fn view(&self) -> ValueView
        decreases self, 1nat,
    {
        match self {
            Value::Number(n) => ValueView::Number(*n),
            Value::Text(t) => ValueView::Text(t@),
            Value::List(vs) => ValueView::List(list_view(vs@)),
            Value::Record(fs) => ValueView::Record(fields_view(fs@)),
        }
    }
}

/// Views of a list's elements.
pub open spec fn list_view(vs: Seq<Value>) -> Seq<ValueView>
    decreases vs, 0nat,
{
    Seq::new(
        vs.len(),
        |i: int|
            if 0 <= i < vs.len() {
                vs[i]@
            } else {
                ValueView::Number(0)
            },
    )
}

/// Views of a record's named fields.
pub open spec fn fields_view(fs: Seq<(String, Value)>) -> Seq<(Seq<char>, ValueView)>
    decreases fs, 0nat,
{
    Seq::new(
        fs.len(),
        |i: int|
            if 0 <= i < fs.len() {
                (fs[i].0@, fs[i].1@)
            } else {
                (Seq::empty(), ValueView::Number(0))
            },
    )
}

/// The cached result of the boundedness analysis of one type graph: for each
/// node, `Some(rank)` when its static expansion is finite, `None` when it is
/// not (or the node is an unresolved placeholder).
pub struct CodecAnalysis {
    pub ranks: Vec<Option<u128>>,
}

impl View for CodecAnalysis {
    type V = Seq<Option<u128>>;

    open spec fn view(&self) -> Seq<Option<u128>> {
        self.ranks@
    }
}

/// Rank used by the termination measure: the assigned rank, or zero where
/// none is assigned (the decoder then refuses before recursing).
pub open spec fn rankv(ranks: Seq<Option<u128>>, i: int) -> nat {
    if 0 <= i < ranks.len() && ranks[i] is Some {
        ranks[i]->0 as nat
    } else {
        0
    }
}

pub open spec fn has_rank(ranks: Seq<Option<u128>>, i: int) -> bool {
    0 <= i < ranks.len() && ranks[i] is Some
}

/// What an assigned rank promises: each static child (struct member,
/// element of a non-empty fixed array) resolves, has a rank, and that rank
/// is strictly smaller. Dynamic strings and arrays are leaves here: their
/// length field is a dynamic exit.
pub open spec fn rank_ok_at(
    nodes: Seq<MatrixDataNodeView>,
    ranks: Seq<Option<u128>>,
    i: int,
) -> bool {
    match nodes[i].data_type {
        MatrixTypeView::Number { .. } => true,
        MatrixTypeView::String { .. } => true,
        MatrixTypeView::Unimplemented => false,
        MatrixTypeView::Array { length, member } => match length {
            StringArrayLength::FIXED(n) => n == 0 || (has_node(nodes, member.member_ref)
                && has_rank(ranks, node_index(nodes, member.member_ref)) && rankv(
                ranks,
                node_index(nodes, member.member_ref),
            ) < rankv(ranks, i)),
            StringArrayLength::DYNAMIC(_, _) => has_node(nodes, member.member_ref),
        },
        MatrixTypeView::Struct { members } => forall|k: int|
            0 <= k < members.len() ==> (has_node(nodes, (#[trigger] members[k]).member_ref)
                && has_rank(ranks, node_index(nodes, members[k].member_ref)) && rankv(
                ranks,
                node_index(nodes, members[k].member_ref),
            ) < rankv(ranks, i)),
    }
}

/// Soundness of the analysis: every assigned rank keeps its promise.
pub open spec fn ranks_wf(nodes: Seq<MatrixDataNodeView>, ranks: Seq<Option<u128>>) -> bool {
    &&& ranks.len() == nodes.len()
    &&& forall|i: int|
        0 <= i < nodes.len() && (#[trigger] ranks[i]) is Some ==> rank_ok_at(nodes, ranks, i)
}

/// A missing rank is justified only by an actual obstruction: a placeholder
/// node, a dangling reference, or a static child that is itself unranked.
pub open spec fn rank_none_justified(
    nodes: Seq<MatrixDataNodeView>,
    ranks: Seq<Option<u128>>,
    i: int,
) -> bool {
    match nodes[i].data_type {
        MatrixTypeView::Number { .. } => false,
        MatrixTypeView::String { .. } => false,
        MatrixTypeView::Unimplemented => true,
        MatrixTypeView::Array { length, member } => match length {
            StringArrayLength::FIXED(n) => n > 0 && (!has_node(nodes, member.member_ref)
                || !has_rank(ranks, node_index(nodes, member.member_ref))),
            StringArrayLength::DYNAMIC(_, _) => !has_node(nodes, member.member_ref),
        },
        MatrixTypeView::Struct { members } => exists|k: int|
            0 <= k < members.len() && (!has_node(nodes, (#[trigger] members[k]).member_ref)
                || !has_rank(ranks, node_index(nodes, members[k].member_ref))),
    }
}

/// Completeness of the analysis: ranks are only withheld with justification,
/// so every truly bounded node is ranked.
pub open spec fn ranks_complete(nodes: Seq<MatrixDataNodeView>, ranks: Seq<Option<u128>>) -> bool {
    &&& ranks.len() == nodes.len()
    &&& forall|i: int|
        0 <= i < nodes.len() && (#[trigger] ranks[i]) is None ==> rank_none_justified(
            nodes,
            ranks,
            i,
        )
}

/// Byte length of the byte-order mark the encoding requires.
pub open spec fn bom_len(encoding: StringEncoding) -> nat {
    match encoding {
        StringEncoding::UTF8 => 3,
        StringEncoding::UTF16LE => 2,
        StringEncoding::UTF16BE => 2,
    }
}

/// Byte length of the zero terminator the encoding requires.
pub open spec fn term_len(encoding: StringEncoding) -> nat {
    match encoding {
        StringEncoding::UTF8 => 1,
        StringEncoding::UTF16LE => 2,
        StringEncoding::UTF16BE => 2,
    }
}

/// The byte-order mark itself.
pub open spec fn bom_bytes(encoding: StringEncoding) -> Seq<u8> {
    match encoding {
        StringEncoding::UTF8 => seq![0xEFu8, 0xBBu8, 0xBFu8],
        StringEncoding::UTF16LE => seq![0xFFu8, 0xFEu8],
        StringEncoding::UTF16BE => seq![0xFEu8, 0xFFu8],
    }
}

pub open spec fn zero_bytes(n: nat) -> Seq<u8> {
    Seq::new(n, |i: int| 0u8)
}

/// Decodes a string region of exactly `n` bytes at `pos`: byte-order mark,
/// content, zero terminator; a trailing odd byte of a UTF-16 region is
/// ignored but still consumed.
pub open spec fn spec_decode_string_region(
    bytes: Seq<u8>,
    pos: int,
    n: int,
    encoding: StringEncoding,
) -> Result<(ValueView, int), CodecError> {
    let bl = bom_len(encoding) as int;
    let tl = term_len(encoding) as int;
    let eff = if encoding is UTF8 {
        n
    } else {
        n - (n % 2)
    };
    if pos < 0 || n < 0 || pos + n > bytes.len() {
        Err(CodecError::TruncatedInput)
    } else if eff < bl + tl {
        Err(CodecError::InvalidEncoding)
    } else if bytes.subrange(pos, pos + bl) != bom_bytes(encoding) {
        Err(CodecError::InvalidEncoding)
    } else if bytes.subrange(pos + eff - tl, pos + eff) != zero_bytes(tl as nat) {
        Err(CodecError::InvalidEncoding)
    } else {
        Ok((ValueView::Text(bytes.subrange(pos + bl, pos + eff - tl)), pos + n))
    }
}

/// Decodes the node at arena index `idx` from `bytes` at `pos`, yielding the
/// value and the position after it.
pub open spec fn spec_decode(
    nodes: Seq<MatrixDataNodeView>,
    ranks: Seq<Option<u128>>,
    params: MatrixSerializationParameter,
    idx: int,
    bytes: Seq<u8>,
    pos: int,
) -> Result<(ValueView, int), CodecError>
    decreases bytes.len() - pos, rankv(ranks, idx), 1nat, 0nat,
{
    if pos < 0 || pos > bytes.len() {
        Err(CodecError::TruncatedInput)
    } else if !(0 <= idx < nodes.len()) || !has_rank(ranks, idx) {
        Err(CodecError::UnboundedType)
    } else {
        match nodes[idx].data_type {
            MatrixTypeView::Unimplemented => Err(CodecError::UnboundedType),
            MatrixTypeView::Number { size } => {
                let w = size.spec_width() as int;
                if pos + w > bytes.len() {
                    Err(CodecError::TruncatedInput)
                } else {
                    Ok(
                        (
                            ValueView::Number(be_val(bytes.subrange(pos, pos + w)) as u64),
                            pos + w,
                        ),
                    )
                }
            },
            MatrixTypeView::String { length, encoding } => match length {
                StringArrayLength::FIXED(n) => spec_decode_string_region(
                    bytes,
                    pos,
                    n as int,
                    encoding,
                ),
                StringArrayLength::DYNAMIC(_, _) => {
                    let w = params.string_length_field_size.spec_width() as int;
                    if pos + w > bytes.len() {
                        Err(CodecError::TruncatedInput)
                    } else {
                        let l = be_val(bytes.subrange(pos, pos + w)) as int;
                        if pos + w + l > bytes.len() {
                            Err(CodecError::TruncatedInput)
                        } else {
                            match spec_decode_string_region(bytes, pos + w, l, encoding) {
                                Err(e) => Err(e),
                                Ok((v, _)) => Ok((v, pos + w + l)),
                            }
                        }
                    }
                },
            },
            MatrixTypeView::Array { length, member } => {
                if !has_node(nodes, member.member_ref) {
                    Err(CodecError::UnboundedType)
                } else {
                    let j = node_index(nodes, member.member_ref);
                    match length {
                        StringArrayLength::FIXED(n) => {
                            match spec_decode_elems_fixed(
                                nodes,
                                ranks,
                                params,
                                j,
                                idx,
                                n as int,
                                bytes,
                                pos,
                            ) {
                                Err(e) => Err(e),
                                Ok((es, p)) => Ok((ValueView::List(es), p)),
                            }
                        },
                        StringArrayLength::DYNAMIC(_, _) => {
                            let w = params.array_length_field_size.spec_width() as int;
                            if pos + w > bytes.len() {
                                Err(CodecError::TruncatedInput)
                            } else {
                                let l = be_val(bytes.subrange(pos, pos + w)) as int;
                                if pos + w + l > bytes.len() {
                                    Err(CodecError::TruncatedInput)
                                } else {
                                    match spec_decode_elems_dyn(
                                        nodes,
                                        ranks,
                                        params,
                                        j,
                                        bytes,
                                        pos + w,
                                        pos + w + l,
                                    ) {
                                        Err(e) => Err(e),
                                        Ok(es) => Ok((ValueView::List(es), pos + w + l)),
                                    }
                                }
                            }
                        },
                    }
                }
            },
            MatrixTypeView::Struct { members } => {
                if params.length_field_for_struct {
                    let w = params.struct_length_field_size.spec_width() as int;
                    if pos + w > bytes.len() {
                        Err(CodecError::TruncatedInput)
                    } else {
                        let l = be_val(bytes.subrange(pos, pos + w)) as int;
                        if pos + w + l > bytes.len() {
                            Err(CodecError::TruncatedInput)
                        } else {
                            match spec_decode_members(
                                nodes,
                                ranks,
                                params,
                                idx,
                                members,
                                0,
                                bytes,
                                pos + w,
                            ) {
                                Err(e) => Err(e),
                                Ok((fs, p)) => if p - (pos + w) == l {
                                    Ok((ValueView::Record(fs), p))
                                } else {
                                    Err(CodecError::LengthMismatch)
                                },
                            }
                        }
                    }
                } else {
                    match spec_decode_members(nodes, ranks, params, idx, members, 0, bytes, pos) {
                        Err(e) => Err(e),
                        Ok((fs, p)) => Ok((ValueView::Record(fs), p)),
                    }
                }
            },
        }
    }
}

/// Decodes the members of the struct at `sidx` from position `k` on, in
/// declared order.
pub open spec fn spec_decode_members(
    nodes: Seq<MatrixDataNodeView>,
    ranks: Seq<Option<u128>>,
    params: MatrixSerializationParameter,
    sidx: int,
    members: Seq<MatrixMemberView>,
    k: int,
    bytes: Seq<u8>,
    pos: int,
) -> Result<(Seq<(Seq<char>, ValueView)>, int), CodecError>
    decreases bytes.len() - pos, rankv(ranks, sidx), 0nat, members.len() - k,
{
    if pos < 0 || pos > bytes.len() || k < 0 {
        Err(CodecError::TruncatedInput)
    } else if k >= members.len() {
        Ok((Seq::empty(), pos))
    } else if !has_node(nodes, members[k].member_ref) {
        Err(CodecError::UnboundedType)
    } else {
        let j = node_index(nodes, members[k].member_ref);
        if !(rankv(ranks, j) < rankv(ranks, sidx)) {
            Err(CodecError::UnboundedType)
        } else {
            match spec_decode(nodes, ranks, params, j, bytes, pos) {
                Err(e) => Err(e),
                Ok((v, p2)) => if p2 < pos || p2 > bytes.len() {
                    Err(CodecError::LengthMismatch)
                } else {
                    match spec_decode_members(
                        nodes,
                        ranks,
                        params,
                        sidx,
                        members,
                        k + 1,
                        bytes,
                        p2,
                    ) {
                        Err(e) => Err(e),
                        Ok((rest, p3)) => Ok(
                            (seq![(members[k].member_name, v)] + rest, p3),
                        ),
                    }
                },
            }
        }
    }
}

/// Decodes exactly `count` elements of node `j` (the element type of the
/// fixed-length array at `pidx`).
pub open spec fn spec_decode_elems_fixed(
    nodes: Seq<MatrixDataNodeView>,
    ranks: Seq<Option<u128>>,
    params: MatrixSerializationParameter,
    j: int,
    pidx: int,
    count: int,
    bytes: Seq<u8>,
    pos: int,
) -> Result<(Seq<ValueView>, int), CodecError>
    decreases bytes.len() - pos, rankv(ranks, pidx), 0nat, count,
{
    if pos < 0 || pos > bytes.len() {
        Err(CodecError::TruncatedInput)
    } else if count <= 0 {
        Ok((Seq::empty(), pos))
    } else if !(rankv(ranks, j) < rankv(ranks, pidx)) {
        Err(CodecError::UnboundedType)
    } else {
        match spec_decode(nodes, ranks, params, j, bytes, pos) {
            Err(e) => Err(e),
            Ok((v, p2)) => if p2 < pos || p2 > bytes.len() {
                Err(CodecError::LengthMismatch)
            } else {
                match spec_decode_elems_fixed(
                    nodes,
                    ranks,
                    params,
                    j,
                    pidx,
                    count - 1,
                    bytes,
                    p2,
                ) {
                    Err(e) => Err(e),
                    Ok((rest, p3)) => Ok((seq![v] + rest, p3)),
                }
            },
        }
    }
}

/// Decodes elements of node `j` until exactly the bytes up to `end` are
/// used; an element that makes no progress or overruns `end` is a length
/// mismatch.
pub open spec fn spec_decode_elems_dyn(
    nodes: Seq<MatrixDataNodeView>,
    ranks: Seq<Option<u128>>,
    params: MatrixSerializationParameter,
    j: int,
    bytes: Seq<u8>,
    pos: int,
    end: int,
) -> Result<Seq<ValueView>, CodecError>
    decreases bytes.len() - pos, rankv(ranks, j), 2nat, 0nat,
{
    if pos < 0 || pos > end || end > bytes.len() {
        Err(CodecError::TruncatedInput)
    } else if pos == end {
        Ok(Seq::empty())
    } else {
        match spec_decode(nodes, ranks, params, j, bytes, pos) {
            Err(e) => Err(e),
            Ok((v, p2)) => if p2 <= pos || p2 > end {
                Err(CodecError::LengthMismatch)
            } else {
                match spec_decode_elems_dyn(nodes, ranks, params, j, bytes, p2, end) {
                    Err(e) => Err(e),
                    Ok(rest) => Ok(seq![v] + rest),
                }
            },
        }
    }
}

/// Decodes one whole payload against the named node: all bytes must be
/// consumed.
pub open spec fn spec_decode_payload(
    nodes: Seq<MatrixDataNodeView>,
    ranks: Seq<Option<u128>>,
    params: MatrixSerializationParameter,
    name: Seq<char>,
    bytes: Seq<u8>,
) -> Result<ValueView, CodecError> {
    if !has_node(nodes, name) {
        Err(CodecError::UnboundedType)
    } else if bytes.len() < spec_min_len(nodes, ranks, params, node_index(nodes, name)) {
        Err(CodecError::TruncatedInput)
    } else {
        match spec_decode(nodes, ranks, params, node_index(nodes, name), bytes, 0) {
            Err(e) => Err(e),
            Ok((v, p)) => if p == bytes.len() {
                Ok(v)
            } else {
                Err(CodecError::LengthMismatch)
            },
        }
    }
}

/// The string region for content `t`: byte-order mark, content, terminator.
pub open spec fn spec_string_body(encoding: StringEncoding, t: Seq<u8>) -> Seq<u8> {
    bom_bytes(encoding) + t + zero_bytes(term_len(encoding))
}

/// Encodes a value against the node at `idx`: the structural inverse of
/// `spec_decode` on conforming values.
pub open spec fn spec_encode(
    nodes: Seq<MatrixDataNodeView>,
    params: MatrixSerializationParameter,
    idx: int,
    v: ValueView,
) -> Seq<u8>
    decreases v, 1nat, 0nat,
{
    if !(0 <= idx < nodes.len()) {
        Seq::empty()
    } else {
        match nodes[idx].data_type {
            MatrixTypeView::Unimplemented => Seq::empty(),
            MatrixTypeView::Number { size } => match v {
                ValueView::Number(x) => be_bytes(x as nat, size.spec_width()),
                _ => Seq::empty(),
            },
            MatrixTypeView::String { length, encoding } => match v {
                ValueView::Text(t) => match length {
                    StringArrayLength::FIXED(_) => spec_string_body(encoding, t),
                    StringArrayLength::DYNAMIC(_, _) => be_bytes(
                        (bom_len(encoding) + t.len() + term_len(encoding)),
                        params.string_length_field_size.spec_width(),
                    ) + spec_string_body(encoding, t),
                },
                _ => Seq::empty(),
            },
            MatrixTypeView::Array { length, member } => match v {
                ValueView::List(es) => {
                    if !has_node(nodes, member.member_ref) {
                        Seq::empty()
                    } else {
                        let j = node_index(nodes, member.member_ref);
                        let body = spec_encode_list(nodes, params, j, es, 0);
                        match length {
                            StringArrayLength::FIXED(_) => body,
                            StringArrayLength::DYNAMIC(_, _) => be_bytes(
                                body.len(),
                                params.array_length_field_size.spec_width(),
                            ) + body,
                        }
                    }
                },
                _ => Seq::empty(),
            },
            MatrixTypeView::Struct { members } => match v {
                ValueView::Record(fs) => {
                    let body = spec_encode_members(nodes, params, members, fs, 0);
                    if params.length_field_for_struct {
                        be_bytes(body.len(), params.struct_length_field_size.spec_width()) + body
                    } else {
                        body
                    }
                },
                _ => Seq::empty(),
            },
        }
    }
}

/// Concatenated encodings of the elements from position `k` on.
pub open spec fn spec_encode_list(
    nodes: Seq<MatrixDataNodeView>,
    params: MatrixSerializationParameter,
    j: int,
    es: Seq<ValueView>,
    k: int,
) -> Seq<u8>
    decreases es, 0nat, es.len() - k,
{
    if k < 0 || k >= es.len() {
        Seq::empty()
    } else {
        spec_encode(nodes, params, j, es[k]) + spec_encode_list(nodes, params, j, es, k + 1)
    }
}

/// Concatenated encodings of the record fields from position `k` on, each
/// against its member's node.
pub open spec fn spec_encode_members(
    nodes: Seq<MatrixDataNodeView>,
    params: MatrixSerializationParameter,
    members: Seq<MatrixMemberView>,
    fs: Seq<(Seq<char>, ValueView)>,
    k: int,
) -> Seq<u8>
    decreases fs, 0nat, fs.len() - k,
{
    if k < 0 || k >= fs.len() || k >= members.len() {
        Seq::empty()
    } else {
        let head = if has_node(nodes, members[k].member_ref) {
            spec_encode(nodes, params, node_index(nodes, members[k].member_ref), fs[k].1)
        } else {
            Seq::empty()
        };
        head + spec_encode_members(nodes, params, members, fs, k + 1)
    }
}

/// Whether `x` fits in `w` bytes.
pub open spec fn fits_width(x: nat, w: nat) -> bool {
    x < pow256(w)
}

/// Whether value `v` conforms to the schema of the node at `idx`: the shape
/// matches, numbers and length fields fit their widths, fixed lengths are
/// exact, and UTF-16 content has even length.
pub open spec fn conforms(
    nodes: Seq<MatrixDataNodeView>,
    params: MatrixSerializationParameter,
    idx: int,
    v: ValueView,
) -> bool
    decreases v, 1nat, 0nat,
{
    &&& 0 <= idx < nodes.len()
    &&& match nodes[idx].data_type {
        MatrixTypeView::Unimplemented => false,
        MatrixTypeView::Number { size } => match v {
            ValueView::Number(x) => fits_width(x as nat, size.spec_width()),
            _ => false,
        },
        MatrixTypeView::String { length, encoding } => match v {
            ValueView::Text(t) => {
                &&& (encoding is UTF8 || t.len() % 2 == 0)
                &&& match length {
                    StringArrayLength::FIXED(n) => n == bom_len(encoding) + t.len() + term_len(
                        encoding,
                    ),
                    StringArrayLength::DYNAMIC(_, _) => fits_width(
                        bom_len(encoding) + t.len() + term_len(encoding),
                        params.string_length_field_size.spec_width(),
                    ),
                }
            },
            _ => false,
        },
        MatrixTypeView::Array { length, member } => match v {
            ValueView::List(es) => {
                &&& has_node(nodes, member.member_ref)
                &&& conforms_list(nodes, params, node_index(nodes, member.member_ref), es, 0)
                &&& match length {
                    StringArrayLength::FIXED(n) => es.len() == n,
                    StringArrayLength::DYNAMIC(_, _) => fits_width(
                        spec_encode_list(
                            nodes,
                            params,
                            node_index(nodes, member.member_ref),
                            es,
                            0,
                        ).len(),
                        params.array_length_field_size.spec_width(),
                    ),
                }
            },
            _ => false,
        },
        MatrixTypeView::Struct { members } => match v {
            ValueView::Record(fs) => {
                &&& fs.len() == members.len()
                &&& conforms_members(nodes, params, members, fs, 0)
                &&& (params.length_field_for_struct ==> fits_width(
                    spec_encode_members(nodes, params, members, fs, 0).len(),
                    params.struct_length_field_size.spec_width(),
                ))
            },
            _ => false,
        },
    }
}

/// Every element from `k` on conforms to node `j`.
pub open spec fn conforms_list(
    nodes: Seq<MatrixDataNodeView>,
    params: MatrixSerializationParameter,
    j: int,
    es: Seq<ValueView>,
    k: int,
) -> bool
    decreases es, 0nat, es.len() - k,
{
    if k < 0 {
        false
    } else if k >= es.len() {
        true
    } else {
        conforms(nodes, params, j, es[k]) && conforms_list(nodes, params, j, es, k + 1)
    }
}

/// Every field from `k` on carries its member's name and conforms to its
/// member's node.
pub open spec fn conforms_members(
    nodes: Seq<MatrixDataNodeView>,
    params: MatrixSerializationParameter,
    members: Seq<MatrixMemberView>,
    fs: Seq<(Seq<char>, ValueView)>,
    k: int,
) -> bool
    decreases fs, 0nat, fs.len() - k,
{
    if k < 0 {
        false
    } else if k >= fs.len() {
        true
    } else {
        &&& k < members.len()
        &&& fs[k].0 == members[k].member_name
        &&& has_node(nodes, members[k].member_ref)
        &&& conforms(nodes, params, node_index(nodes, members[k].member_ref), fs[k].1)
        &&& conforms_members(nodes, params, members, fs, k + 1)
    }
}


/// Number of unassigned entries; the analysis's termination measure.
pub open spec fn count_none(s: Seq<Option<u128>>) -> nat
    decreases s.len(),
{
    if s.len() == 0 {
        0
    } else {
        count_none(s.drop_last()) + (if s.last() is None {
            1nat
        } else {
            0nat
        })
    }
}

proof fn lemma_count_none_le_len(s: Seq<Option<u128>>)
    ensures
        count_none(s) <= s.len(),
    decreases s.len(),
{
    if s.len() > 0 {
        lemma_count_none_le_len(s.drop_last());
    }
}

proof fn lemma_count_none_push_none(s: Seq<Option<u128>>)
    ensures
        count_none(s.push(None)) == count_none(s) + 1,
{
    assert(s.push(None).drop_last() =~= s);
    assert(s.push(None).last() is None);
}

proof fn lemma_count_none_update_some(s: Seq<Option<u128>>, i: int, v: u128)
    requires
        0 <= i < s.len(),
        s[i] is None,
    ensures
        count_none(s.update(i, Some(v))) + 1 == count_none(s),
    decreases s.len(),
{
    let t = s.update(i, Some(v));
    if i == s.len() - 1 {
        assert(t.drop_last() =~= s.drop_last());
        assert(t.last() == Some(v));
        assert(s.last() is None);
    } else {
        assert(t.drop_last() =~= s.drop_last().update(i, Some(v)));
        assert(t.last() == s.last());
        lemma_count_none_update_some(s.drop_last(), i, v);
    }
}

/// Filling one unassigned slot preserves the soundness of all assigned
/// ranks: no previously assigned node could have had the unranked slot as a
/// static child.
proof fn lemma_wf_preserved_by_assign(
    nodes: Seq<MatrixDataNodeView>,
    old_ranks: Seq<Option<u128>>,
    i: int,
    p: u128,
)
    requires
        ranks_wf(nodes, old_ranks),
        0 <= i < nodes.len(),
        old_ranks[i] is None,
        rank_ok_at(nodes, old_ranks.update(i, Some(p)), i),
    ensures
        ranks_wf(nodes, old_ranks.update(i, Some(p))),
{
    let new_ranks = old_ranks.update(i, Some(p));
    assert(forall|c: int|
        has_rank(old_ranks, c) ==> has_rank(new_ranks, c) && rankv(new_ranks, c) == rankv(
            old_ranks,
            c,
        ));
    assert forall|k: int|
        0 <= k < nodes.len() && (#[trigger] new_ranks[k]) is Some implies rank_ok_at(
        nodes,
        new_ranks,
        k,
    ) by {
        if k == i {
        } else {
            assert(old_ranks[k] is Some);
            assert(rank_ok_at(nodes, old_ranks, k));
            assert(rankv(new_ranks, k) == rankv(old_ranks, k));
            match nodes[k].data_type {
                MatrixTypeView::Struct { members } => {
                    assert forall|m: int| 0 <= m < members.len() implies (has_node(
                        nodes,
                        (#[trigger] members[m]).member_ref,
                    ) && has_rank(new_ranks, node_index(nodes, members[m].member_ref)) && rankv(
                        new_ranks,
                        node_index(nodes, members[m].member_ref),
                    ) < rankv(new_ranks, k)) by {
                        assert(has_rank(old_ranks, node_index(nodes, members[m].member_ref)));
                    }
                },
                _ => {},
            }
        }
    }
}


/// Whether every member's type is present and ranked strictly below `p`.
pub open spec fn spec_struct_children_ready(
    nodes: Seq<MatrixDataNodeView>,
    ranks: Seq<Option<u128>>,
    members: Seq<MatrixMemberView>,
    p: u128,
) -> bool {
    forall|k: int|
        0 <= k < members.len() ==> (has_node(nodes, (#[trigger] members[k]).member_ref)
            && has_rank(ranks, node_index(nodes, members[k].member_ref)) && rankv(
            ranks,
            node_index(nodes, members[k].member_ref),
        ) < p)
}

/// Checks that every member's type node exists and already has a rank below
/// the pass counter `p`.
fn struct_children_ready(
    m: &Matrix,
    ranks: &Vec<Option<u128>>,
    members: &Vec<MatrixMember>,
    p: u128,
) -> (r: bool)
    requires
        m@.data_type_names_unique(),
        ranks@.len() == m@.data_types.len(),
    ensures
        r == spec_struct_children_ready(
            m@.data_types,
            ranks@,
            members@.map_values(|mm: MatrixMember| mm@),
            p,
        ),
{
    let ghost membersv = members@.map_values(|mm: MatrixMember| mm@);
    let n = members.len();
    let mut k: usize = 0;
    while k < n
        invariant
            n == members.len(),
            k <= n,
            m@.data_type_names_unique(),
            ranks@.len() == m@.data_types.len(),
            membersv == members@.map_values(|mm: MatrixMember| mm@),
            forall|q: int|
                0 <= q < k ==> (has_node(m@.data_types, (#[trigger] membersv[q]).member_ref)
                    && has_rank(ranks@, node_index(m@.data_types, membersv[q].member_ref))
                    && rankv(ranks@, node_index(m@.data_types, membersv[q].member_ref)) < p),
        decreases n - k,
    {
        proof {
            assert(membersv[k as int] == members@[k as int]@);
        }
        match m.find_node_index(&members[k].member_ref) {
            None => {
                return false;
            },
            Some(j) => {
                match ranks[j] {
                    None => {
                        return false;
                    },
                    Some(r) => {
                        if !(r < p) {
                            return false;
                        }
                        proof {
                            let q = k as int;
                            assert(has_node(m@.data_types, membersv[q].member_ref));
                            assert(j as int == node_index(m@.data_types, membersv[q].member_ref));
                            assert(ranks@[j as int] == Some(r));
                            assert(has_rank(ranks@, j as int));
                            assert(rankv(ranks@, j as int) == r as nat);
                        }
                    },
                }
            },
        }
        k += 1;
    }
    true
}

impl CodecAnalysis {
    /// The boundedness analysis of spec design: repeated passes assign each
    /// node a rank once every static child is ranked, until nothing changes;
    /// what stays unranked is exactly what a placeholder, a dangling
    /// reference or an unbounded cycle obstructs.
    pub fn analyze(m: &Matrix) -> (a: CodecAnalysis)
        requires
            m@.data_type_names_unique(),
        ensures
            ranks_wf(m@.data_types, a@),
            ranks_complete(m@.data_types, a@),
    {
        let n = m.data_types.len();
        let mut ranks: Vec<Option<u128>> = Vec::new();
        while ranks.len() < n
            invariant
                ranks.len() <= n,
                forall|q: int| 0 <= q < ranks@.len() ==> (#[trigger] ranks@[q]) is None,
                count_none(ranks@) == ranks@.len(),
            decreases n - ranks.len(),
        {
            proof {
                lemma_count_none_push_none(ranks@);
            }
            ranks.push(None);
        }
        let mut p: u128 = 1;
        loop
            invariant_except_break
                ranks@.len() == n,
                n == m.data_types@.len(),
                m@.data_type_names_unique(),
                ranks_wf(m@.data_types, ranks@),
                forall|q: int|
                    0 <= q < n && (#[trigger] ranks@[q]) is Some ==> (ranks@[q]->0 as nat) < (
                    p as nat),
                1 <= p,
                p as nat <= 1 + n - count_none(ranks@),
                count_none(ranks@) <= n,
            ensures
                ranks_wf(m@.data_types, ranks@),
                ranks_complete(m@.data_types, ranks@),
                ranks@.len() == n,
            decreases count_none(ranks@),
        {
            let ghost start_ranks = ranks@;
            let mut changed = false;
            let mut i: usize = 0;
            while i < n
                invariant
                    ranks@.len() == n,
                    n == m.data_types@.len(),
                    i <= n,
                    m@.data_type_names_unique(),
                    ranks_wf(m@.data_types, ranks@),
                    forall|q: int|
                        0 <= q < n && (#[trigger] ranks@[q]) is Some ==> (ranks@[q]->0 as nat)
                            <= (p as nat),
                    forall|q: int|
                        0 <= q < n && (#[trigger] start_ranks[q]) is Some ==> ranks@[q]
                            == start_ranks[q],
                    !changed ==> ranks@ == start_ranks,
                    !changed ==> forall|q: int|
                        0 <= q < i && (#[trigger] ranks@[q]) is None ==> rank_none_justified(
                            m@.data_types,
                            ranks@,
                            q,
                        ),
                    changed ==> count_none(ranks@) < count_none(start_ranks),
                    count_none(ranks@) <= count_none(start_ranks),
                    forall|q: int|
                        0 <= q < n && (#[trigger] start_ranks[q]) is Some ==> (start_ranks[q]->0
                            as nat) < (p as nat),
                decreases n - i,
            {
                proof {
                    assert(m@.data_types[i as int] == m.data_types@[i as int]@);
                }
                let assignable: bool = if matches!(ranks[i], Some(_)) {
                    false
                } else {
                    match &m.data_types[i].data_type {
                        MatrixType::Number { .. } => true,
                        MatrixType::String { .. } => true,
                        MatrixType::Unimplemented => false,
                        MatrixType::Array { length, member } => match length {
                            StringArrayLength::FIXED(c) => {
                                if *c == 0 {
                                    true
                                } else {
                                    match m.find_node_index(&member.member_ref) {
                                        None => false,
                                        Some(j) => match ranks[j] {
                                            None => false,
                                            Some(r) => r < p,
                                        },
                                    }
                                }
                            },
                            StringArrayLength::DYNAMIC(_, _) => {
                                match m.find_node_index(&member.member_ref) {
                                    None => false,
                                    Some(_) => true,
                                }
                            },
                        },
                        MatrixType::Struct { members } => {
                            struct_children_ready(m, &ranks, members, p)
                        },
                    }
                };
                if assignable {
                    let ghost before = ranks@;
                    proof {
                        lemma_count_none_update_some(ranks@, i as int, p);
                    }
                    ranks[i] = Some(p);
                    proof {
                        assert(rank_ok_at(m@.data_types, ranks@, i as int)) by {
                            assert(rankv(ranks@, i as int) == p as nat);
                            assert(forall|c: int|
                                has_rank(before, c) ==> has_rank(ranks@, c) && rankv(ranks@, c)
                                    == rankv(before, c));
                        }
                        lemma_wf_preserved_by_assign(m@.data_types, before, i as int, p);
                    }
                    changed = true;
                }
                i += 1;
            }
            if !changed {
                break;
            }
            proof {
                lemma_count_none_le_len(ranks@);
            }
            p = p + 1;
        }
        CodecAnalysis { ranks }
    }
}


/// How an executable decode result corresponds to its specification.
pub open spec fn decode_result_matches(
    r: Result<(Value, usize), CodecError>,
    s: Result<(ValueView, int), CodecError>,
) -> bool {
    match (r, s) {
        (Ok((v, p)), Ok((sv, sp))) => v@ == sv && p as int == sp,
        (Err(e), Err(se)) => e == se,
        _ => false,
    }
}

pub open spec fn members_result_matches(
    r: Result<(Vec<(String, Value)>, usize), CodecError>,
    s: Result<(Seq<(Seq<char>, ValueView)>, int), CodecError>,
) -> bool {
    match (r, s) {
        (Ok((fs, p)), Ok((sfs, sp))) => fields_view(fs@) == sfs && p as int == sp,
        (Err(e), Err(se)) => e == se,
        _ => false,
    }
}

pub open spec fn elems_result_matches(
    r: Result<(Vec<Value>, usize), CodecError>,
    s: Result<(Seq<ValueView>, int), CodecError>,
) -> bool {
    match (r, s) {
        (Ok((es, p)), Ok((ses, sp))) => list_view(es@) == ses && p as int == sp,
        (Err(e), Err(se)) => e == se,
        _ => false,
    }
}

/// The rank of node `i`, zero when unassigned or out of range.
fn rank_at(a: &CodecAnalysis, i: usize) -> (r: u128)
    ensures
        r == rankv(a@, i as int),
{
    if i < a.ranks.len() {
        match a.ranks[i] {
            Some(r) => r,
            None => 0,
        }
    } else {
        0
    }
}

/// Whether node `i` has an assigned rank.
fn has_rank_at(a: &CodecAnalysis, i: usize) -> (r: bool)
    ensures
        r == has_rank(a@, i as int),
{
    if i < a.ranks.len() {
        matches!(a.ranks[i], Some(_))
    } else {
        false
    }
}

/// Decodes one string region of exactly `n_region` bytes.
fn decode_string_region(bytes: &Vec<u8>, pos: usize, n_region: usize, encoding: StringEncoding) -> (r:
    Result<(Value, usize), CodecError>)
    ensures
        decode_result_matches(r, spec_decode_string_region(bytes@, pos as int, n_region as int, encoding)),
{
    let len = bytes.len();
    if pos > len || n_region > len - pos {
        return Err(CodecError::TruncatedInput);
    }
    let bl: usize = match encoding {
        StringEncoding::UTF8 => 3,
        StringEncoding::UTF16LE => 2,
        StringEncoding::UTF16BE => 2,
    };
    let tl: usize = match encoding {
        StringEncoding::UTF8 => 1,
        StringEncoding::UTF16LE => 2,
        StringEncoding::UTF16BE => 2,
    };
    let eff: usize = match encoding {
        StringEncoding::UTF8 => n_region,
        StringEncoding::UTF16LE => n_region - (n_region % 2),
        StringEncoding::UTF16BE => n_region - (n_region % 2),
    };
    if eff < bl + tl {
        return Err(CodecError::InvalidEncoding);
    }
    let ghost bom = bom_bytes(encoding);
    let ghost sub = bytes@.subrange(pos as int, pos + bl);
    let bom_ok: bool = match encoding {
        StringEncoding::UTF8 => bytes[pos] == 0xEF && bytes[pos + 1] == 0xBB && bytes[pos + 2]
            == 0xBF,
        StringEncoding::UTF16LE => bytes[pos] == 0xFF && bytes[pos + 1] == 0xFE,
        StringEncoding::UTF16BE => bytes[pos] == 0xFE && bytes[pos + 1] == 0xFF,
    };
    proof {
        assert(sub.len() == bl);
        assert(bom.len() == bl);
        if bom_ok {
            assert(sub =~= bom);
        } else {
            assert(sub != bom) by {
                if sub == bom {
                    assert(sub[0] == bom[0] && sub[1] == bom[1]);
                    if bl == 3 {
                        assert(sub[2] == bom[2]);
                    }
                }
            }
        }
    }
    if !bom_ok {
        return Err(CodecError::InvalidEncoding);
    }
    let ghost zsub = bytes@.subrange(pos + eff - tl, pos + eff);
    let term_ok: bool = if tl == 1 {
        bytes[pos + (eff - 1)] == 0
    } else {
        bytes[pos + (eff - 2)] == 0 && bytes[pos + (eff - 1)] == 0
    };
    proof {
        assert(zsub.len() == tl);
        if term_ok {
            assert(zsub =~= zero_bytes(tl as nat));
        } else {
            assert(zsub != zero_bytes(tl as nat)) by {
                if zsub == zero_bytes(tl as nat) {
                    assert(zsub[tl - 1] == 0);
                    if tl == 2 {
                        assert(zsub[0] == 0);
                    }
                }
            }
        }
    }
    if !term_ok {
        return Err(CodecError::InvalidEncoding);
    }
    let stop = pos + eff - tl;
    let mut content: Vec<u8> = Vec::new();
    let mut q = pos + bl;
    while q < stop
        invariant
            pos + bl <= q <= stop,
            stop == pos + eff - tl,
            pos + eff <= bytes@.len(),
            bl + tl <= eff,
            content@ =~= bytes@.subrange(pos + bl, q as int),
        decreases stop - q,
    {
        content.push(bytes[q]);
        q += 1;
    }
    proof {
        assert(content@ =~= bytes@.subrange(pos + bl, pos + eff - tl));
    }
    Ok((Value::Text(content), pos + n_region))
}

/// Decodes the node at arena index `idx` from `bytes` at `pos`.
#[verifier::rlimit(80)]
pub fn decode_at(
    m: &Matrix,
    a: &CodecAnalysis,
    params: &MatrixSerializationParameter,
    idx: usize,
    bytes: &Vec<u8>,
    pos: usize,
) -> (r: Result<(Value, usize), CodecError>)
    requires
        m@.data_type_names_unique(),
    ensures
        decode_result_matches(
            r,
            spec_decode(m@.data_types, a@, *params, idx as int, bytes@, pos as int),
        ),
    decreases bytes@.len() - pos, rankv(a@, idx as int), 1nat, 0nat,
{
    let len = bytes.len();
    if pos > len {
        return Err(CodecError::TruncatedInput);
    }
    if idx >= m.data_types.len() || !has_rank_at(a, idx) {
        return Err(CodecError::UnboundedType);
    }
    proof {
        assert(m@.data_types[idx as int] == m.data_types@[idx as int]@);
    }
    let node = &m.data_types[idx];
    match &node.data_type {
        MatrixType::Unimplemented => Err(CodecError::UnboundedType),
        MatrixType::Number { size } => {
            let w = size.width();
            if w > len - pos {
                return Err(CodecError::TruncatedInput);
            }
            let x = crate::wire::read_be(bytes, pos, w);
            Ok((Value::Number(x), pos + w))
        },
        MatrixType::String { length, encoding } => match length {
            StringArrayLength::FIXED(n) => decode_string_region(bytes, pos, *n, *encoding),
            StringArrayLength::DYNAMIC(_, _) => {
                let w = params.string_length_field_size.width();
                if w > len - pos {
                    return Err(CodecError::TruncatedInput);
                }
                let l = crate::wire::read_be(bytes, pos, w);
                let rem = len - pos - w;
                if l > rem as u64 {
                    return Err(CodecError::TruncatedInput);
                }
                let l_usz = l as usize;
                match decode_string_region(bytes, pos + w, l_usz, *encoding) {
                    Err(e) => Err(e),
                    Ok((v, _)) => Ok((v, pos + w + l_usz)),
                }
            },
        },
        MatrixType::Array { length, member } => {
            match m.find_node_index(&member.member_ref) {
                None => Err(CodecError::UnboundedType),
                Some(j) => match length {
                    StringArrayLength::FIXED(n) => {
                        match decode_elems_fixed_at(m, a, params, j, idx, *n, bytes, pos) {
                            Err(e) => Err(e),
                            Ok((es, p)) => Ok((Value::List(es), p)),
                        }
                    },
                    StringArrayLength::DYNAMIC(_, _) => {
                        let w = params.array_length_field_size.width();
                        if w > len - pos {
                            return Err(CodecError::TruncatedInput);
                        }
                        let l = crate::wire::read_be(bytes, pos, w);
                        let rem = len - pos - w;
                        if l > rem as u64 {
                            return Err(CodecError::TruncatedInput);
                        }
                        let l_usz = l as usize;
                        match decode_elems_dyn_at(m, a, params, j, bytes, pos + w, pos + w + l_usz) {
                            Err(e) => Err(e),
                            Ok(es) => Ok((Value::List(es), pos + w + l_usz)),
                        }
                    },
                },
            }
        },
        MatrixType::Struct { members } => {
            if params.length_field_for_struct {
                let w = params.struct_length_field_size.width();
                if w > len - pos {
                    return Err(CodecError::TruncatedInput);
                }
                let l = crate::wire::read_be(bytes, pos, w);
                let rem = len - pos - w;
                if l > rem as u64 {
                    return Err(CodecError::TruncatedInput);
                }
                let l_usz = l as usize;
                match decode_members_at(m, a, params, idx, members, 0, bytes, pos + w) {
                    Err(e) => Err(e),
                    Ok((fs, p)) => {
                        if p >= pos + w && p - (pos + w) == l_usz {
                            Ok((Value::Record(fs), p))
                        } else {
                            Err(CodecError::LengthMismatch)
                        }
                    },
                }
            } else {
                match decode_members_at(m, a, params, idx, members, 0, bytes, pos) {
                    Err(e) => Err(e),
                    Ok((fs, p)) => Ok((Value::Record(fs), p)),
                }
            }
        },
    }
}

/// Decodes the members of the struct at `sidx` from member `k` on.
fn decode_members_at(
    m: &Matrix,
    a: &CodecAnalysis,
    params: &MatrixSerializationParameter,
    sidx: usize,
    members: &Vec<MatrixMember>,
    k: usize,
    bytes: &Vec<u8>,
    pos: usize,
) -> (r: Result<(Vec<(String, Value)>, usize), CodecError>)
    requires
        m@.data_type_names_unique(),
    ensures
        members_result_matches(
            r,
            spec_decode_members(
                m@.data_types,
                a@,
                *params,
                sidx as int,
                members@.map_values(|mm: MatrixMember| mm@),
                k as int,
                bytes@,
                pos as int,
            ),
        ),
    decreases bytes@.len() - pos, rankv(a@, sidx as int), 0nat, members@.len() - k,
{
    let ghost membersv = members@.map_values(|mm: MatrixMember| mm@);
    let len = bytes.len();
    if pos > len {
        return Err(CodecError::TruncatedInput);
    }
    if k >= members.len() {
        proof {
            assert(fields_view(Seq::<(String, Value)>::empty()) =~= Seq::<(
                Seq<char>,
                ValueView,
            )>::empty());
        }
        return Ok((Vec::new(), pos));
    }
    proof {
        assert(membersv[k as int] == members@[k as int]@);
    }
    match m.find_node_index(&members[k].member_ref) {
        None => Err(CodecError::UnboundedType),
        Some(j) => {
            if !(rank_at(a, j) < rank_at(a, sidx)) {
                return Err(CodecError::UnboundedType);
            }
            match decode_at(m, a, params, j, bytes, pos) {
                Err(e) => Err(e),
                Ok((v, p2)) => {
                    if p2 < pos || p2 > len {
                        return Err(CodecError::LengthMismatch);
                    }
                    match decode_members_at(m, a, params, sidx, members, k + 1, bytes, p2) {
                        Err(e) => Err(e),
                        Ok((rest, p3)) => {
                            let name = members[k].member_name.clone();
                            let ghost restv = rest@;
                            let mut out = rest;
                            out.insert(0, (name, v));
                            proof {
                                assert(fields_view(out@) =~= seq![
                                    (membersv[k as int].member_name, v@),
                                ] + fields_view(restv));
                            }
                            Ok((out, p3))
                        },
                    }
                },
            }
        },
    }
}

/// Decodes exactly `count` elements of node `j` for the fixed array at
/// `pidx`.
fn decode_elems_fixed_at(
    m: &Matrix,
    a: &CodecAnalysis,
    params: &MatrixSerializationParameter,
    j: usize,
    pidx: usize,
    count: usize,
    bytes: &Vec<u8>,
    pos: usize,
) -> (r: Result<(Vec<Value>, usize), CodecError>)
    requires
        m@.data_type_names_unique(),
    ensures
        elems_result_matches(
            r,
            spec_decode_elems_fixed(
                m@.data_types,
                a@,
                *params,
                j as int,
                pidx as int,
                count as int,
                bytes@,
                pos as int,
            ),
        ),
    decreases bytes@.len() - pos, rankv(a@, pidx as int), 0nat, count,
{
    let len = bytes.len();
    if pos > len {
        return Err(CodecError::TruncatedInput);
    }
    if count == 0 {
        proof {
            assert(list_view(Seq::<Value>::empty()) =~= Seq::<ValueView>::empty());
        }
        return Ok((Vec::new(), pos));
    }
    if !(rank_at(a, j) < rank_at(a, pidx)) {
        return Err(CodecError::UnboundedType);
    }
    match decode_at(m, a, params, j, bytes, pos) {
        Err(e) => Err(e),
        Ok((v, p2)) => {
            if p2 < pos || p2 > len {
                return Err(CodecError::LengthMismatch);
            }
            match decode_elems_fixed_at(m, a, params, j, pidx, count - 1, bytes, p2) {
                Err(e) => Err(e),
                Ok((rest, p3)) => {
                    let ghost restv = rest@;
                    let mut out = rest;
                    out.insert(0, v);
                    proof {
                        assert(list_view(out@) =~= seq![v@] + list_view(restv));
                    }
                    Ok((out, p3))
                },
            }
        },
    }
}

/// Decodes elements of node `j` until exactly the bytes up to `end` are
/// used.
fn decode_elems_dyn_at(
    m: &Matrix,
    a: &CodecAnalysis,
    params: &MatrixSerializationParameter,
    j: usize,
    bytes: &Vec<u8>,
    pos: usize,
    end: usize,
) -> (r: Result<Vec<Value>, CodecError>)
    requires
        m@.data_type_names_unique(),
    ensures
        (match (
            r,
            spec_decode_elems_dyn(m@.data_types, a@, *params, j as int, bytes@, pos as int, end as int),
        ) {
            (Ok(es), Ok(ses)) => list_view(es@) == ses,
            (Err(e), Err(se)) => e == se,
            _ => false,
        }),
    decreases bytes@.len() - pos, rankv(a@, j as int), 2nat, 0nat,
{
    let len = bytes.len();
    if pos > end || end > len {
        return Err(CodecError::TruncatedInput);
    }
    if pos == end {
        proof {
            assert(list_view(Seq::<Value>::empty()) =~= Seq::<ValueView>::empty());
        }
        return Ok(Vec::new());
    }
    match decode_at(m, a, params, j, bytes, pos) {
        Err(e) => Err(e),
        Ok((v, p2)) => {
            if p2 <= pos || p2 > end {
                return Err(CodecError::LengthMismatch);
            }
            match decode_elems_dyn_at(m, a, params, j, bytes, p2, end) {
                Err(e) => Err(e),
                Ok(rest) => {
                    let ghost restv = rest@;
                    let mut out = rest;
                    out.insert(0, v);
                    proof {
                        assert(list_view(out@) =~= seq![v@] + list_view(restv));
                    }
                    Ok(out)
                },
            }
        },
    }
}

/// Decodes one whole payload against the named type node; trailing bytes
/// are a length mismatch.
pub fn decode(
    m: &Matrix,
    a: &CodecAnalysis,
    params: &MatrixSerializationParameter,
    name: &String,
    bytes: &Vec<u8>,
) -> (r: Result<Value, CodecError>)
    requires
        m@.data_type_names_unique(),
    ensures
        (match (r, spec_decode_payload(m@.data_types, a@, *params, name@, bytes@)) {
            (Ok(v), Ok(sv)) => v@ == sv,
            (Err(e), Err(se)) => e == se,
            _ => false,
        }),
{
    match m.find_node_index(name) {
        None => Err(CodecError::UnboundedType),
        Some(idx) => {
            if (bytes.len() as u128) < min_len_at(m, a, params, idx) {
                return Err(CodecError::TruncatedInput);
            }
            match decode_at(m, a, params, idx, bytes, 0) {
                Err(e) => Err(e),
                Ok((v, p)) => {
                    if p == bytes.len() {
                        Ok(v)
                    } else {
                        Err(CodecError::LengthMismatch)
                    }
                },
            }
        },
    }
}


/// Whether `x` fits in a length/number field of `w` bytes, for the widths a
/// size class can take.
fn fits_in_width(x: u128, w: usize) -> (r: bool)
    requires
        w == 1 || w == 2 || w == 4 || w == 8,
    ensures
        r == fits_width(x as nat, w as nat),
{
    proof {
        crate::wire::lemma_pow256_values();
    }
    if w == 1 {
        x < 0x100
    } else if w == 2 {
        x < 0x1_0000
    } else if w == 4 {
        x < 0x1_0000_0000
    } else {
        x < 0x1_0000_0000_0000_0000
    }
}

/// Appends the byte-order mark.
fn push_bom(out: &mut Vec<u8>, encoding: StringEncoding)
    ensures
        final(out)@ == old(out)@ + bom_bytes(encoding),
{
    match encoding {
        StringEncoding::UTF8 => {
            out.push(0xEF);
            out.push(0xBB);
            out.push(0xBF);
        },
        StringEncoding::UTF16LE => {
            out.push(0xFF);
            out.push(0xFE);
        },
        StringEncoding::UTF16BE => {
            out.push(0xFE);
            out.push(0xFF);
        },
    }
    assert(final(out)@ =~= old(out)@ + bom_bytes(encoding));
}

/// Appends content bytes and the zero terminator of a string region.
fn push_string_tail(out: &mut Vec<u8>, t: &Vec<u8>, tl: usize)
    ensures
        final(out)@ == old(out)@ + t@ + zero_bytes(tl as nat),
{
    let n = t.len();
    let mut i: usize = 0;
    while i < n
        invariant
            i <= n,
            n == t@.len(),
            out@ =~= old(out)@ + t@.subrange(0, i as int),
        decreases n - i,
    {
        out.push(t[i]);
        i += 1;
    }
    assert(out@ =~= old(out)@ + t@);
    let mut z: usize = 0;
    while z < tl
        invariant
            z <= tl,
            out@ =~= old(out)@ + t@ + zero_bytes(z as nat),
        decreases tl - z,
    {
        out.push(0);
        proof {
            assert(out@ =~= old(out)@ + t@ + zero_bytes(z as nat + 1));
        }
        z += 1;
    }
}

/// Encodes a value against the node at `idx`: succeeds exactly on
/// conforming values, and then produces `spec_encode`'s bytes.
#[verifier::rlimit(80)]
pub fn encode_at(
    m: &Matrix,
    params: &MatrixSerializationParameter,
    idx: usize,
    v: &Value,
) -> (r: Result<Vec<u8>, CodecError>)
    requires
        m@.data_type_names_unique(),
    ensures
        (match r {
            Ok(b) => conforms(m@.data_types, *params, idx as int, v@) && b@ == spec_encode(
                m@.data_types,
                *params,
                idx as int,
                v@,
            ),
            Err(e) => !conforms(m@.data_types, *params, idx as int, v@) && e
                == CodecError::InvalidEncoding,
        }),
    decreases v, 1nat, 0nat,
{
    if idx >= m.data_types.len() {
        return Err(CodecError::InvalidEncoding);
    }
    proof {
        assert(m@.data_types[idx as int] == m.data_types@[idx as int]@);
    }
    let node = &m.data_types[idx];
    match (&node.data_type, v) {
        (MatrixType::Number { size }, Value::Number(x)) => {
            let w = size.width();
            if !fits_in_width(*x as u128, w) {
                return Err(CodecError::InvalidEncoding);
            }
            let mut out: Vec<u8> = Vec::new();
            crate::wire::write_be(&mut out, *x, w);
            assert(out@ =~= be_bytes(*x as nat, w as nat));
            Ok(out)
        },
        (MatrixType::String { length, encoding }, Value::Text(t)) => {
            let bl: usize = match encoding {
                StringEncoding::UTF8 => 3,
                StringEncoding::UTF16LE => 2,
                StringEncoding::UTF16BE => 2,
            };
            let tl: usize = match encoding {
                StringEncoding::UTF8 => 1,
                StringEncoding::UTF16LE => 2,
                StringEncoding::UTF16BE => 2,
            };
            let even_ok = match encoding {
                StringEncoding::UTF8 => true,
                StringEncoding::UTF16LE => t.len() % 2 == 0,
                StringEncoding::UTF16BE => t.len() % 2 == 0,
            };
            if !even_ok {
                return Err(CodecError::InvalidEncoding);
            }
            proof {
                assert(bl == bom_len(*encoding) && tl == term_len(*encoding));
            }
            match length {
                StringArrayLength::FIXED(n) => {
                    if !(*n >= bl + tl && t.len() == *n - (bl + tl)) {
                        proof {
                            assert(*n != bom_len(*encoding) + t@.len() + term_len(*encoding));
                        }
                        return Err(CodecError::InvalidEncoding);
                    }
                    let mut out: Vec<u8> = Vec::new();
                    push_bom(&mut out, *encoding);
                    push_string_tail(&mut out, t, tl);
                    assert(out@ =~= spec_string_body(*encoding, t@));
                    Ok(out)
                },
                StringArrayLength::DYNAMIC(_, _) => {
                    let w = params.string_length_field_size.width();
                    let region: u128 = (t.len() as u128) + ((bl + tl) as u128);
                    proof {
                        assert(region as nat == bom_len(*encoding) + t@.len() + term_len(
                            *encoding,
                        ));
                    }
                    if !fits_in_width(region, w) {
                        return Err(CodecError::InvalidEncoding);
                    }
                    let mut out: Vec<u8> = Vec::new();
                    proof {
                        crate::wire::lemma_pow256_values();
                        crate::wire::lemma_pow256_mono(w as nat, 8);
                    }
                    crate::wire::write_be(&mut out, region as u64, w);
                    push_bom(&mut out, *encoding);
                    push_string_tail(&mut out, t, tl);
                    assert(out@ =~= be_bytes(
                        bom_len(*encoding) + t@.len() + term_len(*encoding),
                        w as nat,
                    ) + spec_string_body(*encoding, t@));
                    Ok(out)
                },
            }
        },
        (MatrixType::Array { length, member }, Value::List(es)) => {
            match m.find_node_index(&member.member_ref) {
                None => Err(CodecError::InvalidEncoding),
                Some(j) => {
                    match length {
                        StringArrayLength::FIXED(n) => {
                            if es.len() != *n {
                                proof {
                                    assert(v@ == ValueView::List(list_view(es@)));
                                    assert(list_view(es@).len() == es@.len());
                                    assert(!conforms(m@.data_types, *params, idx as int, v@));
                                }
                                return Err(CodecError::InvalidEncoding);
                            }
                            match encode_list_at(m, params, j, es, 0) {
                                Err(e) => Err(e),
                                Ok(body) => Ok(body),
                            }
                        },
                        StringArrayLength::DYNAMIC(_, _) => {
                            match encode_list_at(m, params, j, es, 0) {
                                Err(e) => Err(e),
                                Ok(body) => {
                                    let w = params.array_length_field_size.width();
                                    if !fits_in_width(body.len() as u128, w) {
                                        return Err(CodecError::InvalidEncoding);
                                    }
                                    let mut out: Vec<u8> = Vec::new();
                                    proof {
                                        crate::wire::lemma_pow256_values();
                                        crate::wire::lemma_pow256_mono(w as nat, 8);
                                    }
                                    crate::wire::write_be(&mut out, body.len() as u64, w);
                                    let ghost bodyv = body@;
                                    let mut body_mut = body;
                                    out.append(&mut body_mut);
                                    assert(out@ =~= be_bytes(bodyv.len(), w as nat) + bodyv);
                                    Ok(out)
                                },
                            }
                        },
                    }
                },
            }
        },
        (MatrixType::Struct { members }, Value::Record(fs)) => {
            if fs.len() != members.len() {
                proof {
                    assert(v@ == ValueView::Record(fields_view(fs@)));
                    assert(fields_view(fs@).len() == fs@.len());
                    assert(members@.map_values(|mm: MatrixMember| mm@).len() == members@.len());
                    assert(!conforms(m@.data_types, *params, idx as int, v@));
                }
                return Err(CodecError::InvalidEncoding);
            }
            match encode_members_at(m, params, members, fs, 0) {
                Err(e) => Err(e),
                Ok(body) => {
                    if params.length_field_for_struct {
                        let w = params.struct_length_field_size.width();
                        if !fits_in_width(body.len() as u128, w) {
                            return Err(CodecError::InvalidEncoding);
                        }
                        let mut out: Vec<u8> = Vec::new();
                        proof {
                            crate::wire::lemma_pow256_values();
                            crate::wire::lemma_pow256_mono(w as nat, 8);
                        }
                        crate::wire::write_be(&mut out, body.len() as u64, w);
                        let ghost bodyv = body@;
                        let mut body_mut = body;
                        out.append(&mut body_mut);
                        assert(out@ =~= be_bytes(bodyv.len(), w as nat) + bodyv);
                        Ok(out)
                    } else {
                        Ok(body)
                    }
                },
            }
        },
        _ => Err(CodecError::InvalidEncoding),
    }
}

/// Encodes the elements from `k` on against node `j`.
fn encode_list_at(
    m: &Matrix,
    params: &MatrixSerializationParameter,
    j: usize,
    es: &Vec<Value>,
    k: usize,
) -> (r: Result<Vec<u8>, CodecError>)
    requires
        m@.data_type_names_unique(),
    ensures
        (match r {
            Ok(b) => conforms_list(m@.data_types, *params, j as int, list_view(es@), k as int)
                && b@ == spec_encode_list(m@.data_types, *params, j as int, list_view(es@), k as int),
            Err(e) => !conforms_list(m@.data_types, *params, j as int, list_view(es@), k as int)
                && e == CodecError::InvalidEncoding,
        }),
    decreases es, 0nat, es@.len() - k,
{
    if k >= es.len() {
        return Ok(Vec::new());
    }
    proof {
        assert(list_view(es@)[k as int] == es@[k as int]@);
    }
    match encode_at(m, params, j, &es[k]) {
        Err(e) => Err(e),
        Ok(head) => {
            match encode_list_at(m, params, j, es, k + 1) {
                Err(e) => Err(e),
                Ok(rest) => {
                    let ghost headv = head@;
                    let ghost restv = rest@;
                    let mut out = head;
                    let mut rest_mut = rest;
                    out.append(&mut rest_mut);
                    assert(out@ =~= headv + restv);
                    Ok(out)
                },
            }
        },
    }
}

/// Encodes the record fields from `k` on, each against its member's node.
fn encode_members_at(
    m: &Matrix,
    params: &MatrixSerializationParameter,
    members: &Vec<MatrixMember>,
    fs: &Vec<(String, Value)>,
    k: usize,
) -> (r: Result<Vec<u8>, CodecError>)
    requires
        m@.data_type_names_unique(),
    ensures
        (match r {
            Ok(b) => conforms_members(
                m@.data_types,
                *params,
                members@.map_values(|mm: MatrixMember| mm@),
                fields_view(fs@),
                k as int,
            ) && b@ == spec_encode_members(
                m@.data_types,
                *params,
                members@.map_values(|mm: MatrixMember| mm@),
                fields_view(fs@),
                k as int,
            ),
            Err(e) => !conforms_members(
                m@.data_types,
                *params,
                members@.map_values(|mm: MatrixMember| mm@),
                fields_view(fs@),
                k as int,
            ) && e == CodecError::InvalidEncoding,
        }),
    decreases fs, 0nat, fs@.len() - k,
{
    let ghost membersv = members@.map_values(|mm: MatrixMember| mm@);
    if k >= fs.len() {
        return Ok(Vec::new());
    }
    if k >= members.len() {
        return Err(CodecError::InvalidEncoding);
    }
    proof {
        assert(membersv[k as int] == members@[k as int]@);
        assert(fields_view(fs@)[k as int] == (fs@[k as int].0@, fs@[k as int].1@));
    }
    if !(fs[k].0 == members[k].member_name) {
        return Err(CodecError::InvalidEncoding);
    }
    match m.find_node_index(&members[k].member_ref) {
        None => Err(CodecError::InvalidEncoding),
        Some(j) => {
            match encode_at(m, params, j, &fs[k].1) {
                Err(e) => Err(e),
                Ok(head) => {
                    match encode_members_at(m, params, members, fs, k + 1) {
                        Err(e) => Err(e),
                        Ok(rest) => {
                            let ghost headv = head@;
                            let ghost restv = rest@;
                            let mut out = head;
                            let mut rest_mut = rest;
                            out.append(&mut rest_mut);
                            assert(out@ =~= headv + restv);
                            Ok(out)
                        },
                    }
                },
            }
        },
    }
}

/// Encodes a value against the named type node.
pub fn encode(
    m: &Matrix,
    params: &MatrixSerializationParameter,
    name: &String,
    v: &Value,
) -> (r: Result<Vec<u8>, CodecError>)
    requires
        m@.data_type_names_unique(),
    ensures
        (match r {
            Ok(b) => has_node(m@.data_types, name@) && conforms(
                m@.data_types,
                *params,
                node_index(m@.data_types, name@),
                v@,
            ) && b@ == spec_encode(m@.data_types, *params, node_index(m@.data_types, name@), v@),
            Err(e) => e == CodecError::InvalidEncoding && (!has_node(m@.data_types, name@)
                || !conforms(m@.data_types, *params, node_index(m@.data_types, name@), v@)),
        }),
{
    match m.find_node_index(name) {
        None => Err(CodecError::InvalidEncoding),
        Some(idx) => encode_at(m, params, idx, v),
    }
}


/// Splits knowledge of a concatenation found in `bytes` into its two parts.
proof fn lemma_subrange_concat(bytes: Seq<u8>, pos: int, a: Seq<u8>, b: Seq<u8>)
    requires
        0 <= pos,
        pos + a.len() + b.len() <= bytes.len(),
        bytes.subrange(pos, pos + a.len() + b.len()) == a + b,
    ensures
        bytes.subrange(pos, pos + a.len()) == a,
        bytes.subrange(pos + a.len(), pos + a.len() + b.len()) == b,
{
    let whole = bytes.subrange(pos, pos + a.len() + b.len());
    assert(bytes.subrange(pos, pos + a.len()) =~= a) by {
        assert(forall|i: int|
            0 <= i < a.len() ==> bytes.subrange(pos, pos + a.len())[i] == whole[i] && whole[i]
                == (a + b)[i]);
    }
    assert(bytes.subrange(pos + a.len(), pos + a.len() + b.len()) =~= b) by {
        assert forall|i: int| 0 <= i < b.len() implies bytes.subrange(
            pos + a.len(),
            pos + a.len() + b.len(),
        )[i] == b[i] by {
            assert(bytes.subrange(pos + a.len(), pos + a.len() + b.len())[i] == bytes[pos
                + a.len() + i]);
            assert(whole[a.len() + i] == bytes[pos + a.len() + i]);
            assert(whole[a.len() + i] == (a + b)[a.len() + i]);
            assert((a + b)[a.len() + i] == b[i]);
        }
    }
}

/// Each field from `k` on of a conforming record: name, presence and
/// conformance of the value.
proof fn lemma_conforms_members_at(
    nodes: Seq<MatrixDataNodeView>,
    params: MatrixSerializationParameter,
    members: Seq<MatrixMemberView>,
    fs: Seq<(Seq<char>, ValueView)>,
    k0: int,
    k: int,
)
    requires
        conforms_members(nodes, params, members, fs, k0),
        0 <= k0 <= k < fs.len(),
    ensures
        k < members.len(),
        fs[k].0 == members[k].member_name,
        has_node(nodes, members[k].member_ref),
        conforms(nodes, params, node_index(nodes, members[k].member_ref), fs[k].1),
    decreases k - k0,
{
    if k0 < k {
        lemma_conforms_members_at(nodes, params, members, fs, k0 + 1, k);
    }
}

/// Each element from `k` on of a conforming list conforms to the element
/// node.
proof fn lemma_conforms_list_at(
    nodes: Seq<MatrixDataNodeView>,
    params: MatrixSerializationParameter,
    j: int,
    es: Seq<ValueView>,
    k0: int,
    k: int,
)
    requires
        conforms_list(nodes, params, j, es, k0),
        0 <= k0 <= k < es.len(),
    ensures
        conforms(nodes, params, j, es[k]),
    decreases k - k0,
{
    if k0 < k {
        lemma_conforms_list_at(nodes, params, j, es, k0 + 1, k);
    }
}

/// With a sound and complete analysis, a node some value conforms to always
/// has a rank: the obstruction a missing rank would need cannot coexist
/// with a conforming value.
pub proof fn lemma_conforms_has_rank(
    nodes: Seq<MatrixDataNodeView>,
    ranks: Seq<Option<u128>>,
    params: MatrixSerializationParameter,
    idx: int,
    v: ValueView,
)
    requires
        ranks_wf(nodes, ranks),
        ranks_complete(nodes, ranks),
        conforms(nodes, params, idx, v),
    ensures
        has_rank(ranks, idx),
    decreases v, 1nat, 0nat,
{
    if !has_rank(ranks, idx) {
        assert(ranks[idx] is None);
        assert(rank_none_justified(nodes, ranks, idx));
        match nodes[idx].data_type {
            MatrixTypeView::Number { .. } => {
                assert(false);
            },
            MatrixTypeView::String { .. } => {
                assert(false);
            },
            MatrixTypeView::Unimplemented => {
                assert(false);
            },
            MatrixTypeView::Array { length, member } => {
                match v {
                    ValueView::List(es) => {
                        assert(has_node(nodes, member.member_ref));
                        match length {
                            StringArrayLength::FIXED(n) => {
                                assert(n > 0 && !has_rank(
                                    ranks,
                                    node_index(nodes, member.member_ref),
                                ));
                                assert(es.len() == n);
                                lemma_conforms_list_at(
                                    nodes,
                                    params,
                                    node_index(nodes, member.member_ref),
                                    es,
                                    0,
                                    0,
                                );
                                lemma_conforms_has_rank(
                                    nodes,
                                    ranks,
                                    params,
                                    node_index(nodes, member.member_ref),
                                    es[0],
                                );
                                assert(false);
                            },
                            StringArrayLength::DYNAMIC(_, _) => {
                                assert(false);
                            },
                        }
                    },
                    _ => {
                        assert(false);
                    },
                }
            },
            MatrixTypeView::Struct { members } => {
                match v {
                    ValueView::Record(fs) => {
                        let k = choose|k: int|
                            0 <= k < members.len() && (!has_node(
                                nodes,
                                (#[trigger] members[k]).member_ref,
                            ) || !has_rank(ranks, node_index(nodes, members[k].member_ref)));
                        assert(fs.len() == members.len());
                        lemma_conforms_members_at(nodes, params, members, fs, 0, k);
                        lemma_conforms_has_rank(
                            nodes,
                            ranks,
                            params,
                            node_index(nodes, members[k].member_ref),
                            fs[k].1,
                        );
                        assert(false);
                    },
                    _ => {
                        assert(false);
                    },
                }
            },
        }
    }
}

/// No dynamic-length array anywhere inside `v` holds an element whose
/// encoding is empty. A zero-byte element (an empty fixed array, or an
/// empty struct when structs carry no length field) inside a dynamic array
/// cannot be recovered from the byte count, so the round-trip law excludes
/// such values.
pub open spec fn no_empty_dynamic_elements(
    nodes: Seq<MatrixDataNodeView>,
    params: MatrixSerializationParameter,
    idx: int,
    v: ValueView,
) -> bool
    decreases v, 1nat, 0nat,
{
    0 <= idx < nodes.len() ==> match nodes[idx].data_type {
        MatrixTypeView::Number { .. } => true,
        MatrixTypeView::String { .. } => true,
        MatrixTypeView::Unimplemented => true,
        MatrixTypeView::Array { length, member } => match v {
            ValueView::List(es) => {
                has_node(nodes, member.member_ref) ==> {
                    let j = node_index(nodes, member.member_ref);
                    &&& no_empty_dynamic_elements_list(nodes, params, j, es, 0)
                    &&& (length is DYNAMIC ==> forall|i: int|
                        0 <= i < es.len() ==> spec_encode(
                            nodes,
                            params,
                            j,
                            #[trigger] es[i],
                        ).len() > 0)
                }
            },
            _ => true,
        },
        MatrixTypeView::Struct { members } => match v {
            ValueView::Record(fs) => no_empty_dynamic_elements_fields(
                nodes,
                params,
                members,
                fs,
                0,
            ),
            _ => true,
        },
    }
}

pub open spec fn no_empty_dynamic_elements_list(
    nodes: Seq<MatrixDataNodeView>,
    params: MatrixSerializationParameter,
    j: int,
    es: Seq<ValueView>,
    k: int,
) -> bool
    decreases es, 0nat, es.len() - k,
{
    if k < 0 || k >= es.len() {
        true
    } else {
        no_empty_dynamic_elements(nodes, params, j, es[k]) && no_empty_dynamic_elements_list(
            nodes,
            params,
            j,
            es,
            k + 1,
        )
    }
}

pub open spec fn no_empty_dynamic_elements_fields(
    nodes: Seq<MatrixDataNodeView>,
    params: MatrixSerializationParameter,
    members: Seq<MatrixMemberView>,
    fs: Seq<(Seq<char>, ValueView)>,
    k: int,
) -> bool
    decreases fs, 0nat, fs.len() - k,
{
    if k < 0 || k >= fs.len() {
        true
    } else {
        (k < members.len() && has_node(nodes, members[k].member_ref)
            ==> no_empty_dynamic_elements(
            nodes,
            params,
            node_index(nodes, members[k].member_ref),
            fs[k].1,
        )) && no_empty_dynamic_elements_fields(nodes, params, members, fs, k + 1)
    }
}

proof fn lemma_no_empty_list_at(
    nodes: Seq<MatrixDataNodeView>,
    params: MatrixSerializationParameter,
    j: int,
    es: Seq<ValueView>,
    k0: int,
    k: int,
)
    requires
        no_empty_dynamic_elements_list(nodes, params, j, es, k0),
        0 <= k0 <= k < es.len(),
    ensures
        no_empty_dynamic_elements(nodes, params, j, es[k]),
    decreases k - k0,
{
    if k0 < k {
        lemma_no_empty_list_at(nodes, params, j, es, k0 + 1, k);
    }
}

proof fn lemma_no_empty_fields_at(
    nodes: Seq<MatrixDataNodeView>,
    params: MatrixSerializationParameter,
    members: Seq<MatrixMemberView>,
    fs: Seq<(Seq<char>, ValueView)>,
    k0: int,
    k: int,
)
    requires
        no_empty_dynamic_elements_fields(nodes, params, members, fs, k0),
        0 <= k0 <= k < fs.len(),
    ensures
        k < members.len() && has_node(nodes, members[k].member_ref)
            ==> no_empty_dynamic_elements(
            nodes,
            params,
            node_index(nodes, members[k].member_ref),
            fs[k].1,
        ),
    decreases k - k0,
{
    if k0 < k {
        lemma_no_empty_fields_at(nodes, params, members, fs, k0 + 1, k);
    }
}


/// Round trip: decoding an encoded conforming value from anywhere inside a
/// larger buffer yields the value back and stops exactly after its bytes.
/// Excluded, and excluded only, are values holding a dynamic-length array
/// with zero-byte elements, which no byte count can delimit.
#[verifier::rlimit(100)]
pub proof fn lemma_round_trip_at(
    nodes: Seq<MatrixDataNodeView>,
    ranks: Seq<Option<u128>>,
    params: MatrixSerializationParameter,
    idx: int,
    v: ValueView,
    bytes: Seq<u8>,
    pos: int,
)
    requires
        ranks_wf(nodes, ranks),
        ranks_complete(nodes, ranks),
        conforms(nodes, params, idx, v),
        no_empty_dynamic_elements(nodes, params, idx, v),
        0 <= pos,
        pos + spec_encode(nodes, params, idx, v).len() <= bytes.len(),
        bytes.subrange(pos, pos + spec_encode(nodes, params, idx, v).len() as int) == spec_encode(
            nodes,
            params,
            idx,
            v,
        ),
    ensures
        spec_decode(nodes, ranks, params, idx, bytes, pos) == Ok::<(ValueView, int), CodecError>(
            (v, pos + spec_encode(nodes, params, idx, v).len() as int),
        ),
    decreases v, 1nat, 0nat,
{
    lemma_conforms_has_rank(nodes, ranks, params, idx, v);
    let enc = spec_encode(nodes, params, idx, v);
    crate::wire::lemma_pow256_values();
    match nodes[idx].data_type {
        MatrixTypeView::Unimplemented => {},
        MatrixTypeView::Number { size } => {
            match v {
                ValueView::Number(x) => {
                    let w = size.spec_width();
                    crate::wire::lemma_be_bytes_len(x as nat, w);
                    crate::wire::lemma_be_roundtrip(x as nat, w);
                    assert(be_val(bytes.subrange(pos, pos + w)) == x as nat);
                },
                _ => {},
            }
        },
        MatrixTypeView::String { length, encoding } => {
            match v {
                ValueView::Text(t) => {
                    let bl = bom_len(encoding) as int;
                    let tl = term_len(encoding) as int;
                    let body = spec_string_body(encoding, t);
                    assert(body.len() == bl + t.len() + tl);
                    match length {
                        StringArrayLength::FIXED(n) => {
                            let nn = n as int;
                            assert(enc == body);
                            assert(nn == body.len());
                            lemma_string_region_round_trip(bytes, pos, encoding, t);
                            assert(spec_decode_string_region(bytes, pos, nn, encoding) == Ok::<
                                (ValueView, int),
                                CodecError,
                            >((ValueView::Text(t), pos + nn)));
                        },
                        StringArrayLength::DYNAMIC(_, _) => {
                            let w = params.string_length_field_size.spec_width();
                            let prefix = be_bytes((bl + t.len() + tl) as nat, w);
                            crate::wire::lemma_be_bytes_len((bl + t.len() + tl) as nat, w);
                            assert(enc == prefix + body);
                            lemma_subrange_concat(bytes, pos, prefix, body);
                            crate::wire::lemma_be_roundtrip((bl + t.len() + tl) as nat, w);
                            assert(be_val(bytes.subrange(pos, pos + w)) == (bl + t.len()
                                + tl) as nat);
                            lemma_string_region_round_trip(bytes, pos + w, encoding, t);
                        },
                    }
                },
                _ => {},
            }
        },
        MatrixTypeView::Array { length, member } => {
            match v {
                ValueView::List(es) => {
                    let j = node_index(nodes, member.member_ref);
                    let body = spec_encode_list(nodes, params, j, es, 0);
                    match length {
                        StringArrayLength::FIXED(n) => {
                            assert(enc == body);
                            if es.len() > 0 {
                                assert(rank_ok_at(nodes, ranks, idx));
                                assert(rankv(ranks, j) < rankv(ranks, idx));
                            }
                            lemma_round_trip_list(
                                nodes,
                                ranks,
                                params,
                                j,
                                idx,
                                es,
                                0,
                                bytes,
                                pos,
                            );
                            assert(es.skip(0) =~= es);
                        },
                        StringArrayLength::DYNAMIC(_, _) => {
                            let w = params.array_length_field_size.spec_width();
                            let prefix = be_bytes(body.len(), w);
                            crate::wire::lemma_be_bytes_len(body.len(), w);
                            assert(enc == prefix + body);
                            lemma_subrange_concat(bytes, pos, prefix, body);
                            crate::wire::lemma_be_roundtrip(body.len(), w);
                            assert(be_val(bytes.subrange(pos, pos + w)) == body.len());
                            lemma_round_trip_elems_dyn(
                                nodes,
                                ranks,
                                params,
                                j,
                                es,
                                0,
                                bytes,
                                pos + w,
                            );
                            assert(es.skip(0) =~= es);
                        },
                    }
                },
                _ => {},
            }
        },
        MatrixTypeView::Struct { members } => {
            match v {
                ValueView::Record(fs) => {
                    let body = spec_encode_members(nodes, params, members, fs, 0);
                    if params.length_field_for_struct {
                        let w = params.struct_length_field_size.spec_width();
                        let prefix = be_bytes(body.len(), w);
                        crate::wire::lemma_be_bytes_len(body.len(), w);
                        assert(enc == prefix + body);
                        lemma_subrange_concat(bytes, pos, prefix, body);
                        crate::wire::lemma_be_roundtrip(body.len(), w);
                        assert(be_val(bytes.subrange(pos, pos + w)) == body.len());
                        lemma_round_trip_members(
                            nodes,
                            ranks,
                            params,
                            idx,
                            members,
                            fs,
                            0,
                            bytes,
                            pos + w,
                        );
                        assert(fs.skip(0) =~= fs);
                    } else {
                        assert(enc == body);
                        lemma_round_trip_members(
                            nodes,
                            ranks,
                            params,
                            idx,
                            members,
                            fs,
                            0,
                            bytes,
                            pos,
                        );
                        assert(fs.skip(0) =~= fs);
                    }
                },
                _ => {},
            }
        },
    }
}

/// A string region written by the encoder reads back as its content.
proof fn lemma_string_region_round_trip(
    bytes: Seq<u8>,
    pos: int,
    encoding: StringEncoding,
    t: Seq<u8>,
)
    requires
        0 <= pos,
        encoding is UTF8 || t.len() % 2 == 0,
        pos + spec_string_body(encoding, t).len() <= bytes.len(),
        bytes.subrange(pos, pos + spec_string_body(encoding, t).len() as int) == spec_string_body(
            encoding,
            t,
        ),
    ensures
        spec_decode_string_region(
            bytes,
            pos,
            spec_string_body(encoding, t).len() as int,
            encoding,
        ) == Ok::<(ValueView, int), CodecError>(
            (ValueView::Text(t), pos + spec_string_body(encoding, t).len() as int),
        ),
{
    let body = spec_string_body(encoding, t);
    let bl = bom_len(encoding) as int;
    let tl = term_len(encoding) as int;
    let n = body.len() as int;
    assert(n == bl + t.len() + tl);
    let eff = if encoding is UTF8 {
        n
    } else {
        n - (n % 2)
    };
    assert(eff == n);
    assert(bytes.subrange(pos, pos + bl) =~= bom_bytes(encoding)) by {
        assert(forall|i: int|
            0 <= i < bl ==> bytes.subrange(pos, pos + bl)[i] == body[i] && body[i] == bom_bytes(
                encoding,
            )[i]);
    }
    assert(bytes.subrange(pos + eff - tl, pos + eff) =~= zero_bytes(tl as nat)) by {
        assert forall|i: int| 0 <= i < tl implies (#[trigger] bytes.subrange(
            pos + eff - tl,
            pos + eff,
        )[i]) == zero_bytes(tl as nat)[i] by {
            assert(bytes.subrange(pos + eff - tl, pos + eff)[i] == bytes[pos + eff - tl + i]);
            assert(bytes[pos + eff - tl + i] == body[eff - tl + i]);
            assert(body[eff - tl + i] == zero_bytes(tl as nat)[i]);
        }
    }
    assert(bytes.subrange(pos + bl, pos + eff - tl) =~= t) by {
        assert(forall|i: int|
            0 <= i < t.len() ==> bytes.subrange(pos + bl, pos + eff - tl)[i] == body[bl + i]
                && body[bl + i] == t[i]);
    }
}

/// Round trip of the elements of a fixed-length array from `k` on.
proof fn lemma_round_trip_list(
    nodes: Seq<MatrixDataNodeView>,
    ranks: Seq<Option<u128>>,
    params: MatrixSerializationParameter,
    j: int,
    pidx: int,
    es: Seq<ValueView>,
    k: int,
    bytes: Seq<u8>,
    pos: int,
)
    requires
        ranks_wf(nodes, ranks),
        ranks_complete(nodes, ranks),
        conforms_list(nodes, params, j, es, k),
        no_empty_dynamic_elements_list(nodes, params, j, es, k),
        0 <= k <= es.len(),
        k < es.len() ==> rankv(ranks, j) < rankv(ranks, pidx),
        0 <= pos,
        pos + spec_encode_list(nodes, params, j, es, k).len() <= bytes.len(),
        bytes.subrange(pos, pos + spec_encode_list(nodes, params, j, es, k).len() as int)
            == spec_encode_list(nodes, params, j, es, k),
    ensures
        spec_decode_elems_fixed(nodes, ranks, params, j, pidx, es.len() - k, bytes, pos) == Ok::<
            (Seq<ValueView>, int),
            CodecError,
        >((es.skip(k), pos + spec_encode_list(nodes, params, j, es, k).len() as int)),
    decreases es, 0nat, es.len() - k,
{
    if k == es.len() {
        assert(es.skip(k) =~= Seq::<ValueView>::empty());
    } else {
        let head = spec_encode(nodes, params, j, es[k]);
        let rest = spec_encode_list(nodes, params, j, es, k + 1);
        assert(spec_encode_list(nodes, params, j, es, k) == head + rest);
        lemma_subrange_concat(bytes, pos, head, rest);
        lemma_round_trip_at(nodes, ranks, params, j, es[k], bytes, pos);
        lemma_round_trip_list(nodes, ranks, params, j, pidx, es, k + 1, bytes, pos + head.len());
        assert(seq![es[k]] + es.skip(k + 1) =~= es.skip(k));
        assert(es.len() - k - 1 == es.len() - (k + 1));
    }
}

/// Round trip of the elements of a dynamic-length array from `k` on: the
/// decoder consumes exactly the encoded bytes and recovers the elements.
proof fn lemma_round_trip_elems_dyn(
    nodes: Seq<MatrixDataNodeView>,
    ranks: Seq<Option<u128>>,
    params: MatrixSerializationParameter,
    j: int,
    es: Seq<ValueView>,
    k: int,
    bytes: Seq<u8>,
    pos: int,
)
    requires
        ranks_wf(nodes, ranks),
        ranks_complete(nodes, ranks),
        conforms_list(nodes, params, j, es, k),
        no_empty_dynamic_elements_list(nodes, params, j, es, k),
        forall|i: int|
            0 <= i < es.len() ==> spec_encode(nodes, params, j, #[trigger] es[i]).len() > 0,
        0 <= k <= es.len(),
        0 <= pos,
        pos + spec_encode_list(nodes, params, j, es, k).len() <= bytes.len(),
        bytes.subrange(pos, pos + spec_encode_list(nodes, params, j, es, k).len() as int)
            == spec_encode_list(nodes, params, j, es, k),
    ensures
        spec_decode_elems_dyn(
            nodes,
            ranks,
            params,
            j,
            bytes,
            pos,
            pos + spec_encode_list(nodes, params, j, es, k).len() as int,
        ) == Ok::<Seq<ValueView>, CodecError>(es.skip(k)),
    decreases es, 0nat, es.len() - k,
{
    let enc = spec_encode_list(nodes, params, j, es, k);
    if k == es.len() {
        assert(enc.len() == 0);
        assert(es.skip(k) =~= Seq::<ValueView>::empty());
    } else {
        let head = spec_encode(nodes, params, j, es[k]);
        let rest = spec_encode_list(nodes, params, j, es, k + 1);
        assert(enc == head + rest);
        lemma_subrange_concat(bytes, pos, head, rest);
        lemma_round_trip_at(nodes, ranks, params, j, es[k], bytes, pos);
        assert(head.len() > 0);
        lemma_round_trip_elems_dyn(nodes, ranks, params, j, es, k + 1, bytes, pos + head.len());
        assert(seq![es[k]] + es.skip(k + 1) =~= es.skip(k));
    }
}

/// Round trip of a struct's members from `k` on.
proof fn lemma_round_trip_members(
    nodes: Seq<MatrixDataNodeView>,
    ranks: Seq<Option<u128>>,
    params: MatrixSerializationParameter,
    sidx: int,
    members: Seq<MatrixMemberView>,
    fs: Seq<(Seq<char>, ValueView)>,
    k: int,
    bytes: Seq<u8>,
    pos: int,
)
    requires
        ranks_wf(nodes, ranks),
        ranks_complete(nodes, ranks),
        0 <= sidx < nodes.len(),
        has_rank(ranks, sidx),
        nodes[sidx].data_type == (MatrixTypeView::Struct { members }),
        conforms_members(nodes, params, members, fs, k),
        no_empty_dynamic_elements_fields(nodes, params, members, fs, k),
        fs.len() == members.len(),
        0 <= k <= fs.len(),
        0 <= pos,
        pos + spec_encode_members(nodes, params, members, fs, k).len() <= bytes.len(),
        bytes.subrange(pos, pos + spec_encode_members(nodes, params, members, fs, k).len() as int)
            == spec_encode_members(nodes, params, members, fs, k),
    ensures
        spec_decode_members(nodes, ranks, params, sidx, members, k, bytes, pos) == Ok::<
            (Seq<(Seq<char>, ValueView)>, int),
            CodecError,
        >((fs.skip(k), pos + spec_encode_members(nodes, params, members, fs, k).len() as int)),
    decreases fs, 0nat, fs.len() - k,
{
    if k == fs.len() {
        assert(fs.skip(k) =~= Seq::<(Seq<char>, ValueView)>::empty());
    } else {
        let j = node_index(nodes, members[k].member_ref);
        let head = spec_encode(nodes, params, j, fs[k].1);
        let rest = spec_encode_members(nodes, params, members, fs, k + 1);
        assert(spec_encode_members(nodes, params, members, fs, k) == head + rest);
        lemma_subrange_concat(bytes, pos, head, rest);
        assert(rank_ok_at(nodes, ranks, sidx));
        proof_rank_for_member(nodes, ranks, sidx, members, k);
        lemma_round_trip_at(nodes, ranks, params, j, fs[k].1, bytes, pos);
        lemma_round_trip_members(
            nodes,
            ranks,
            params,
            sidx,
            members,
            fs,
            k + 1,
            bytes,
            pos + head.len(),
        );
        assert(seq![(members[k].member_name, fs[k].1)] + fs.skip(k + 1) =~= fs.skip(k)) by {
            assert(fs[k].0 == members[k].member_name);
            assert(fs.skip(k)[0] == fs[k]);
            assert((members[k].member_name, fs[k].1) == fs[k]);
        }
    }
}

/// Round trip at the payload level: encoding a conforming value and
/// decoding the result against the same node yields the value back.
pub proof fn lemma_round_trip(
    nodes: Seq<MatrixDataNodeView>,
    ranks: Seq<Option<u128>>,
    params: MatrixSerializationParameter,
    name: Seq<char>,
    v: ValueView,
)
    requires
        ranks_wf(nodes, ranks),
        ranks_complete(nodes, ranks),
        has_node(nodes, name),
        conforms(nodes, params, node_index(nodes, name), v),
        no_empty_dynamic_elements(nodes, params, node_index(nodes, name), v),
    ensures
        spec_decode_payload(
            nodes,
            ranks,
            params,
            name,
            spec_encode(nodes, params, node_index(nodes, name), v),
        ) == Ok::<ValueView, CodecError>(v),
{
    let idx = node_index(nodes, name);
    let enc = spec_encode(nodes, params, idx, v);
    lemma_encode_at_least_min(nodes, ranks, params, idx, v);
    assert(enc.subrange(0, enc.len() as int) =~= enc);
    lemma_round_trip_at(nodes, ranks, params, idx, v, enc, 0);
}


/// Instantiates the struct case of `rank_ok_at` for one member.
proof fn proof_rank_for_member(
    nodes: Seq<MatrixDataNodeView>,
    ranks: Seq<Option<u128>>,
    sidx: int,
    members: Seq<MatrixMemberView>,
    k: int,
)
    requires
        0 <= sidx < nodes.len(),
        nodes[sidx].data_type == (MatrixTypeView::Struct { members }),
        rank_ok_at(nodes, ranks, sidx),
        0 <= k < members.len(),
    ensures
        has_node(nodes, members[k].member_ref),
        has_rank(ranks, node_index(nodes, members[k].member_ref)),
        rankv(ranks, node_index(nodes, members[k].member_ref)) < rankv(ranks, sidx),
{
    match nodes[sidx].data_type {
        MatrixTypeView::Struct { members: ms } => {
            assert(ms == members);
            assert(has_node(nodes, (ms[k]).member_ref) && has_rank(
                ranks,
                node_index(nodes, ms[k].member_ref),
            ) && rankv(ranks, node_index(nodes, ms[k].member_ref)) < rankv(ranks, sidx));
        },
        _ => {
            assert(false);
        },
    }
}


/// Cycle rejection: a struct with a member that names the struct itself
/// never gets a rank, so decoding it answers `UnboundedType` -- it can
/// neither loop nor overflow, whatever the payload bytes hold.
pub proof fn lemma_cycle_rejected(
    nodes: Seq<MatrixDataNodeView>,
    ranks: Seq<Option<u128>>,
    params: MatrixSerializationParameter,
    idx: int,
    k: int,
    bytes: Seq<u8>,
    pos: int,
)
    requires
        ranks_wf(nodes, ranks),
        forall|i: int, j: int| 0 <= i < j < nodes.len() ==> nodes[i].name != nodes[j].name,
        0 <= idx < nodes.len(),
        nodes[idx].data_type matches MatrixTypeView::Struct { members } && 0 <= k < members.len()
            && members[k].member_ref == nodes[idx].name,
        0 <= pos <= bytes.len(),
    ensures
        !has_rank(ranks, idx),
        spec_decode(nodes, ranks, params, idx, bytes, pos) == Err::<(ValueView, int), CodecError>(
            CodecError::UnboundedType,
        ),
{
    assert(has_node(nodes, nodes[idx].name));
    let j = node_index(nodes, nodes[idx].name);
    assert(0 <= j < nodes.len() && nodes[j].name == nodes[idx].name);
    if j != idx {
        if j < idx {
            assert(nodes[j].name != nodes[idx].name);
        } else {
            assert(nodes[idx].name != nodes[j].name);
        }
    }
    assert(j == idx);
    if has_rank(ranks, idx) {
        assert(rank_ok_at(nodes, ranks, idx));
        match nodes[idx].data_type {
            MatrixTypeView::Struct { members } => {
                assert(has_node(nodes, (members[k]).member_ref) && rankv(
                    ranks,
                    node_index(nodes, members[k].member_ref),
                ) < rankv(ranks, idx));
                assert(node_index(nodes, members[k].member_ref) == idx);
                assert(false);
            },
            _ => {
                assert(false);
            },
        }
    }
}


/// Fewest bytes any value of the node can occupy on the wire: numbers and
/// fixed strings their size, dynamic strings and arrays their length
/// field, structs the sum over members (plus their length field). Static
/// recursion is guarded by the rank drop, exactly as decoding is.
pub open spec fn spec_min_len(
    nodes: Seq<MatrixDataNodeView>,
    ranks: Seq<Option<u128>>,
    params: MatrixSerializationParameter,
    idx: int,
) -> int
    decreases rankv(ranks, idx), 1nat, 0nat,
{
    if !(0 <= idx < nodes.len()) || !has_rank(ranks, idx) {
        0
    } else {
        match nodes[idx].data_type {
            MatrixTypeView::Unimplemented => 0,
            MatrixTypeView::Number { size } => size.spec_width() as int,
            MatrixTypeView::String { length, .. } => match length {
                StringArrayLength::FIXED(n) => n as int,
                StringArrayLength::DYNAMIC(_, _) => params.string_length_field_size.spec_width()
                    as int,
            },
            MatrixTypeView::Array { length, member } => match length {
                StringArrayLength::FIXED(n) => {
                    if n > 0 && has_node(nodes, member.member_ref) && rankv(
                        ranks,
                        node_index(nodes, member.member_ref),
                    ) < rankv(ranks, idx) {
                        (n as int) * spec_min_len(
                            nodes,
                            ranks,
                            params,
                            node_index(nodes, member.member_ref),
                        )
                    } else {
                        0
                    }
                },
                StringArrayLength::DYNAMIC(_, _) => params.array_length_field_size.spec_width()
                    as int,
            },
            MatrixTypeView::Struct { members } => (if params.length_field_for_struct {
                params.struct_length_field_size.spec_width() as int
            } else {
                0
            }) + spec_min_members(nodes, ranks, params, idx, members, 0),
        }
    }
}

/// Sum of the members' minimum lengths from `k` on.
pub open spec fn spec_min_members(
    nodes: Seq<MatrixDataNodeView>,
    ranks: Seq<Option<u128>>,
    params: MatrixSerializationParameter,
    sidx: int,
    members: Seq<MatrixMemberView>,
    k: int,
) -> int
    decreases rankv(ranks, sidx), 0nat, members.len() - k,
{
    if k < 0 || k >= members.len() {
        0
    } else {
        let head = if has_node(nodes, members[k].member_ref) && rankv(
            ranks,
            node_index(nodes, members[k].member_ref),
        ) < rankv(ranks, sidx) {
            spec_min_len(nodes, ranks, params, node_index(nodes, members[k].member_ref))
        } else {
            0
        };
        head + spec_min_members(nodes, ranks, params, sidx, members, k + 1)
    }
}

proof fn lemma_min_len_nonneg(
    nodes: Seq<MatrixDataNodeView>,
    ranks: Seq<Option<u128>>,
    params: MatrixSerializationParameter,
    idx: int,
)
    ensures
        spec_min_len(nodes, ranks, params, idx) >= 0,
    decreases rankv(ranks, idx), 1nat, 0nat,
{
    if 0 <= idx < nodes.len() && has_rank(ranks, idx) {
        match nodes[idx].data_type {
            MatrixTypeView::Array { length, member } => match length {
                StringArrayLength::FIXED(n) => {
                    if n > 0 && has_node(nodes, member.member_ref) && rankv(
                        ranks,
                        node_index(nodes, member.member_ref),
                    ) < rankv(ranks, idx) {
                        let j = node_index(nodes, member.member_ref);
                        lemma_min_len_nonneg(nodes, ranks, params, j);
                        assert((n as int) * spec_min_len(nodes, ranks, params, j) >= 0)
                            by (nonlinear_arith)
                            requires
                                n > 0,
                                spec_min_len(nodes, ranks, params, j) >= 0,
                        ;
                    }
                },
                _ => {},
            },
            MatrixTypeView::Struct { members } => {
                lemma_min_members_nonneg(nodes, ranks, params, idx, members, 0);
            },
            _ => {},
        }
    }
}

proof fn lemma_min_members_nonneg(
    nodes: Seq<MatrixDataNodeView>,
    ranks: Seq<Option<u128>>,
    params: MatrixSerializationParameter,
    sidx: int,
    members: Seq<MatrixMemberView>,
    k: int,
)
    ensures
        spec_min_members(nodes, ranks, params, sidx, members, k) >= 0,
    decreases rankv(ranks, sidx), 0nat, members.len() - k,
{
    if 0 <= k < members.len() {
        if has_node(nodes, members[k].member_ref) && rankv(
            ranks,
            node_index(nodes, members[k].member_ref),
        ) < rankv(ranks, sidx) {
            lemma_min_len_nonneg(
                nodes,
                ranks,
                params,
                node_index(nodes, members[k].member_ref),
            );
        }
        lemma_min_members_nonneg(nodes, ranks, params, sidx, members, k + 1);
    }
}

/// A conforming value never encodes below the node's minimum length.
proof fn lemma_encode_at_least_min(
    nodes: Seq<MatrixDataNodeView>,
    ranks: Seq<Option<u128>>,
    params: MatrixSerializationParameter,
    idx: int,
    v: ValueView,
)
    requires
        ranks_wf(nodes, ranks),
        conforms(nodes, params, idx, v),
    ensures
        spec_encode(nodes, params, idx, v).len() >= spec_min_len(nodes, ranks, params, idx),
    decreases v, 1nat, 0nat,
{
    if !has_rank(ranks, idx) {
    } else {
        match nodes[idx].data_type {
            MatrixTypeView::Unimplemented => {},
            MatrixTypeView::Number { size } => {
                match v {
                    ValueView::Number(x) => {
                        crate::wire::lemma_be_bytes_len(x as nat, size.spec_width());
                    },
                    _ => {},
                }
            },
            MatrixTypeView::String { length, encoding } => {
                match v {
                    ValueView::Text(t) => {
                        match length {
                            StringArrayLength::FIXED(_) => {},
                            StringArrayLength::DYNAMIC(_, _) => {
                                crate::wire::lemma_be_bytes_len(
                                    bom_len(encoding) + t.len() + term_len(encoding),
                                    params.string_length_field_size.spec_width(),
                                );
                            },
                        }
                    },
                    _ => {},
                }
            },
            MatrixTypeView::Array { length, member } => {
                match v {
                    ValueView::List(es) => {
                        let j = node_index(nodes, member.member_ref);
                        match length {
                            StringArrayLength::FIXED(n) => {
                                if n > 0 && rankv(ranks, j) < rankv(ranks, idx) {
                                    lemma_min_len_nonneg(nodes, ranks, params, j);
                                    lemma_encode_list_at_least(
                                        nodes,
                                        ranks,
                                        params,
                                        j,
                                        es,
                                        0,
                                    );
                                    assert(es.len() == n);
                                    assert(spec_encode_list(nodes, params, j, es, 0).len() >= (
                                    es.len() - 0) * spec_min_len(nodes, ranks, params, j));
                                }
                            },
                            StringArrayLength::DYNAMIC(_, _) => {
                                let body = spec_encode_list(nodes, params, j, es, 0);
                                crate::wire::lemma_be_bytes_len(
                                    body.len(),
                                    params.array_length_field_size.spec_width(),
                                );
                            },
                        }
                    },
                    _ => {},
                }
            },
            MatrixTypeView::Struct { members } => {
                match v {
                    ValueView::Record(fs) => {
                        let body = spec_encode_members(nodes, params, members, fs, 0);
                        lemma_encode_members_at_least(nodes, ranks, params, idx, members, fs, 0);
                        if params.length_field_for_struct {
                            crate::wire::lemma_be_bytes_len(
                                body.len(),
                                params.struct_length_field_size.spec_width(),
                            );
                        }
                    },
                    _ => {},
                }
            },
        }
    }
}

/// Elements from `k` on encode to at least `count * min` bytes.
proof fn lemma_encode_list_at_least(
    nodes: Seq<MatrixDataNodeView>,
    ranks: Seq<Option<u128>>,
    params: MatrixSerializationParameter,
    j: int,
    es: Seq<ValueView>,
    k: int,
)
    requires
        ranks_wf(nodes, ranks),
        conforms_list(nodes, params, j, es, k),
        0 <= k <= es.len(),
    ensures
        spec_encode_list(nodes, params, j, es, k).len() >= (es.len() - k) * spec_min_len(
            nodes,
            ranks,
            params,
            j,
        ),
    decreases es, 0nat, es.len() - k,
{
    let m = spec_min_len(nodes, ranks, params, j);
    lemma_min_len_nonneg(nodes, ranks, params, j);
    if k == es.len() {
        assert((es.len() - k) * m == 0) by (nonlinear_arith)
            requires
                es.len() - k == 0,
        ;
    } else {
        lemma_encode_at_least_min(nodes, ranks, params, j, es[k]);
        lemma_encode_list_at_least(nodes, ranks, params, j, es, k + 1);
        assert(spec_encode(nodes, params, j, es[k]).len() + spec_encode_list(
            nodes,
            params,
            j,
            es,
            k + 1,
        ).len() >= (es.len() - k) * m) by (nonlinear_arith)
            requires
                spec_encode(nodes, params, j, es[k]).len() >= m,
                spec_encode_list(nodes, params, j, es, k + 1).len() >= (es.len() - k - 1) * m,
                m >= 0,
                es.len() - k >= 1,
        ;
    }
}

/// Fields from `k` on encode to at least the members' summed minimum.
proof fn lemma_encode_members_at_least(
    nodes: Seq<MatrixDataNodeView>,
    ranks: Seq<Option<u128>>,
    params: MatrixSerializationParameter,
    sidx: int,
    members: Seq<MatrixMemberView>,
    fs: Seq<(Seq<char>, ValueView)>,
    k: int,
)
    requires
        ranks_wf(nodes, ranks),
        conforms_members(nodes, params, members, fs, k),
        fs.len() == members.len(),
        0 <= k <= fs.len(),
    ensures
        spec_encode_members(nodes, params, members, fs, k).len() >= spec_min_members(
            nodes,
            ranks,
            params,
            sidx,
            members,
            k,
        ),
    decreases fs, 0nat, fs.len() - k,
{
    if k < fs.len() {
        let j = node_index(nodes, members[k].member_ref);
        lemma_encode_at_least_min(nodes, ranks, params, j, fs[k].1);
        lemma_encode_members_at_least(nodes, ranks, params, sidx, members, fs, k + 1);
        lemma_min_len_nonneg(nodes, ranks, params, j);
    }
}


/// Saturation bound of the computed minimum: above any byte count a
/// payload can have.
pub open spec fn min_cap() -> int {
    0x1_0000_0000_0000_0000
}

/// The node's minimum wire length, saturated at `min_cap`.
fn min_len_at(
    m: &Matrix,
    a: &CodecAnalysis,
    params: &MatrixSerializationParameter,
    idx: usize,
) -> (r: u128)
    requires
        m@.data_type_names_unique(),
    ensures
        r as int == (if spec_min_len(m@.data_types, a@, *params, idx as int) <= min_cap() {
            spec_min_len(m@.data_types, a@, *params, idx as int)
        } else {
            min_cap()
        }),
    decreases rankv(a@, idx as int), 1nat, 0nat,
{
    proof {
        lemma_min_len_nonneg(m@.data_types, a@, *params, idx as int);
    }
    if idx >= m.data_types.len() || !has_rank_at(a, idx) {
        return 0;
    }
    proof {
        assert(m@.data_types[idx as int] == m.data_types@[idx as int]@);
    }
    let node = &m.data_types[idx];
    match &node.data_type {
        MatrixType::Unimplemented => 0,
        MatrixType::Number { size } => size.width() as u128,
        MatrixType::String { length, .. } => match length {
            StringArrayLength::FIXED(n) => {
                let v = *n as u128;
                if v > 0x1_0000_0000_0000_0000 {
                    0x1_0000_0000_0000_0000
                } else {
                    v
                }
            },
            StringArrayLength::DYNAMIC(_, _) => params.string_length_field_size.width() as u128,
        },
        MatrixType::Array { length, member } => match length {
            StringArrayLength::FIXED(n) => {
                if *n == 0 {
                    return 0;
                }
                match m.find_node_index(&member.member_ref) {
                    None => 0,
                    Some(j) => {
                        if rank_at(a, j) < rank_at(a, idx) {
                            let e = min_len_at(m, a, params, j);
                            proof {
                                lemma_min_len_nonneg(m@.data_types, a@, *params, j as int);
                                assert((*n as int) * spec_min_len(
                                    m@.data_types,
                                    a@,
                                    *params,
                                    j as int,
                                ) >= spec_min_len(m@.data_types, a@, *params, j as int))
                                    by (nonlinear_arith)
                                    requires
                                        *n >= 1,
                                        spec_min_len(m@.data_types, a@, *params, j as int) >= 0,
                                ;
                            }
                            proof {
                                assert((*n as u128) * e <= 0xFFFF_FFFF_FFFF_FFFF_FFFF_FFFF_FFFF_FFFFu128)
                                    by (nonlinear_arith)
                                    requires
                                        e <= 0x1_0000_0000_0000_0000u128,
                                        (*n as u128) <= 0xFFFF_FFFF_FFFF_FFFFu128,
                                ;
                            }
                            let prod: u128 = (*n as u128) * e;
                            proof {
                                let sm = spec_min_len(m@.data_types, a@, *params, j as int);
                                if sm <= min_cap() {
                                    assert(prod as int == (*n as int) * sm) by (nonlinear_arith)
                                        requires
                                            e as int == sm,
                                            prod == (*n as u128) * e,
                                    ;
                                    if (*n as int) * sm > min_cap() {
                                        assert(prod as int > min_cap());
                                    }
                                } else {
                                    assert(e as int == min_cap());
                                    assert(prod as int >= min_cap()) by (nonlinear_arith)
                                        requires
                                            e as int == min_cap(),
                                            *n >= 1,
                                            prod == (*n as u128) * e,
                                    ;
                                    assert((*n as int) * sm >= sm) by (nonlinear_arith)
                                        requires
                                            *n >= 1,
                                            sm > min_cap(),
                                    ;
                                }
                            }
                            if prod > 0x1_0000_0000_0000_0000 {
                                0x1_0000_0000_0000_0000
                            } else {
                                prod
                            }
                        } else {
                            0
                        }
                    },
                }
            },
            StringArrayLength::DYNAMIC(_, _) => params.array_length_field_size.width() as u128,
        },
        MatrixType::Struct { members } => {
            let prefix: u128 = if params.length_field_for_struct {
                params.struct_length_field_size.width() as u128
            } else {
                0
            };
            let body = min_members_at(m, a, params, idx, members, 0);
            proof {
                lemma_min_members_nonneg(
                    m@.data_types,
                    a@,
                    *params,
                    idx as int,
                    members@.map_values(|mm: MatrixMember| mm@),
                    0,
                );
            }
            let total = prefix + body;
            if total > 0x1_0000_0000_0000_0000 {
                0x1_0000_0000_0000_0000
            } else {
                total
            }
        },
    }
}

/// Saturated sum of the members' minimum lengths from `k` on.
fn min_members_at(
    m: &Matrix,
    a: &CodecAnalysis,
    params: &MatrixSerializationParameter,
    sidx: usize,
    members: &Vec<MatrixMember>,
    k: usize,
) -> (r: u128)
    requires
        m@.data_type_names_unique(),
    ensures
        r as int == (if spec_min_members(
            m@.data_types,
            a@,
            *params,
            sidx as int,
            members@.map_values(|mm: MatrixMember| mm@),
            k as int,
        ) <= min_cap() {
            spec_min_members(
                m@.data_types,
                a@,
                *params,
                sidx as int,
                members@.map_values(|mm: MatrixMember| mm@),
                k as int,
            )
        } else {
            min_cap()
        }),
    decreases rankv(a@, sidx as int), 0nat, members@.len() - k,
{
    let ghost membersv = members@.map_values(|mm: MatrixMember| mm@);
    proof {
        lemma_min_members_nonneg(m@.data_types, a@, *params, sidx as int, membersv, k as int);
    }
    if k >= members.len() {
        return 0;
    }
    proof {
        assert(membersv[k as int] == members@[k as int]@);
    }
    let head: u128 = match m.find_node_index(&members[k].member_ref) {
        None => 0,
        Some(j) => {
            if rank_at(a, j) < rank_at(a, sidx) {
                min_len_at(m, a, params, j)
            } else {
                0
            }
        },
    };
    let rest = min_members_at(m, a, params, sidx, members, k + 1);
    proof {
        lemma_min_members_nonneg(
            m@.data_types,
            a@,
            *params,
            sidx as int,
            membersv,
            k as int + 1,
        );
        if has_node(m@.data_types, membersv[k as int].member_ref) {
            lemma_min_len_nonneg(
                m@.data_types,
                a@,
                *params,
                node_index(m@.data_types, membersv[k as int].member_ref),
            );
        }
    }
    let total = head + rest;
    if total > 0x1_0000_0000_0000_0000 {
        0x1_0000_0000_0000_0000
    } else {
        total
    }
}

/// Truncation law: a payload shorter than the type's minimum length is
/// answered with `TruncatedInput` -- and, the decoder being verified
/// panic-free and terminating, never with a crash or a hang.
pub proof fn lemma_truncation(
    nodes: Seq<MatrixDataNodeView>,
    ranks: Seq<Option<u128>>,
    params: MatrixSerializationParameter,
    name: Seq<char>,
    bytes: Seq<u8>,
)
    requires
        has_node(nodes, name),
        bytes.len() < spec_min_len(nodes, ranks, params, node_index(nodes, name)),
    ensures
        spec_decode_payload(nodes, ranks, params, name, bytes) == Err::<ValueView, CodecError>(
            CodecError::TruncatedInput,
        ),
{
}

} // verus!
