use vstd::prelude::*;
use vstd::slice::{slice_subrange, slice_to_vec};
use crate::error::CodecError;
use crate::ops::{ops_view, EditOp, EditOpView};
use crate::varint::{
    lemma_parse_varint_of_varint, lemma_varint_of_parse_varint, parse_word, read_varint, varint,
    write_varint,
};

verus! {

/// The tag byte that opens a copy record.
pub const TAG_COPY: u8 = 0;

/// The tag byte that opens an insert record.
pub const TAG_INSERT: u8 = 1;

impl EditOpView {
    /// The record of one operation: its tag, then for a copy the offset and
    /// the length as varints, for an insert the byte count as a varint and
    /// the bytes themselves.
    pub open spec fn record(self) -> Seq<u8> {
        match self {
            EditOpView::Copy { source_offset, length } => seq![TAG_COPY] + varint(source_offset)
                + varint(length),
            EditOpView::Insert { bytes } => seq![TAG_INSERT] + varint(bytes.len()) + bytes,
        }
    }

    /// Whether the operation's numbers fit the machine word.
    pub open spec fn fits(self) -> bool {
        match self {
            EditOpView::Copy { source_offset, length } => source_offset <= usize::MAX && length
                <= usize::MAX,
            EditOpView::Insert { bytes } => bytes.len() <= usize::MAX,
        }
    }
}

/// Whether every operation of `ops` can be held in memory.
pub open spec fn all_fit(ops: Seq<EditOpView>) -> bool {
    forall|i: int| 0 <= i < ops.len() ==> (#[trigger] ops[i]).fits()
}

/// The wire format of a patch: the records of its operations, one after
/// the other, with nothing before, between or after them.
pub open spec fn wire_format(ops: Seq<EditOpView>) -> Seq<u8>
    decreases ops.len(),
{
    if ops.len() == 0 {
        Seq::empty()
    } else {
        wire_format(ops.drop_last()) + ops.last().record()
    }
}

/// The operation whose record is at the front of `bytes`, with the record's
/// length, if there is one.
pub open spec fn parse_record(bytes: Seq<u8>) -> Option<(EditOpView, int)> {
    if bytes.len() == 0 {
        None
    } else if bytes[0] == TAG_COPY {
        match parse_word(bytes.skip(1)) {
            Some((source_offset, used)) => match parse_word(bytes.skip(1 + used)) {
                Some((length, more)) => Some(
                    (EditOpView::Copy { source_offset, length }, 1 + used + more),
                ),
                None => None,
            },
            None => None,
        }
    } else if bytes[0] == TAG_INSERT {
        match parse_word(bytes.skip(1)) {
            Some((count, used)) => if 1 + used + count <= bytes.len() {
                Some(
                    (
                        EditOpView::Insert { bytes: bytes.subrange(1 + used, 1 + used + count) },
                        1 + used + count,
                    ),
                )
            } else {
                None
            },
            None => None,
        }
    } else {
        None
    }
}

/// The operations whose records fill `bytes` exactly, if `bytes` is made of
/// records and nothing else.
pub open spec fn parse_records(bytes: Seq<u8>) -> Option<Seq<EditOpView>>
    decreases bytes.len(),
{
    if bytes.len() == 0 {
        Some(Seq::empty())
    } else {
        match parse_record(bytes) {
            Some((op, used)) => if 1 <= used <= bytes.len() {
                match parse_records(bytes.skip(used)) {
                    Some(rest) => Some(seq![op] + rest),
                    None => None,
                }
            } else {
                None
            },
            None => None,
        }
    }
}

/// The values of operations held in memory always fit the machine word.
pub proof fn lemma_ops_view_fits(ops: Seq<EditOp>)
    ensures
        all_fit(ops_view(ops)),
{
    assert forall|i: int| 0 <= i < ops.len() implies (#[trigger] ops_view(ops)[i]).fits() by {
        assert(ops_view(ops)[i] == ops[i]@);
        if let EditOp::Insert { bytes } = ops[i] {
            assert(bytes.len() == bytes@.len());
        }
    }
}

/// The wire format of two lists joined is the two wire formats joined.
pub proof fn lemma_wire_format_concat(a: Seq<EditOpView>, b: Seq<EditOpView>)
    ensures
        wire_format(a + b) == wire_format(a) + wire_format(b),
    decreases b.len(),
{
    if b.len() == 0 {
        assert(a + b =~= a);
        assert(wire_format(a) + wire_format(b) =~= wire_format(a));
    } else {
        lemma_wire_format_concat(a, b.drop_last());
        assert((a + b).drop_last() =~= a + b.drop_last());
        assert((a + b).last() == b.last());
        assert(wire_format(a) + wire_format(b.drop_last()) + b.last().record() =~= wire_format(a)
            + (wire_format(b.drop_last()) + b.last().record()));
    }
}

/// The wire format of a one-element list is that element's record.
pub proof fn lemma_wire_format_single(op: EditOpView)
    ensures
        wire_format(seq![op]) == op.record(),
{
    assert(seq![op].drop_last() =~= Seq::<EditOpView>::empty());
    assert(wire_format(seq![op].drop_last()) =~= Seq::<u8>::empty());
    assert(Seq::<u8>::empty() + op.record() =~= op.record());
}

/// A record is parsed back to its operation, whatever follows it.
pub proof fn lemma_parse_record_of_record(op: EditOpView, rest: Seq<u8>)
    requires
        op.fits(),
    ensures
        parse_record(op.record() + rest) == Some((op, op.record().len() as int)),
        op.record().len() >= 1,
{
    let bytes = op.record() + rest;
    match op {
        EditOpView::Copy { source_offset, length } => {
            let first = varint(source_offset);
            let second = varint(length);
            assert(bytes[0] == TAG_COPY);
            assert(bytes.skip(1) =~= first + (second + rest));
            lemma_parse_varint_of_varint(source_offset, second + rest);
            assert(bytes.skip(1 + first.len() as int) =~= second + rest);
            lemma_parse_varint_of_varint(length, rest);
        },
        EditOpView::Insert { bytes: literal } => {
            let count = varint(literal.len());
            assert(bytes[0] == TAG_INSERT);
            assert(bytes.skip(1) =~= count + (literal + rest));
            lemma_parse_varint_of_varint(literal.len(), literal + rest);
            assert(bytes.subrange(1 + count.len() as int, 1 + count.len() as int + literal.len())
                =~= literal);
        },
    }
}

/// Whatever parses as a record starts with the record of the operation found.
pub proof fn lemma_record_of_parse_record(bytes: Seq<u8>)
    ensures
        parse_record(bytes) matches Some((op, used)) ==> 1 <= used <= bytes.len() && op.fits()
            && bytes.take(used) == op.record(),
{
    if bytes.len() > 0 {
        let body = bytes.skip(1);
        lemma_varint_of_parse_varint(body);
        if bytes[0] == TAG_COPY {
            if let Some((source_offset, used)) = parse_word(body) {
                let tail = bytes.skip(1 + used);
                lemma_varint_of_parse_varint(tail);
                if let Some((length, more)) = parse_word(tail) {
                    assert(body.take(used) =~= bytes.subrange(1, 1 + used));
                    assert(tail.take(more) =~= bytes.subrange(1 + used, 1 + used + more));
                    assert(bytes.take(1 + used + more) =~= seq![TAG_COPY] + bytes.subrange(
                        1,
                        1 + used,
                    ) + bytes.subrange(1 + used, 1 + used + more));
                }
            }
        } else if bytes[0] == TAG_INSERT {
            if let Some((count, used)) = parse_word(body) {
                if 1 + used + count <= bytes.len() {
                    assert(body.take(used) =~= bytes.subrange(1, 1 + used));
                    assert(bytes.take(1 + used + count) =~= seq![TAG_INSERT] + bytes.subrange(
                        1,
                        1 + used,
                    ) + bytes.subrange(1 + used, 1 + used + count));
                }
            }
        }
    }
}

/// Parsing the wire format of a list gives the list back.
pub proof fn lemma_parse_of_wire_format(ops: Seq<EditOpView>)
    requires
        all_fit(ops),
    ensures
        parse_records(wire_format(ops)) == Some(ops),
    decreases ops.len(),
{
    if ops.len() == 0 {
        assert(wire_format(ops) =~= Seq::<u8>::empty());
        assert(ops =~= Seq::<EditOpView>::empty());
    } else {
        let first = ops[0];
        let rest = ops.skip(1);
        assert(ops =~= seq![first] + rest);
        lemma_wire_format_concat(seq![first], rest);
        lemma_wire_format_single(first);
        let bytes = wire_format(ops);
        assert(bytes == first.record() + wire_format(rest));
        assert(first.fits());
        assert(all_fit(rest)) by {
            assert forall|i: int| 0 <= i < rest.len() implies (#[trigger] rest[i]).fits() by {
                assert(rest[i] == ops[i + 1]);
            }
        }
        lemma_parse_record_of_record(first, wire_format(rest));
        assert(bytes.skip(first.record().len() as int) =~= wire_format(rest));
        lemma_parse_of_wire_format(rest);
    }
}

/// Whatever parses as a list of records is the wire format of that list.
pub proof fn lemma_wire_format_of_parse(bytes: Seq<u8>)
    ensures
        parse_records(bytes) matches Some(ops) ==> all_fit(ops) && wire_format(ops) == bytes,
    decreases bytes.len(),
{
    if bytes.len() == 0 {
        assert(wire_format(Seq::<EditOpView>::empty()) =~= bytes);
    } else {
        lemma_record_of_parse_record(bytes);
        if let Some((op, used)) = parse_record(bytes) {
            let tail = bytes.skip(used);
            lemma_wire_format_of_parse(tail);
            if let Some(rest) = parse_records(tail) {
                let ops = seq![op] + rest;
                lemma_wire_format_concat(seq![op], rest);
                lemma_wire_format_single(op);
                assert(bytes =~= bytes.take(used) + tail);
                assert forall|i: int| 0 <= i < ops.len() implies (#[trigger] ops[i]).fits() by {
                    if i > 0 {
                        assert(ops[i] == rest[i - 1]);
                    }
                }
            }
        }
    }
}

/// Serializes `ops` to the wire format.
pub fn encode(ops: &[EditOp]) -> (bytes: Vec<u8>)
    ensures
        bytes@ == wire_format(ops_view(ops@)),
{
    let ghost model = ops_view(ops@);
    let mut out: Vec<u8> = Vec::new();
    let mut i: usize = 0;
    while i < ops.len()
        invariant
            i <= ops.len(),
            model == ops_view(ops@),
            out@ == wire_format(model.take(i as int)),
        decreases ops.len() - i,
    {
        proof {
            assert(model.take(i as int + 1).drop_last() =~= model.take(i as int));
            assert(model[i as int] == ops@[i as int]@);
        }
        let ghost before = out@;
        match &ops[i] {
            EditOp::Copy { source_offset, length } => {
                out.push(TAG_COPY);
                write_varint(&mut out, *source_offset);
                write_varint(&mut out, *length);
                assert(out@ =~= before + model[i as int].record());
            },
            EditOp::Insert { bytes } => {
                out.push(TAG_INSERT);
                write_varint(&mut out, bytes.len());
                out.extend_from_slice(bytes.as_slice());
                assert(out@ =~= before + model[i as int].record());
            },
        }
        i += 1;
    }
    assert(model.take(i as int) =~= model);
    out
}

/// What is known of the whole buffer once its first records are read.
spec fn after_front(front: Seq<EditOpView>, tail: Option<Seq<EditOpView>>) -> Option<
    Seq<EditOpView>,
> {
    match tail {
        Some(rest) => Some(front + rest),
        None => None,
    }
}

/// Reads a patch from its wire format.
///
/// Succeeds exactly when `bytes` is the wire format of some list of
/// operations that can be held in memory, and then returns that list (there
/// is only one, see [`lemma_wire_format_injective`]). Anything else is a
/// [`CodecError::Format`]: a record cut short, an unknown tag, an integer
/// not in shortest form or too large for the machine word.
pub fn decode(bytes: &[u8]) -> (result: Result<Vec<EditOp>, CodecError>)
    ensures
        match result {
            Ok(ops) => wire_format(ops_view(ops@)) == bytes@,
            Err(e) => e == CodecError::Format && forall|ops: Seq<EditOpView>|
                all_fit(ops) ==> #[trigger] wire_format(ops) != bytes@,
        },
{
    let len: usize = bytes.len();
    let mut out: Vec<EditOp> = Vec::new();
    let mut pos: usize = 0;
    proof {
        assert(bytes@.skip(0) =~= bytes@);
        assert(ops_view(out@) =~= Seq::<EditOpView>::empty());
        if let Some(all) = parse_records(bytes@) {
            assert(Seq::<EditOpView>::empty() + all =~= all);
        }
    }
    while pos < len
        invariant
            len == bytes@.len(),
            pos <= len,
            parse_records(bytes@) == after_front(
                ops_view(out@),
                parse_records(bytes@.skip(pos as int)),
            ),
        decreases len - pos,
    {
        let ghost tail = bytes@.skip(pos as int);
        let ghost front = ops_view(out@);
        proof {
            assert(tail[0] == bytes@[pos as int]);
            assert(tail.skip(1) =~= bytes@.skip(pos + 1));
            lemma_record_of_parse_record(tail);
        }
        let tag: u8 = bytes[pos];
        let next: usize;
        if tag == TAG_COPY {
            let (source_offset, mid) = match read_varint(bytes, pos + 1) {
                Some(found) => found,
                None => {
                    proof {
                        lemma_no_parse_no_format(bytes@);
                    }
                    return Err(CodecError::Format);
                },
            };
            proof {
                assert(tail.skip(1 + (mid - pos - 1)) =~= bytes@.skip(mid as int));
            }
            let (length, end) = match read_varint(bytes, mid) {
                Some(found) => found,
                None => {
                    proof {
                        lemma_no_parse_no_format(bytes@);
                    }
                    return Err(CodecError::Format);
                },
            };
            out.push(EditOp::Copy { source_offset, length });
            next = end;
        } else if tag == TAG_INSERT {
            let (count, mid) = match read_varint(bytes, pos + 1) {
                Some(found) => found,
                None => {
                    proof {
                        lemma_no_parse_no_format(bytes@);
                    }
                    return Err(CodecError::Format);
                },
            };
            if count > len - mid {
                proof {
                    lemma_no_parse_no_format(bytes@);
                }
                return Err(CodecError::Format);
            }
            let literal = slice_to_vec(slice_subrange(bytes, mid, mid + count));
            proof {
                assert(literal@ =~= tail.subrange(mid - pos, mid - pos + count));
            }
            out.push(EditOp::Insert { bytes: literal });
            next = mid + count;
        } else {
            proof {
                lemma_no_parse_no_format(bytes@);
            }
            return Err(CodecError::Format);
        }
        proof {
            let (op, used) = parse_record(tail).unwrap();
            assert(used == next - pos);
            assert(out@.last()@ == op);
            assert(ops_view(out@) =~= front + seq![op]);
            assert(tail.skip(used) =~= bytes@.skip(next as int));
            if let Some(rest) = parse_records(bytes@.skip(next as int)) {
                assert(front + (seq![op] + rest) =~= (front + seq![op]) + rest);
            }
        }
        pos = next;
    }
    proof {
        assert(bytes@.skip(pos as int) =~= Seq::<u8>::empty());
        assert(ops_view(out@) + Seq::<EditOpView>::empty() =~= ops_view(out@));
        lemma_wire_format_of_parse(bytes@);
    }
    Ok(out)
}

/// Bytes that do not parse are the wire format of no list that fits.
proof fn lemma_no_parse_no_format(bytes: Seq<u8>)
    requires
        parse_records(bytes) is None,
    ensures
        forall|ops: Seq<EditOpView>| all_fit(ops) ==> #[trigger] wire_format(ops) != bytes,
{
    assert forall|ops: Seq<EditOpView>| all_fit(ops) implies #[trigger] wire_format(ops)
        != bytes by {
        lemma_parse_of_wire_format(ops);
    }
}

/// Two lists with the same wire format are the same list.
pub proof fn lemma_wire_format_injective(a: Seq<EditOpView>, b: Seq<EditOpView>)
    requires
        all_fit(a),
        all_fit(b),
        wire_format(a) == wire_format(b),
    ensures
        a == b,
{
    lemma_parse_of_wire_format(a);
    lemma_parse_of_wire_format(b);
}

} // verus!
