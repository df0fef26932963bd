use vstd::prelude::*;
use vstd::slice::slice_subrange;
use crate::error::CodecError;

verus! {

/// One step of rebuilding a target buffer from a source buffer.
#[derive(Clone, Debug, PartialEq, Eq)]
pub enum EditOp {
    /// Emit `length` bytes of the source, starting at `source_offset`.
    Copy { source_offset: usize, length: usize },
    /// Emit `bytes` as they are.
    Insert { bytes: Vec<u8> },
}

/// The mathematical value of an [`EditOp`].
pub enum EditOpView {
    Copy { source_offset: nat, length: nat },
    Insert { bytes: Seq<u8> },
}

impl View for EditOp {
    type V = EditOpView;

    open spec fn view(&self) -> EditOpView {
        match *self {
            EditOp::Copy { source_offset, length } => EditOpView::Copy {
                source_offset: source_offset as nat,
                length: length as nat,
            },
            EditOp::Insert { bytes } => EditOpView::Insert { bytes: bytes@ },
        }
    }
}

/// The values of a list of operations, in order.
pub open spec fn ops_view(ops: Seq<EditOp>) -> Seq<EditOpView> {
    Seq::new(ops.len(), |i: int| ops[i]@)
}

impl EditOpView {
    /// Whether the operation only reads bytes that `source` has.
    pub open spec fn in_range(self, source: Seq<u8>) -> bool {
        match self {
            EditOpView::Copy { source_offset, length } => source_offset + length <= source.len(),
            EditOpView::Insert { .. } => true,
        }
    }

    /// The bytes that the operation emits when replayed against `source`.
    pub open spec fn output(self, source: Seq<u8>) -> Seq<u8>
        recommends
            self.in_range(source),
    {
        match self {
            EditOpView::Copy { source_offset, length } => source.subrange(
                source_offset as int,
                (source_offset + length) as int,
            ),
            EditOpView::Insert { bytes } => bytes,
        }
    }
}

/// Whether every operation of `ops` stays inside `source`.
pub open spec fn all_in_range(ops: Seq<EditOpView>, source: Seq<u8>) -> bool {
    forall|i: int| 0 <= i < ops.len() ==> (#[trigger] ops[i]).in_range(source)
}

/// The bytes emitted by replaying `ops` in order against `source`.
pub open spec fn replay(ops: Seq<EditOpView>, source: Seq<u8>) -> Seq<u8>
    decreases ops.len(),
{
    if ops.len() == 0 {
        Seq::empty()
    } else {
        replay(ops.drop_last(), source) + ops.last().output(source)
    }
}

/// Replaying a list extended by one operation appends that operation's output.
pub proof fn lemma_replay_push(ops: Seq<EditOpView>, op: EditOpView, source: Seq<u8>)
    ensures
        replay(ops.push(op), source) == replay(ops, source) + op.output(source),
{
    assert(ops.push(op).drop_last() =~= ops);
}

/// Replaying a single operation gives that operation's output.
pub proof fn lemma_replay_single(op: EditOpView, source: Seq<u8>)
    ensures
        replay(seq![op], source) == op.output(source),
{
    let none = Seq::<EditOpView>::empty();
    assert(seq![op] =~= none.push(op));
    lemma_replay_push(none, op, source);
    assert(replay(none, source) + op.output(source) =~= op.output(source));
}

/// Replaying two lists one after the other concatenates their outputs.
pub proof fn lemma_replay_concat(a: Seq<EditOpView>, b: Seq<EditOpView>, source: Seq<u8>)
    ensures
        replay(a + b, source) == replay(a, source) + replay(b, source),
    decreases b.len(),
{
    if b.len() == 0 {
        assert(a + b =~= a);
        assert(replay(a, source) + replay(b, source) =~= replay(a, source));
    } else {
        lemma_replay_concat(a, b.drop_last(), source);
        assert((a + b).drop_last() =~= a + b.drop_last());
        assert((a + b).last() == b.last());
        assert(replay(a, source) + replay(b.drop_last(), source) + b.last().output(source)
            =~= replay(a, source) + (replay(b.drop_last(), source) + b.last().output(source)));
    }
}

/// No operation emits more bytes than the whole list does.
pub proof fn lemma_output_within_replay(ops: Seq<EditOpView>, source: Seq<u8>, i: int)
    requires
        0 <= i < ops.len(),
    ensures
        ops[i].output(source).len() <= replay(ops, source).len(),
    decreases ops.len(),
{
    if i < ops.len() - 1 {
        lemma_output_within_replay(ops.drop_last(), source, i);
    }
}

/// Replays `ops` against `source`.
///
/// Succeeds exactly when every copy stays inside `source`, and then returns
/// the concatenated output of the operations. Otherwise nothing is emitted
/// and the error is [`CodecError::Range`].
pub fn apply(source: &[u8], ops: &[EditOp]) -> (result: Result<Vec<u8>, CodecError>)
    ensures
        all_in_range(ops_view(ops@), source@) ==> result is Ok && result->Ok_0@ == replay(
            ops_view(ops@),
            source@,
        ),
        !all_in_range(ops_view(ops@), source@) ==> result == Err::<Vec<u8>, CodecError>(
            CodecError::Range,
        ),
{
    let ghost model = ops_view(ops@);
    let source_len: usize = source.len();
    let mut out: Vec<u8> = Vec::new();
    let mut i: usize = 0;
    while i < ops.len()
        invariant
            i <= ops.len(),
            source_len == source@.len(),
            model == ops_view(ops@),
            all_in_range(model.take(i as int), source@),
            out@ == replay(model.take(i as int), source@),
        decreases ops.len() - i,
    {
        proof {
            assert(model.take(i as int + 1) =~= model.take(i as int).push(model[i as int]));
            lemma_replay_push(model.take(i as int), model[i as int], source@);
            assert(model[i as int] == ops@[i as int]@);
        }
        match &ops[i] {
            EditOp::Copy { source_offset, length } => {
                let end = match source_offset.checked_add(*length) {
                    Some(end) => end,
                    None => {
                        assert(!model[i as int].in_range(source@));
                        return Err(CodecError::Range);
                    },
                };
                if end > source_len {
                    assert(!model[i as int].in_range(source@));
                    return Err(CodecError::Range);
                }
                let ghost before = out@;
                out.extend_from_slice(slice_subrange(source, *source_offset, end));
                assert(out@ =~= before + model[i as int].output(source@));
            },
            EditOp::Insert { bytes } => {
                let ghost before = out@;
                out.extend_from_slice(bytes.as_slice());
                assert(out@ =~= before + model[i as int].output(source@));
            },
        }
        i += 1;
    }
    assert(model.take(i as int) =~= model);
    Ok(out)
}

} // verus!
