use vstd::prelude::*;
use crate::ops::{
    all_in_range, lemma_output_within_replay, lemma_replay_concat, lemma_replay_single, ops_view,
    replay, EditOp, EditOpView,
};
use crate::wire::all_fit;

verus! {

/// Length of the byte groups by which the source is indexed. A default that
/// may be tuned; it must not exceed [`MIN_MATCH`].
pub const KMER_SIZE: usize = 3;

/// Shortest run of shared bytes that is emitted as a copy. Shorter runs cost
/// more as an instruction than as literal bytes and stay in the surrounding
/// insert. A default that may be tuned.
pub const MIN_MATCH: usize = 3;

/// Number of slots of the source index.
const SLOTS: usize = 65536;

/// Marks the end of a chain of offsets in the source index.
const NO_OFFSET: usize = usize::MAX;

/// Length of the longest run on which `source` from `offset` on and
/// `target` from `at` on agree.
pub open spec fn match_len(source: Seq<u8>, offset: int, target: Seq<u8>, at: int) -> nat
    decreases source.len() - offset,
{
    if 0 <= offset < source.len() && 0 <= at < target.len() && source[offset] == target[at] {
        1 + match_len(source, offset + 1, target, at + 1)
    } else {
        0
    }
}

/// The best match for position `at` of `target` among the source offsets
/// below `limit`, as offset and length: the longest one, and of several
/// longest ones that of the smallest offset. Length 0 means that no offset
/// below `limit` agrees with the target even on one byte.
pub open spec fn best_match(source: Seq<u8>, target: Seq<u8>, at: int, limit: int) -> (int, nat)
    decreases limit,
{
    if limit <= 0 {
        (0, 0)
    } else {
        let before = best_match(source, target, at, limit - 1);
        let here = match_len(source, limit - 1, target, at);
        if here > before.1 {
            (limit - 1, here)
        } else {
            before
        }
    }
}

/// The literal bytes collected so far, as operations: one insert, or
/// nothing where no byte is waiting.
pub open spec fn flushed(pending: Seq<u8>) -> Seq<EditOpView> {
    if pending.len() == 0 {
        Seq::empty()
    } else {
        seq![EditOpView::Insert { bytes: pending }]
    }
}

/// The operations for `target` from position `at` on, with the literal
/// bytes `pending` waiting to be emitted before them.
///
/// At each position the best match over the whole source is taken. Where it
/// is at least [`MIN_MATCH`] long it becomes a copy and the scan goes on
/// behind it; else the byte at the position is literal and joins the bytes
/// that wait. Waiting bytes are emitted as one insert before the next copy,
/// or at the end of the target.
pub open spec fn greedy_ops(source: Seq<u8>, target: Seq<u8>, at: int, pending: Seq<u8>) -> Seq<
    EditOpView,
>
    decreases target.len() - at,
    via greedy_ops_advances
{
    if at < 0 || at >= target.len() {
        flushed(pending)
    } else {
        let best = best_match(source, target, at, source.len() as int);
        if best.1 >= MIN_MATCH {
            flushed(pending) + seq![
                EditOpView::Copy { source_offset: best.0 as nat, length: best.1 },
            ] + greedy_ops(source, target, at + best.1, Seq::empty())
        } else {
            greedy_ops(source, target, at + 1, pending.push(target[at]))
        }
    }
}

#[via_fn]
proof fn greedy_ops_advances(source: Seq<u8>, target: Seq<u8>, at: int, pending: Seq<u8>) {
    if 0 <= at < target.len() {
        let best = best_match(source, target, at, source.len() as int);
        lemma_best_match_is_match(source, target, at, source.len() as int);
        lemma_match_len_agrees(source, best.0, target, at);
    }
}

/// Whether a list has the shape that the greedy scan gives: every copy is at
/// least [`MIN_MATCH`] long, and every insert holds a byte at least and is
/// followed by a copy or by nothing, so that no two inserts meet.
pub open spec fn well_shaped(ops: Seq<EditOpView>) -> bool {
    forall|i: int|
        0 <= i < ops.len() ==> match #[trigger] ops[i] {
            EditOpView::Copy { length, .. } => length >= MIN_MATCH,
            EditOpView::Insert { bytes } => bytes.len() > 0 && (i + 1 < ops.len() ==> ops[i
                + 1] is Copy),
        }
}

/// The operations that turn `source` into `target`.
///
/// An empty target needs none. A target equal to the source is one copy of
/// all of it. Every other pair is matched greedily from the left, see
/// [`greedy_ops`].
pub open spec fn patch_ops(source: Seq<u8>, target: Seq<u8>) -> Seq<EditOpView> {
    if target.len() == 0 {
        Seq::empty()
    } else if source == target {
        seq![EditOpView::Copy { source_offset: 0, length: source.len() }]
    } else {
        greedy_ops(source, target, 0, Seq::empty())
    }
}

/// A match stays inside both buffers, and the two runs hold the same bytes.
pub proof fn lemma_match_len_agrees(source: Seq<u8>, offset: int, target: Seq<u8>, at: int)
    requires
        0 <= offset,
        0 <= at,
    ensures
        match_len(source, offset, target, at) > 0 ==> offset < source.len() && at < target.len(),
        offset <= source.len() ==> offset + match_len(source, offset, target, at) <= source.len(),
        at <= target.len() ==> at + match_len(source, offset, target, at) <= target.len(),
        offset <= source.len() && at <= target.len() ==> source.subrange(
            offset,
            offset + match_len(source, offset, target, at),
        ) == target.subrange(at, at + match_len(source, offset, target, at)),
    decreases source.len() - offset,
{
    let len = match_len(source, offset, target, at);
    if offset < source.len() && at < target.len() && source[offset] == target[at] {
        lemma_match_len_agrees(source, offset + 1, target, at + 1);
        assert(source.subrange(offset, offset + len) =~= seq![source[offset]] + source.subrange(
            offset + 1,
            offset + len,
        ));
        assert(target.subrange(at, at + len) =~= seq![target[at]] + target.subrange(
            at + 1,
            at + len,
        ));
    } else if offset <= source.len() && at <= target.len() {
        assert(source.subrange(offset, offset + len) =~= target.subrange(at, at + len));
    }
}

/// The best match is a match: its length is the length of the run at its
/// offset, and the offset lies below the limit where anything matched.
pub proof fn lemma_best_match_is_match(source: Seq<u8>, target: Seq<u8>, at: int, limit: int)
    ensures
        ({
            let best = best_match(source, target, at, limit);
            &&& 0 <= best.0
            &&& best.1 > 0 ==> best.0 < limit
            &&& best.1 > 0 ==> best.1 == match_len(source, best.0, target, at)
        }),
    decreases limit,
{
    if limit > 0 {
        lemma_best_match_is_match(source, target, at, limit - 1);
    }
}

/// No offset below the limit matches longer than the best match, and none
/// that matches as long lies before it.
pub proof fn lemma_best_match_is_longest(
    source: Seq<u8>,
    target: Seq<u8>,
    at: int,
    limit: int,
    offset: int,
)
    requires
        0 <= offset < limit,
    ensures
        match_len(source, offset, target, at) <= best_match(source, target, at, limit).1,
        match_len(source, offset, target, at) == best_match(source, target, at, limit).1
            && match_len(source, offset, target, at) > 0 ==> best_match(
            source,
            target,
            at,
            limit,
        ).0 <= offset,
    decreases limit,
{
    if offset < limit - 1 {
        lemma_best_match_is_longest(source, target, at, limit - 1, offset);
    } else {
        lemma_best_match_is_match(source, target, at, limit - 1);
    }
}

/// Offsets that match on fewer than `floor` bytes do not change a best match
/// that is at least `floor` long, nor lift a shorter one to `floor`.
proof fn lemma_short_matches_skipped(
    source: Seq<u8>,
    target: Seq<u8>,
    at: int,
    low: int,
    high: int,
    floor: nat,
)
    requires
        0 <= low <= high,
        forall|p: int| low <= p < high ==> match_len(source, p, target, at) < floor,
    ensures
        best_match(source, target, at, low).1 >= floor ==> best_match(source, target, at, high)
            == best_match(source, target, at, low),
        best_match(source, target, at, low).1 < floor ==> best_match(source, target, at, high).1
            < floor,
    decreases high - low,
{
    if low < high {
        lemma_short_matches_skipped(source, target, at, low, high - 1, floor);
    }
}

/// Offsets that match no longer than the best match so far leave it as it
/// is.
proof fn lemma_no_longer_matches_skipped(
    source: Seq<u8>,
    target: Seq<u8>,
    at: int,
    low: int,
    high: int,
)
    requires
        0 <= low <= high,
        forall|p: int|
            low <= p < high ==> match_len(source, p, target, at) <= best_match(
                source,
                target,
                at,
                low,
            ).1,
    ensures
        best_match(source, target, at, high) == best_match(source, target, at, low),
    decreases high - low,
{
    if low < high {
        lemma_no_longer_matches_skipped(source, target, at, low, high - 1);
    }
}

/// Replaying the greedy operations gives the waiting bytes and then the
/// rest of the target, and every copy stays inside the source.
pub proof fn lemma_greedy_ops_replay(source: Seq<u8>, target: Seq<u8>, at: int, pending: Seq<u8>)
    requires
        0 <= at <= target.len(),
    ensures
        all_in_range(greedy_ops(source, target, at, pending), source),
        replay(greedy_ops(source, target, at, pending), source) == pending + target.skip(at),
    decreases target.len() - at,
{
    lemma_flushed_replay(pending, source);
    if at >= target.len() {
        assert(pending + target.skip(at) =~= pending);
    } else {
        let best = best_match(source, target, at, source.len() as int);
        if best.1 >= MIN_MATCH {
            lemma_best_match_is_match(source, target, at, source.len() as int);
            lemma_match_len_agrees(source, best.0, target, at);
            let copy = EditOpView::Copy { source_offset: best.0 as nat, length: best.1 };
            let rest = greedy_ops(source, target, at + best.1, Seq::empty());
            lemma_greedy_ops_replay(source, target, at + best.1, Seq::empty());
            lemma_replay_concat(flushed(pending), seq![copy], source);
            lemma_replay_concat(flushed(pending) + seq![copy], rest, source);
            lemma_replay_single(copy, source);
            assert(copy.output(source) =~= target.subrange(at, at + best.1));
            assert(pending + target.subrange(at, at + best.1) + (Seq::<u8>::empty() + target.skip(
                at + best.1,
            )) =~= pending + target.skip(at));
        } else {
            lemma_greedy_ops_replay(source, target, at + 1, pending.push(target[at]));
            assert(pending.push(target[at]) + target.skip(at + 1) =~= pending + target.skip(at));
        }
    }
}

/// Replaying the waiting bytes, flushed, gives the waiting bytes.
proof fn lemma_flushed_replay(pending: Seq<u8>, source: Seq<u8>)
    ensures
        all_in_range(flushed(pending), source),
        replay(flushed(pending), source) == pending,
{
    if pending.len() == 0 {
        assert(replay(flushed(pending), source) =~= pending);
    } else {
        lemma_replay_single(EditOpView::Insert { bytes: pending }, source);
    }
}

/// Against an empty source every byte is literal.
pub proof fn lemma_greedy_ops_empty_source(target: Seq<u8>, at: int, pending: Seq<u8>)
    requires
        0 <= at <= target.len(),
    ensures
        greedy_ops(Seq::empty(), target, at, pending) == flushed(pending + target.skip(at)),
    decreases target.len() - at,
{
    if at >= target.len() {
        assert(pending + target.skip(at) =~= pending);
    } else {
        lemma_greedy_ops_empty_source(target, at + 1, pending.push(target[at]));
        assert(pending.push(target[at]) + target.skip(at + 1) =~= pending + target.skip(at));
    }
}

/// The slot of the source index that a group of bytes falls into.
spec fn slot_of(group: Seq<u8>) -> int
    decreases group.len(),
{
    if group.len() == 0 {
        0
    } else {
        (slot_of(group.drop_last()) * 257 + group.last()) % (SLOTS as int)
    }
}

/// The slot of the group of [`KMER_SIZE`] bytes that starts at `offset`.
spec fn slot_at(bytes: Seq<u8>, offset: int) -> int {
    slot_of(bytes.subrange(offset, offset + KMER_SIZE))
}

/// Whether `first` is the smallest offset from `from` on whose group falls
/// into `slot`, or the end mark where there is none.
spec fn is_first_in_slot(source: Seq<u8>, slot: int, from: int, groups: int, first: usize) -> bool {
    if first == NO_OFFSET {
        forall|p: int| from <= p < groups ==> slot_at(source, p) != slot
    } else {
        &&& from <= first < groups
        &&& slot_at(source, first as int) == slot
        &&& forall|p: int| from <= p < first ==> slot_at(source, p) != slot
    }
}

/// Whether `next` is the smallest offset behind `offset` whose group falls
/// into the same slot, or the end mark where there is none.
spec fn is_next_in_slot(source: Seq<u8>, offset: int, groups: int, next: usize) -> bool {
    is_first_in_slot(source, slot_at(source, offset), offset + 1, groups, next)
}

/// The number of groups of [`KMER_SIZE`] bytes in a buffer of `len` bytes.
spec fn group_count(len: int) -> int {
    if len >= KMER_SIZE {
        len - KMER_SIZE + 1
    } else {
        0
    }
}

/// Index of the source by the slots of its byte groups: for each slot the
/// first offset whose group falls into it, and for each offset the next one
/// of the same slot.
struct SourceIndex {
    heads: Vec<usize>,
    links: Vec<usize>,
}

impl SourceIndex {
    /// Whether the index holds exactly the offsets of `source` from `from` on.
    #[verifier::opaque]
    spec fn covers(&self, source: Seq<u8>, from: int) -> bool {
        let groups = group_count(source.len() as int);
        &&& self.heads@.len() == SLOTS
        &&& self.links@.len() == groups
        &&& forall|slot: int|
            0 <= slot < SLOTS ==> is_first_in_slot(
                source,
                slot,
                from,
                groups,
                #[trigger] self.heads@[slot],
            )
        &&& forall|p: int|
            from <= p < groups ==> is_next_in_slot(source, p, groups, #[trigger] self.links@[p])
    }

    /// Indexes every group of `source`.
    fn build(source: &[u8]) -> (index: SourceIndex)
        ensures
            index.covers(source@, 0),
    {
        let len: usize = source.len();
        let groups: usize = if len >= KMER_SIZE {
            len - KMER_SIZE + 1
        } else {
            0
        };
        let mut heads: Vec<usize> = Vec::new();
        let mut filled: usize = 0;
        while filled < SLOTS
            invariant
                filled <= SLOTS,
                heads@.len() == filled,
                forall|slot: int| 0 <= slot < filled ==> heads@[slot] == NO_OFFSET,
            decreases SLOTS - filled,
        {
            heads.push(NO_OFFSET);
            filled += 1;
        }
        let mut links: Vec<usize> = Vec::new();
        filled = 0;
        while filled < groups
            invariant
                filled <= groups,
                links@.len() == filled,
            decreases groups - filled,
        {
            links.push(NO_OFFSET);
            filled += 1;
        }
        let mut index = SourceIndex { heads, links };
        let mut from: usize = groups;
        proof {
            reveal(SourceIndex::covers);
        }
        while from > 0
            invariant
                from <= groups,
                len == source@.len(),
                groups == group_count(len as int),
                index.covers(source@, from as int),
            decreases from,
        {
            proof {
                reveal(SourceIndex::covers);
            }
            from -= 1;
            let slot: usize = slot_of_group(source, from);
            let ghost before = index;
            let next: usize = index.heads[slot];
            index.links.set(from, next);
            index.heads.set(slot, from);
            proof {
                assert forall|other: int| 0 <= other < SLOTS implies is_first_in_slot(
                    source@,
                    other,
                    from as int,
                    groups as int,
                    #[trigger] index.heads@[other],
                ) by {
                    if other != slot {
                        assert(is_first_in_slot(
                            source@,
                            other,
                            from + 1,
                            groups as int,
                            before.heads@[other],
                        ));
                    }
                }
                assert forall|p: int| from <= p < groups implies is_next_in_slot(
                    source@,
                    p,
                    groups as int,
                    #[trigger] index.links@[p],
                ) by {
                    if p == from {
                        assert(is_first_in_slot(
                            source@,
                            slot as int,
                            from + 1,
                            groups as int,
                            before.heads@[slot as int],
                        ));
                    } else {
                        assert(is_next_in_slot(source@, p, groups as int, before.links@[p]));
                    }
                }
            }
        }
        index
    }
}

/// Computes the slot of the group that starts at `offset`.
fn slot_of_group(bytes: &[u8], offset: usize) -> (slot: usize)
    requires
        offset + KMER_SIZE <= bytes@.len(),
    ensures
        slot == slot_at(bytes@, offset as int),
        slot < SLOTS,
{
    let len: usize = bytes.len();
    let mut slot: usize = 0;
    let mut taken: usize = 0;
    while taken < KMER_SIZE
        invariant
            taken <= KMER_SIZE,
            len == bytes@.len(),
            offset + KMER_SIZE <= len,
            slot < SLOTS,
            slot == slot_of(bytes@.subrange(offset as int, offset + taken)),
        decreases KMER_SIZE - taken,
    {
        proof {
            assert(bytes@.subrange(offset as int, offset + taken + 1).drop_last()
                =~= bytes@.subrange(offset as int, offset + taken));
        }
        slot = (slot * 257 + bytes[offset + taken] as usize) % SLOTS;
        taken += 1;
    }
    slot
}

/// Measures how far `source` from `offset` on and `target` from `at` on agree.
fn run_length(source: &[u8], offset: usize, target: &[u8], at: usize) -> (len: usize)
    requires
        offset <= source@.len(),
        at <= target@.len(),
    ensures
        len == match_len(source@, offset as int, target@, at as int),
        offset + len <= source@.len(),
        at + len <= target@.len(),
{
    let source_len: usize = source.len();
    let target_len: usize = target.len();
    let mut len: usize = 0;
    while len < source_len - offset && len < target_len - at && source[offset + len] == target[at
        + len]
        invariant
            source_len == source@.len(),
            target_len == target@.len(),
            offset + len <= source_len,
            at + len <= target_len,
            match_len(source@, offset as int, target@, at as int) == len + match_len(
                source@,
                offset + len,
                target@,
                at + len,
            ),
        decreases source_len - offset - len,
    {
        len += 1;
    }
    len
}

/// Whether the search has the best match so far, as far as it matters: the
/// best match itself where that is at least [`KMER_SIZE`] long, and
/// something shorter than that where it is not.
spec fn tracks(found: (usize, usize), best: (int, nat)) -> bool {
    if best.1 >= KMER_SIZE {
        found.0 == best.0 && found.1 == best.1
    } else {
        found.1 < KMER_SIZE
    }
}

/// The offset up to which a chain of the index has been followed: the next
/// offset in it, or the number of groups at its end.
spec fn reached(next: usize, groups: int) -> int {
    if next == NO_OFFSET {
        groups
    } else {
        next as int
    }
}

/// An offset whose group falls into another slot than the group at the
/// target position matches on fewer than [`KMER_SIZE`] bytes.
proof fn lemma_other_slot_is_short(source: Seq<u8>, offset: int, target: Seq<u8>, at: int)
    requires
        0 <= offset,
        0 <= at,
        at + KMER_SIZE <= target.len(),
        offset + KMER_SIZE > source.len() || slot_at(source, offset) != slot_at(target, at),
    ensures
        match_len(source, offset, target, at) < KMER_SIZE,
{
    lemma_match_len_agrees(source, offset, target, at);
    let len = match_len(source, offset, target, at);
    if len >= KMER_SIZE {
        assert(offset + len <= source.len());
        assert(source.subrange(offset, offset + KMER_SIZE) =~= source.subrange(
            offset,
            offset + len,
        ).take(KMER_SIZE as int));
        assert(target.subrange(at, at + KMER_SIZE) =~= target.subrange(at, at + len).take(
            KMER_SIZE as int,
        ));
    }
}

/// Where fewer than [`KMER_SIZE`] bytes are left of either buffer, nothing
/// is found, and nothing needs to be.
proof fn lemma_nothing_to_find(source: Seq<u8>, target: Seq<u8>, at: int)
    requires
        0 <= at <= target.len(),
        target.len() - at < KMER_SIZE || source.len() < KMER_SIZE,
    ensures
        tracks((0, 0), best_match(source, target, at, source.len() as int)),
{
    assert forall|p: int| 0 <= p < source.len() implies match_len(source, p, target, at)
        < KMER_SIZE by {
        lemma_match_len_agrees(source, p, target, at);
    }
    lemma_short_matches_skipped(source, target, at, 0, source.len() as int, KMER_SIZE as nat);
}

/// Following a chain of the index from `from` to its next offset passes
/// over offsets of other slots only, which leaves what was found as it is.
proof fn lemma_follow_chain(
    source: Seq<u8>,
    target: Seq<u8>,
    at: int,
    from: int,
    next: usize,
    found: (usize, usize),
)
    requires
        0 <= at,
        at + KMER_SIZE <= target.len(),
        0 <= from <= group_count(source.len() as int),
        is_first_in_slot(
            source,
            slot_at(target, at),
            from,
            group_count(source.len() as int),
            next,
        ),
        tracks(found, best_match(source, target, at, from)),
    ensures
        from <= reached(next, group_count(source.len() as int)) <= group_count(
            source.len() as int,
        ),
        next != NO_OFFSET ==> next < group_count(source.len() as int) && slot_at(
            source,
            next as int,
        ) == slot_at(target, at),
        tracks(
            found,
            best_match(source, target, at, reached(next, group_count(source.len() as int))),
        ),
{
    let limit = reached(next, group_count(source.len() as int));
    assert forall|p: int| from <= p < limit implies match_len(source, p, target, at)
        < KMER_SIZE by {
        lemma_other_slot_is_short(source, p, target, at);
    }
    lemma_short_matches_skipped(source, target, at, from, limit, KMER_SIZE as nat);
}

/// The offsets behind the last group of the source leave what was found as
/// it is.
proof fn lemma_follow_tail(source: Seq<u8>, target: Seq<u8>, at: int, found: (usize, usize))
    requires
        0 <= at,
        at + KMER_SIZE <= target.len(),
        tracks(found, best_match(source, target, at, group_count(source.len() as int))),
    ensures
        tracks(found, best_match(source, target, at, source.len() as int)),
{
    let groups = group_count(source.len() as int);
    assert forall|p: int| groups <= p < source.len() implies match_len(source, p, target, at)
        < KMER_SIZE by {
        lemma_other_slot_is_short(source, p, target, at);
    }
    lemma_short_matches_skipped(
        source,
        target,
        at,
        groups,
        source.len() as int,
        KMER_SIZE as nat,
    );
}

/// Once the best match so far is as long as what is left of the target, or
/// of the source from `from` on, no offset from `from` on can beat it.
proof fn lemma_stop_early(
    source: Seq<u8>,
    target: Seq<u8>,
    at: int,
    from: int,
    found: (usize, usize),
)
    requires
        0 <= at <= target.len(),
        0 <= from <= source.len(),
        found.1 >= KMER_SIZE,
        found.1 >= target.len() - at || found.1 >= source.len() - from,
        tracks(found, best_match(source, target, at, from)),
    ensures
        tracks(found, best_match(source, target, at, source.len() as int)),
{
    assert forall|p: int| from <= p < source.len() implies match_len(source, p, target, at)
        <= best_match(source, target, at, from).1 by {
        lemma_match_len_agrees(source, p, target, at);
    }
    lemma_no_longer_matches_skipped(source, target, at, from, source.len() as int);
}

/// Measuring the candidate at `here` and keeping it where it is strictly
/// longer keeps track of the best match.
proof fn lemma_take_candidate(
    source: Seq<u8>,
    target: Seq<u8>,
    at: int,
    here: usize,
    found: (usize, usize),
    len: usize,
)
    requires
        0 <= at,
        len == match_len(source, here as int, target, at),
        tracks(found, best_match(source, target, at, here as int)),
    ensures
        tracks(
            if len > found.1 {
                (here, len)
            } else {
                found
            },
            best_match(source, target, at, here + 1),
        ),
{
    lemma_best_match_is_match(source, target, at, here + 1);
    lemma_match_len_agrees(
        source,
        best_match(source, target, at, here + 1).0,
        target,
        at,
    );
}

impl SourceIndex {
    /// The first offset whose group falls into `slot`.
    fn first_in(&self, slot: usize, Ghost(source): Ghost<Seq<u8>>) -> (first: usize)
        requires
            self.covers(source, 0),
            slot < SLOTS,
        ensures
            is_first_in_slot(source, slot as int, 0, group_count(source.len() as int), first),
    {
        proof {
            reveal(SourceIndex::covers);
        }
        self.heads[slot]
    }

    /// The next offset behind `offset` whose group falls into the same slot.
    fn next_in(&self, offset: usize, Ghost(source): Ghost<Seq<u8>>) -> (next: usize)
        requires
            self.covers(source, 0),
            offset < group_count(source.len() as int),
        ensures
            is_next_in_slot(source, offset as int, group_count(source.len() as int), next),
    {
        proof {
            reveal(SourceIndex::covers);
        }
        self.links[offset]
    }
}

/// Finds the best match for position `at` of `target` in the indexed source.
fn find_best(source: &[u8], index: &SourceIndex, target: &[u8], at: usize) -> (found: (
    usize,
    usize,
))
    requires
        index.covers(source@, 0),
        at < target@.len(),
    ensures
        tracks(found, best_match(source@, target@, at as int, source@.len() as int)),
{
    let source_len: usize = source.len();
    let target_len: usize = target.len();
    if target_len - at < KMER_SIZE || source_len < KMER_SIZE {
        proof {
            lemma_nothing_to_find(source@, target@, at as int);
        }
        return (0, 0);
    }
    let ghost groups = group_count(source_len as int);
    let slot: usize = slot_of_group(target, at);
    let mut current: usize = index.first_in(slot, Ghost(source@));
    let mut found: (usize, usize) = (0, 0);
    proof {
        lemma_follow_chain(source@, target@, at as int, 0, current, found);
    }
    while current != NO_OFFSET && source_len - current > found.1
        invariant
            source_len == source@.len(),
            target_len == target@.len(),
            at + KMER_SIZE <= target_len,
            groups == group_count(source_len as int),
            index.covers(source@, 0),
            0 <= reached(current, groups) <= groups,
            current != NO_OFFSET ==> current < groups,
            current != NO_OFFSET ==> slot_at(source@, current as int) == slot_at(
                target@,
                at as int,
            ),
            tracks(found, best_match(source@, target@, at as int, reached(current, groups))),
        decreases groups - reached(current, groups),
    {
        let len: usize = run_length(source, current, target, at);
        proof {
            lemma_take_candidate(source@, target@, at as int, current, found, len);
        }
        if len > found.1 {
            found = (current, len);
        }
        if len == target_len - at {
            proof {
                lemma_stop_early(source@, target@, at as int, current + 1, found);
            }
            return found;
        }
        let ghost here = current;
        current = index.next_in(current, Ghost(source@));
        proof {
            lemma_follow_chain(source@, target@, at as int, here + 1, current, found);
        }
    }
    proof {
        if current == NO_OFFSET {
            lemma_follow_tail(source@, target@, at as int, found);
        } else {
            lemma_stop_early(source@, target@, at as int, current as int, found);
        }
    }
    found
}

/// Tells whether two buffers hold the same bytes.
fn same_bytes(a: &[u8], b: &[u8]) -> (same: bool)
    ensures
        same == (a@ == b@),
{
    if a.len() != b.len() {
        return false;
    }
    let mut i: usize = 0;
    while i < a.len()
        invariant
            a@.len() == b@.len(),
            i <= a@.len(),
            a@.take(i as int) == b@.take(i as int),
        decreases a@.len() - i,
    {
        if a[i] != b[i] {
            return false;
        }
        assert(a@.take(i + 1) =~= a@.take(i as int).push(a@[i as int]));
        assert(b@.take(i + 1) =~= b@.take(i as int).push(b@[i as int]));
        i += 1;
    }
    assert(a@.take(i as int) =~= a@);
    assert(b@.take(i as int) =~= b@);
    true
}

/// Finds the operations that turn `source` into `target`.
///
/// The result is [`patch_ops`] of the two buffers. Replayed against
/// `source` it gives `target`, and none of its copies leaves `source`.
///
/// The source is indexed once by its groups of [`KMER_SIZE`] bytes, and at
/// each position of the target only the offsets of the position's group are
/// measured, so the time taken grows with the two lengths as long as few
/// offsets share a group. A search ends early once nothing longer can
/// follow.
pub fn get_patch(source: &[u8], target: &[u8]) -> (ops: Vec<EditOp>)
    ensures
        ops_view(ops@) == patch_ops(source@, target@),
        all_in_range(ops_view(ops@), source@),
        replay(ops_view(ops@), source@) == target@,
{
    let target_len: usize = target.len();
    let mut out: Vec<EditOp> = Vec::new();
    proof {
        lemma_patch_ops_replay(source@, target@);
    }
    if target_len == 0 {
        assert(ops_view(out@) =~= patch_ops(source@, target@));
        return out;
    }
    if same_bytes(source, target) {
        out.push(EditOp::Copy { source_offset: 0, length: source.len() });
        assert(ops_view(out@) =~= patch_ops(source@, target@));
        return out;
    }
    let index = SourceIndex::build(source);
    let mut pending: Vec<u8> = Vec::new();
    let mut at: usize = 0;
    let ghost whole = greedy_ops(source@, target@, 0, Seq::empty());
    proof {
        assert(ops_view(out@) + whole =~= whole);
    }
    while at < target_len
        invariant
            target_len == target@.len(),
            at <= target_len,
            index.covers(source@, 0),
            whole == ops_view(out@) + greedy_ops(source@, target@, at as int, pending@),
        decreases target_len - at,
    {
        let found = find_best(source, &index, target, at);
        let ghost best = best_match(source@, target@, at as int, source@.len() as int);
        let ghost done = ops_view(out@);
        proof {
            lemma_best_match_is_match(source@, target@, at as int, source@.len() as int);
            lemma_match_len_agrees(source@, best.0, target@, at as int);
        }
        if found.1 >= MIN_MATCH {
            let ghost waiting = pending@;
            if pending.len() > 0 {
                out.push(EditOp::Insert { bytes: pending });
                pending = Vec::new();
            }
            out.push(EditOp::Copy { source_offset: found.0, length: found.1 });
            proof {
                assert(pending@ =~= Seq::<u8>::empty());
                let copy = EditOpView::Copy { source_offset: best.0 as nat, length: best.1 };
                assert(ops_view(out@) =~= done + flushed(waiting) + seq![copy]);
                assert(done + (flushed(waiting) + seq![copy] + greedy_ops(
                    source@,
                    target@,
                    at + best.1,
                    Seq::empty(),
                )) =~= done + flushed(waiting) + seq![copy] + greedy_ops(
                    source@,
                    target@,
                    at + best.1,
                    Seq::empty(),
                ));
            }
            at = at + found.1;
        } else {
            pending.push(target[at]);
            proof {
                assert(ops_view(out@) =~= done);
            }
            at = at + 1;
        }
    }
    let ghost done = ops_view(out@);
    let ghost waiting = pending@;
    if pending.len() > 0 {
        out.push(EditOp::Insert { bytes: pending });
    }
    assert(ops_view(out@) =~= done + flushed(waiting));
    out
}

/// Replaying [`patch_ops`] against the source gives the target, and every
/// copy stays inside the source.
pub proof fn lemma_patch_ops_replay(source: Seq<u8>, target: Seq<u8>)
    ensures
        all_in_range(patch_ops(source, target), source),
        replay(patch_ops(source, target), source) == target,
{
    if target.len() == 0 {
        assert(replay(patch_ops(source, target), source) =~= target);
    } else if source == target {
        let copy = EditOpView::Copy { source_offset: 0, length: source.len() };
        lemma_replay_single(copy, source);
        assert(copy.output(source) =~= target);
    } else {
        lemma_greedy_ops_replay(source, target, 0, Seq::empty());
        assert(Seq::<u8>::empty() + target.skip(0) =~= target);
    }
}

/// A buffer that is not empty is turned into itself by one copy of all of
/// it.
pub proof fn lemma_patch_ops_identity(buffer: Seq<u8>)
    requires
        buffer.len() > 0,
    ensures
        patch_ops(buffer, buffer) == seq![
            EditOpView::Copy { source_offset: 0, length: buffer.len() },
        ],
{
}

/// Against an empty source a target that is not empty is one insert of all
/// of it.
pub proof fn lemma_patch_ops_empty_source(target: Seq<u8>)
    requires
        target.len() > 0,
    ensures
        patch_ops(Seq::empty(), target) == seq![EditOpView::Insert { bytes: target }],
{
    lemma_greedy_ops_empty_source(target, 0, Seq::empty());
    assert(Seq::<u8>::empty() + target.skip(0) =~= target);
    assert(Seq::<u8>::empty() != target) by {
        assert(Seq::<u8>::empty().len() != target.len());
    }
}

/// An empty target needs no operation, and replaying none against any
/// buffer gives the empty buffer.
pub proof fn lemma_patch_ops_empty_target(source: Seq<u8>, other: Seq<u8>)
    ensures
        patch_ops(source, Seq::empty()) == Seq::<EditOpView>::empty(),
        all_in_range(patch_ops(source, Seq::empty()), other),
        replay(patch_ops(source, Seq::empty()), other) == Seq::<u8>::empty(),
{
}

/// The operations for buffers that fit in memory fit in memory.
pub proof fn lemma_patch_ops_fit(source: Seq<u8>, target: Seq<u8>)
    requires
        source.len() <= usize::MAX,
        target.len() <= usize::MAX,
    ensures
        all_fit(patch_ops(source, target)),
{
    let ops = patch_ops(source, target);
    lemma_patch_ops_replay(source, target);
    assert forall|i: int| 0 <= i < ops.len() implies (#[trigger] ops[i]).fits() by {
        lemma_output_within_replay(ops, source, i);
        assert(ops[i].in_range(source));
    }
}

/// The greedy operations are well shaped: short runs stay literal, and
/// literal bytes between two copies are one insert.
pub proof fn lemma_greedy_ops_shape(source: Seq<u8>, target: Seq<u8>, at: int, pending: Seq<u8>)
    requires
        0 <= at <= target.len(),
    ensures
        well_shaped(greedy_ops(source, target, at, pending)),
    decreases target.len() - at,
{
    if at < target.len() {
        let best = best_match(source, target, at, source.len() as int);
        if best.1 >= MIN_MATCH {
            lemma_best_match_is_match(source, target, at, source.len() as int);
            lemma_match_len_agrees(source, best.0, target, at);
            lemma_greedy_ops_shape(source, target, at + best.1, Seq::empty());
            let front = flushed(pending);
            let rest = greedy_ops(source, target, at + best.1, Seq::empty());
            let all = greedy_ops(source, target, at, pending);
            assert forall|i: int| 0 <= i < all.len() implies match #[trigger] all[i] {
                EditOpView::Copy { length, .. } => length >= MIN_MATCH,
                EditOpView::Insert { bytes } => bytes.len() > 0 && (i + 1 < all.len() ==> all[i
                    + 1] is Copy),
            } by {
                if i > front.len() {
                    let j = i - front.len() - 1;
                    assert(all[i] == rest[j]);
                    if i + 1 < all.len() {
                        assert(all[i + 1] == rest[j + 1]);
                    }
                }
            }
        } else {
            lemma_greedy_ops_shape(source, target, at + 1, pending.push(target[at]));
        }
    }
}

/// The operations between two buffers that differ are well shaped.
pub proof fn lemma_patch_ops_shape(source: Seq<u8>, target: Seq<u8>)
    requires
        source != target,
    ensures
        well_shaped(patch_ops(source, target)),
{
    if target.len() > 0 {
        lemma_greedy_ops_shape(source, target, 0, Seq::empty());
    }
}

} // verus!
