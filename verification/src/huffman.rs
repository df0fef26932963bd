use vstd::prelude::*;
use vstd::slice::slice_to_vec;
use crate::error::CodecError;

verus! {

/// Number of byte values, and of entries in a code table.
pub const TABLE_SIZE: usize = 256;

/// How often `byte` occurs in `data`.
pub open spec fn occurrences(data: Seq<u8>, byte: u8) -> nat
    decreases data.len(),
{
    if data.len() == 0 {
        0
    } else {
        occurrences(data.drop_last(), byte) + if data.last() == byte {
            1nat
        } else {
            0nat
        }
    }
}

/// The largest number of occurrences in `data` of any byte value below
/// `limit`.
pub open spec fn most_occurrences_below(data: Seq<u8>, limit: int) -> nat
    decreases limit,
{
    if limit <= 0 {
        0
    } else {
        let before = most_occurrences_below(data, limit - 1);
        let here = occurrences(data, (limit - 1) as u8);
        if here > before {
            here
        } else {
            before
        }
    }
}

/// The number of occurrences of the most frequent byte value of `data`.
pub open spec fn most_occurrences(data: Seq<u8>) -> nat {
    most_occurrences_below(data, TABLE_SIZE as int)
}

/// The weight of a byte value that occurs `count` times where the most
/// frequent one occurs `most` times: 0 for a value that does not occur,
/// else its share of 255, rounded down but never below 1.
pub open spec fn scaled_weight(count: nat, most: nat) -> u8 {
    if count == 0 {
        0
    } else if count * 255 / most < 1 {
        1
    } else {
        (count * 255 / most) as u8
    }
}

/// The code table of `data`: for each byte value its weight.
pub open spec fn weight_table(data: Seq<u8>) -> Seq<u8> {
    Seq::new(
        TABLE_SIZE as nat,
        |value: int| scaled_weight(occurrences(data, value as u8), most_occurrences(data)),
    )
}

/// The number of byte values below `limit` that have a weight in `table`.
pub open spec fn symbols_below(table: Seq<u8>, limit: int) -> nat
    decreases limit,
{
    if limit <= 0 {
        0
    } else {
        symbols_below(table, limit - 1) + if table[limit - 1] != 0 {
            1nat
        } else {
            0nat
        }
    }
}

/// The number of byte values that have a code under `table`.
pub open spec fn symbol_count(table: Seq<u8>) -> nat {
    symbols_below(table, table.len() as int)
}

/// Whether every byte of `data` has a code under `table`.
pub open spec fn covers(table: Seq<u8>, data: Seq<u8>) -> bool {
    forall|i: int| 0 <= i < data.len() ==> table[#[trigger] data[i] as int] != 0
}

/// The table from which the code tree is grown. It is `table` itself but
/// where `table` has a single symbol: a tree of one leaf would give that
/// symbol the empty code, so it gets a partner of the least weight, and with
/// it a code of one bit. The partner is byte value 0, or 1 where 0 is the
/// symbol.
pub open spec fn tree_table(table: Seq<u8>) -> Seq<u8> {
    if symbol_count(table) != 1 {
        table
    } else if table[0] != 0 {
        table.update(1, 1)
    } else {
        table.update(0, 1)
    }
}

/// Whether `stream` ends as a packed stream does: with a byte that counts
/// the bits used of the byte before it, from 1 to 8.
pub open spec fn framed(stream: Seq<u8>) -> bool {
    stream.len() >= 1 && 1 <= stream.last() <= 8
}

/// The packed stream that the coder writes for `data` with the code tree
/// grown from `table`.
pub uninterp spec fn huffman_stream(table: Seq<u8>, data: Seq<u8>) -> Seq<u8>;

/// The bytes that the coder reads from `stream` with the code tree grown
/// from `table`, or `None` where the stream ends inside a code.
pub uninterp spec fn huffman_symbols(table: Seq<u8>, stream: Seq<u8>) -> Option<Seq<u8>>;

/// The stream that [`pack`] gives for `data` under `table`.
pub open spec fn packed(table: Seq<u8>, data: Seq<u8>) -> Seq<u8> {
    if symbol_count(table) == 0 {
        Seq::empty()
    } else {
        huffman_stream(tree_table(table), data)
    }
}

/// What becomes of the bytes that the coder read: they are the result where
/// each of them has a code under `table`; anything else is a mismatch of
/// stream and table.
pub open spec fn accepted(table: Seq<u8>, symbols: Option<Seq<u8>>) -> Result<
    Seq<u8>,
    CodecError,
> {
    match symbols {
        Some(bytes) => if covers(table, bytes) {
            Ok(bytes)
        } else {
            Err(CodecError::CodeMismatch)
        },
        None => Err(CodecError::CodeMismatch),
    }
}

/// The value of what the coder read.
pub open spec fn read_view(symbols: Option<Vec<u8>>) -> Option<Seq<u8>> {
    match symbols {
        Some(bytes) => Some(bytes@),
        None => None,
    }
}

/// What [`unpack`] gives for `stream` under `table`.
pub open spec fn unpacked(table: Seq<u8>, stream: Seq<u8>) -> Result<Seq<u8>, CodecError> {
    if symbol_count(table) == 0 {
        if stream.len() == 0 {
            Ok(Seq::empty())
        } else {
            Err(CodecError::CodeMismatch)
        }
    } else if !framed(stream) {
        Err(CodecError::CodeMismatch)
    } else {
        accepted(table, huffman_symbols(tree_table(table), stream))
    }
}

/// No byte value occurs more often than the most frequent one.
pub proof fn lemma_most_occurrences_bounds(data: Seq<u8>, byte: u8, limit: int)
    requires
        byte < limit <= TABLE_SIZE,
    ensures
        occurrences(data, byte) <= most_occurrences_below(data, limit),
    decreases limit,
{
    if byte < limit - 1 {
        lemma_most_occurrences_bounds(data, byte, limit - 1);
    }
}

/// No byte value occurs more often than `data` is long.
pub proof fn lemma_occurrences_at_most_len(data: Seq<u8>, byte: u8)
    ensures
        occurrences(data, byte) <= data.len(),
    decreases data.len(),
{
    if data.len() > 0 {
        lemma_occurrences_at_most_len(data.drop_last(), byte);
    }
}

/// The most frequent byte value occurs at most as often as `data` is long.
pub proof fn lemma_most_occurrences_at_most_len(data: Seq<u8>, limit: int)
    requires
        limit <= TABLE_SIZE,
    ensures
        most_occurrences_below(data, limit) <= data.len(),
    decreases limit,
{
    if limit > 0 {
        lemma_most_occurrences_at_most_len(data, limit - 1);
        lemma_occurrences_at_most_len(data, (limit - 1) as u8);
    }
}

/// A byte that is in `data` occurs in it.
pub proof fn lemma_occurs(data: Seq<u8>, i: int)
    requires
        0 <= i < data.len(),
    ensures
        occurrences(data, data[i]) >= 1,
    decreases data.len(),
{
    if i < data.len() - 1 {
        lemma_occurs(data.drop_last(), i);
    }
}

/// A byte value has a weight in the table exactly when it occurs.
pub proof fn lemma_weight_positive(data: Seq<u8>, byte: u8)
    ensures
        weight_table(data)[byte as int] != 0 <==> occurrences(data, byte) > 0,
{
    let count = occurrences(data, byte);
    let most = most_occurrences(data);
    lemma_most_occurrences_bounds(data, byte, TABLE_SIZE as int);
    if count > 0 {
        assert(count * 255 / most <= 255) by (nonlinear_arith)
            requires
                0 < count <= most,
        ;
    }
}

/// The table of a buffer has a code for every byte of the buffer.
pub proof fn lemma_weight_table_covers(data: Seq<u8>)
    ensures
        covers(weight_table(data), data),
{
    assert forall|i: int| 0 <= i < data.len() implies weight_table(data)[#[trigger] data[i]
        as int] != 0 by {
        lemma_occurs(data, i);
        lemma_weight_positive(data, data[i]);
    }
}

/// A weight at `at` is counted among the symbols below any later limit.
proof fn lemma_symbol_counted(table: Seq<u8>, at: int, limit: int)
    requires
        0 <= at < limit,
        table[at] != 0,
    ensures
        symbols_below(table, limit) >= symbols_below(table, at) + 1,
    decreases limit,
{
    if at < limit - 1 {
        lemma_symbol_counted(table, at, limit - 1);
    }
}

/// Giving a weight to a byte value that had none adds one symbol.
proof fn lemma_symbol_added(table: Seq<u8>, at: int, weight: u8, limit: int)
    requires
        0 <= at < table.len(),
        0 <= limit <= table.len(),
        table[at] == 0,
        weight != 0,
    ensures
        symbols_below(table.update(at, weight), limit) == symbols_below(table, limit) + if at
            < limit {
            1nat
        } else {
            0nat
        },
    decreases limit,
{
    if limit > 0 {
        lemma_symbol_added(table, at, weight, limit - 1);
    }
}

/// A table without weights has no symbols.
proof fn lemma_no_symbols(table: Seq<u8>, limit: int)
    requires
        forall|value: int| 0 <= value < limit ==> table[value] == 0,
    ensures
        symbols_below(table, limit) == 0,
    decreases limit,
{
    if limit > 0 {
        lemma_no_symbols(table, limit - 1);
    }
}

/// The table from which the tree is grown has two symbols at least, so that
/// no symbol gets the empty code, and it keeps every symbol of `table`.
pub proof fn lemma_tree_table(table: Seq<u8>)
    requires
        table.len() == TABLE_SIZE,
        symbol_count(table) >= 1,
    ensures
        tree_table(table).len() == TABLE_SIZE,
        symbol_count(tree_table(table)) >= 2,
        forall|value: int|
            0 <= value < TABLE_SIZE && table[value] != 0 ==> #[trigger] tree_table(table)[value]
                != 0,
{
    if symbol_count(table) == 1 {
        if table[0] != 0 {
            if table[1] != 0 {
                lemma_symbol_counted(table, 1, TABLE_SIZE as int);
                reveal_with_fuel(symbols_below, 2);
            }
            lemma_symbol_added(table, 1, 1, TABLE_SIZE as int);
        } else {
            lemma_symbol_added(table, 0, 1, TABLE_SIZE as int);
        }
    }
}

/// A Huffman code for bytes, held as its code table: one weight for each
/// byte value, 0 for a value that has no code. The table alone fixes the
/// code tree, and with it every code.
#[derive(Debug)]
pub struct HuffmanCode {
    weights: Vec<u8>,
}

impl View for HuffmanCode {
    type V = Seq<u8>;

    closed spec fn view(&self) -> Seq<u8> {
        self.weights@
    }
}

impl HuffmanCode {
    #[verifier::type_invariant]
    spec fn well_formed(&self) -> bool {
        self.weights@.len() == TABLE_SIZE
    }

    /// The code table, as it is stored beside a packed stream.
    pub fn to_table(&self) -> (table: Vec<u8>)
        ensures
            table@ == self@,
            table@.len() == TABLE_SIZE,
    {
        proof {
            use_type_invariant(self);
        }
        slice_to_vec(self.weights.as_slice())
    }

    /// The code of a stored table, or `None` where `table` does not have
    /// one entry for each byte value.
    pub fn from_table(table: &[u8]) -> (code: Option<HuffmanCode>)
        ensures
            code is Some <==> table@.len() == TABLE_SIZE,
            code matches Some(c) ==> c@ == table@,
    {
        if table.len() == TABLE_SIZE {
            Some(HuffmanCode { weights: slice_to_vec(table) })
        } else {
            None
        }
    }

    /// Whether `byte` has a code.
    pub fn contains(&self, byte: u8) -> (found: bool)
        ensures
            self@.len() == TABLE_SIZE,
            found == (self@[byte as int] != 0),
    {
        proof {
            use_type_invariant(self);
        }
        self.weights[byte as usize] != 0
    }

    /// The number of byte values that have a code.
    pub fn symbol_count(&self) -> (count: usize)
        ensures
            self@.len() == TABLE_SIZE,
            count == symbol_count(self@),
    {
        proof {
            use_type_invariant(self);
        }
        let mut count: usize = 0;
        let mut value: usize = 0;
        while value < TABLE_SIZE
            invariant
                value <= TABLE_SIZE,
                self.weights@.len() == TABLE_SIZE,
                count == symbols_below(self.weights@, value as int),
                count <= value,
            decreases TABLE_SIZE - value,
        {
            if self.weights[value] != 0 {
                count += 1;
            }
            value += 1;
        }
        count
    }

    /// Whether every byte of `data` has a code.
    pub fn covers(&self, data: &[u8]) -> (all: bool)
        ensures
            all == covers(self@, data@),
    {
        proof {
            use_type_invariant(self);
        }
        let mut i: usize = 0;
        while i < data.len()
            invariant
                i <= data@.len(),
                self.weights@.len() == TABLE_SIZE,
                forall|j: int| 0 <= j < i ==> self.weights@[#[trigger] data@[j] as int] != 0,
            decreases data@.len() - i,
        {
            if self.weights[data[i] as usize] == 0 {
                return false;
            }
            i += 1;
        }
        true
    }

    /// The table from which the code tree is grown, see [`tree_table`].
    fn tree_weights(&self) -> (table: Vec<u8>)
        requires
            symbol_count(self@) >= 1,
        ensures
            table@ == tree_table(self@),
            table@.len() == TABLE_SIZE,
            symbol_count(table@) >= 2,
    {
        proof {
            use_type_invariant(self);
            lemma_tree_table(self@);
        }
        let mut table = slice_to_vec(self.weights.as_slice());
        if self.symbol_count() == 1 {
            if table[0] != 0 {
                table.set(1, 1);
            } else {
                table.set(0, 1);
            }
        }
        table
    }
}

/// Calls `huffman_coding::HuffmanTree::from_data` on `data` and reads the
/// tree's table with `huffman_coding::HuffmanTree::to_table`.
///
/// Believed of them: the table has 256 entries, and the entry of a byte
/// value is its number of occurrences in `data` times 255, divided by the
/// number of occurrences of the most frequent value and rounded down, but 1
/// at least for a value that occurs. `from_data` panics on fewer than two
/// distinct byte values, and its scaling overflows on a count above a 255th
/// of the machine word; neither is asked of it.
#[verifier::external_body]
fn table_from_data(data: &[u8]) -> (table: Vec<u8>)
    requires
        exists|i: int, j: int| 0 <= i < data@.len() && 0 <= j < data@.len() && data@[i] != data@[j],
        data@.len() * 255 <= usize::MAX,
    ensures
        table@ == weight_table(data@),
{
    huffman_coding::HuffmanTree::from_data(data).to_table().to_vec()
}

/// Grows the tree of `table` with `huffman_coding::HuffmanTree::from_table`
/// and writes `data` through a `huffman_coding::HuffmanWriter` on it, which
/// ends the stream when it is dropped.
///
/// Believed of them: what is written depends on `table` and `data` alone;
/// it is given the name [`huffman_stream`]. `from_table` panics on a table
/// shorter than 256 entries or with fewer than two symbols, and the writer
/// fails on a byte without a code; none of this is asked of them.
#[verifier::external_body]
fn write_with_table(table: &[u8], data: &[u8]) -> (stream: Vec<u8>)
    requires
        table@.len() == TABLE_SIZE,
        symbol_count(table@) >= 2,
        covers(table@, data@),
    ensures
        stream@ == huffman_stream(table@, data@),
{
    let tree = huffman_coding::HuffmanTree::from_table(table);
    let mut stream = Vec::new();
    {
        let mut writer = huffman_coding::HuffmanWriter::new(&mut stream, &tree);
        let _ = std::io::Write::write(&mut writer, data);
    }
    stream
}

/// Grows the tree of `table` with `huffman_coding::HuffmanTree::from_table`
/// and reads `stream` to its end through a `huffman_coding::HuffmanReader`.
///
/// Believed of them: whether the reader fails, and what it reads where it
/// does not, depends on `table` and `stream` alone; it is given the name
/// [`huffman_symbols`]. `from_table` panics as said at [`write_with_table`],
/// and the reader panics on a stream that is empty or whose last byte is
/// not a bit count from 1 to 8; none of this is asked of them.
#[verifier::external_body]
fn read_with_table(table: &[u8], stream: &[u8]) -> (symbols: Option<Vec<u8>>)
    requires
        table@.len() == TABLE_SIZE,
        symbol_count(table@) >= 2,
        framed(stream@),
    ensures
        match symbols {
            Some(bytes) => huffman_symbols(table@, stream@) == Some(bytes@),
            None => huffman_symbols(table@, stream@) is None,
        },
{
    let tree = huffman_coding::HuffmanTree::from_table(table);
    let mut reader = huffman_coding::HuffmanReader::new(stream, tree);
    let mut symbols = Vec::new();
    match std::io::Read::read_to_end(&mut reader, &mut symbols) {
        Ok(_) => Some(symbols),
        Err(_) => None,
    }
}

/// Builds the Huffman code of `data`.
///
/// The code's table is [`weight_table`] of `data`: it depends on nothing
/// but how often each byte value occurs. Empty data gives the empty code,
/// and data of a single byte value a code with that one symbol.
pub fn build(data: &[u8]) -> (code: HuffmanCode)
    requires
        data@.len() * 255 <= usize::MAX,
    ensures
        code@ == weight_table(data@),
{
    let mut i: usize = 1;
    while i < data.len()
        invariant
            1 <= i,
            data@.len() * 255 <= usize::MAX,
            forall|j: int| 0 <= j < i && j < data@.len() ==> #[trigger] data@[j] == data@[0],
        decreases data@.len() - i,
    {
        if data[i] != data[0] {
            let table = table_from_data(data);
            return HuffmanCode { weights: table };
        }
        i += 1;
    }
    let mut table: Vec<u8> = Vec::new();
    let mut value: usize = 0;
    while value < TABLE_SIZE
        invariant
            value <= TABLE_SIZE,
            table@.len() == value,
            forall|v: int| 0 <= v < value ==> table@[v] == 0,
        decreases TABLE_SIZE - value,
    {
        table.push(0);
        value += 1;
    }
    if data.len() > 0 {
        table.set(data[0] as usize, 255);
    }
    proof {
        lemma_weight_table_uniform(data@);
        assert(table@ =~= weight_table(data@));
    }
    HuffmanCode { weights: table }
}

/// The table of data that holds one byte value only, or nothing: weight
/// 255 for that value, and no other weight.
pub proof fn lemma_weight_table_uniform(data: Seq<u8>)
    requires
        forall|j: int| 0 <= j < data.len() ==> #[trigger] data[j] == data[0],
    ensures
        forall|value: int|
            0 <= value < TABLE_SIZE ==> #[trigger] weight_table(data)[value] == if data.len() > 0
                && value == data[0] {
                255u8
            } else {
                0u8
            },
{
    assert forall|value: int| 0 <= value < TABLE_SIZE implies #[trigger] weight_table(
        data,
    )[value] == if data.len() > 0 && value == data[0] {
        255u8
    } else {
        0u8
    } by {
        lemma_occurrences_uniform(data, value as u8);
        if data.len() > 0 && value == data[0] {
            let len = data.len();
            lemma_most_occurrences_bounds(data, data[0], TABLE_SIZE as int);
            lemma_most_occurrences_at_most_len(data, TABLE_SIZE as int);
            assert(len * 255 / len == 255) by (nonlinear_arith)
                requires
                    len > 0,
            ;
        }
    }
}

/// In data that holds one byte value only, that value occurs as often as
/// the data is long, and no other value occurs.
proof fn lemma_occurrences_uniform(data: Seq<u8>, byte: u8)
    requires
        forall|j: int| 0 <= j < data.len() ==> #[trigger] data[j] == data[0],
    ensures
        occurrences(data, byte) == if data.len() > 0 && byte == data[0] {
            data.len()
        } else {
            0
        },
    decreases data.len(),
{
    if data.len() > 0 {
        let front = data.drop_last();
        assert forall|j: int| 0 <= j < front.len() implies #[trigger] front[j] == front[0] by {
            assert(front[j] == data[j]);
            assert(front[0] == data[0]);
        }
        lemma_occurrences_uniform(front, byte);
        if front.len() > 0 {
            assert(front[0] == data[0]);
        }
    }
}

/// Packs `data` with `code`.
///
/// The stream is [`packed`] of the code's table and `data`: nothing for
/// the empty code, else what the coder writes with the tree of the table.
pub fn pack(data: &[u8], code: &HuffmanCode) -> (stream: Vec<u8>)
    requires
        covers(code@, data@),
    ensures
        stream@ == packed(code@, data@),
{
    if code.symbol_count() == 0 {
        return Vec::new();
    }
    let table = code.tree_weights();
    proof {
        lemma_tree_table(code@);
        assert forall|i: int| 0 <= i < data@.len() implies table@[#[trigger] data@[i] as int]
            != 0 by {
            assert(code@[data@[i] as int] != 0);
        }
    }
    write_with_table(table.as_slice(), data)
}

/// Decides what becomes of the bytes that the coder read from a stream.
///
/// They are returned where the coder did read the stream to its end and
/// each byte has a code under `code`; anything else is a
/// [`CodecError::CodeMismatch`].
pub fn accept_symbols(code: &HuffmanCode, symbols: Option<Vec<u8>>) -> (result: Result<
    Vec<u8>,
    CodecError,
>)
    ensures
        match result {
            Ok(bytes) => accepted(code@, read_view(symbols)) == Ok::<Seq<u8>, CodecError>(bytes@),
            Err(e) => accepted(code@, read_view(symbols)) == Err::<Seq<u8>, CodecError>(e),
        },
{
    match symbols {
        Some(bytes) => {
            if code.covers(bytes.as_slice()) {
                Ok(bytes)
            } else {
                Err(CodecError::CodeMismatch)
            }
        },
        None => Err(CodecError::CodeMismatch),
    }
}

/// Unpacks `stream` with `code`.
///
/// The result is [`unpacked`] of the code's table and `stream`. Under the
/// empty code only the empty stream unpacks, to nothing. Under any other
/// code the stream has to end in a bit count, the coder has to read it to
/// its end, and what it read has to be bytes of the code; anything else is
/// a [`CodecError::CodeMismatch`].
pub fn unpack(stream: &[u8], code: &HuffmanCode) -> (result: Result<Vec<u8>, CodecError>)
    ensures
        match result {
            Ok(bytes) => unpacked(code@, stream@) == Ok::<Seq<u8>, CodecError>(bytes@),
            Err(e) => unpacked(code@, stream@) == Err::<Seq<u8>, CodecError>(e),
        },
{
    if code.symbol_count() == 0 {
        if stream.len() == 0 {
            return Ok(Vec::new());
        }
        return Err(CodecError::CodeMismatch);
    }
    let len: usize = stream.len();
    if len == 0 || stream[len - 1] < 1 || stream[len - 1] > 8 {
        return Err(CodecError::CodeMismatch);
    }
    let table = code.tree_weights();
    let symbols = read_with_table(table.as_slice(), stream);
    accept_symbols(code, symbols)
}

/// Compresses `bytes`: builds their Huffman code and packs them with it.
///
/// Returns the packed stream and the code. The two belong together: the
/// stream unpacks under this code only.
pub fn compress(bytes: &[u8]) -> (out: (Vec<u8>, HuffmanCode))
    requires
        bytes@.len() * 255 <= usize::MAX,
    ensures
        out.1@ == weight_table(bytes@),
        out.0@ == packed(weight_table(bytes@), bytes@),
{
    let code = build(bytes);
    proof {
        lemma_weight_table_covers(bytes@);
    }
    let stream = pack(bytes, &code);
    (stream, code)
}

/// The number of occurrences of a byte value is its count in the multiset
/// of the bytes.
pub proof fn lemma_occurrences_is_count(data: Seq<u8>, byte: u8)
    ensures
        occurrences(data, byte) == data.to_multiset().count(byte),
    decreases data.len(),
{
    broadcast use vstd::seq_lib::group_to_multiset_ensures;

    if data.len() == 0 {
        assert(data.to_multiset().len() == 0);
        if data.to_multiset().count(byte) > 0 {
            assert(data.to_multiset().contains(byte));
        }
    } else {
        let front = data.drop_last();
        lemma_occurrences_is_count(front, byte);
        assert(data =~= front.push(data.last()));
        assert(data.to_multiset() =~= front.to_multiset().insert(data.last()));
    }
}

/// Two buffers that hold the same bytes equally often, in whatever order,
/// have the same code table.
pub proof fn lemma_weight_table_of_counts(a: Seq<u8>, b: Seq<u8>)
    requires
        a.to_multiset() == b.to_multiset(),
    ensures
        weight_table(a) == weight_table(b),
{
    assert forall|byte: u8| occurrences(a, byte) == occurrences(b, byte) by {
        lemma_occurrences_is_count(a, byte);
        lemma_occurrences_is_count(b, byte);
    }
    lemma_most_occurrences_of_counts(a, b, TABLE_SIZE as int);
    assert(weight_table(a) =~= weight_table(b));
}

/// Buffers in which every byte value occurs equally often have the same
/// largest number of occurrences.
proof fn lemma_most_occurrences_of_counts(a: Seq<u8>, b: Seq<u8>, limit: int)
    requires
        forall|byte: u8| occurrences(a, byte) == occurrences(b, byte),
    ensures
        most_occurrences_below(a, limit) == most_occurrences_below(b, limit),
    decreases limit,
{
    if limit > 0 {
        lemma_most_occurrences_of_counts(a, b, limit - 1);
    }
}

/// Unpacking inverts packing as far as the coder's reader inverts its
/// writer: where the reader, given the stream that the writer wrote for
/// `data`, reads `data` back from it, [`unpack`] returns `data` for what
/// [`pack`] returned. Under the empty code nothing is asked of the coder.
pub proof fn lemma_unpack_inverts_pack(table: Seq<u8>, data: Seq<u8>)
    requires
        table.len() == TABLE_SIZE,
        covers(table, data),
    ensures
        symbol_count(table) == 0 ==> unpacked(table, packed(table, data)) == Ok::<
            Seq<u8>,
            CodecError,
        >(data),
        framed(huffman_stream(tree_table(table), data)) && huffman_symbols(
            tree_table(table),
            huffman_stream(tree_table(table), data),
        ) == Some(data) ==> unpacked(table, packed(table, data)) == Ok::<Seq<u8>, CodecError>(
            data,
        ),
{
    if symbol_count(table) == 0 {
        if data.len() > 0 {
            assert(table[data[0] as int] != 0);
            lemma_symbol_counted(table, data[0] as int, TABLE_SIZE as int);
        }
        assert(data =~= Seq::<u8>::empty());
    }
}

/// Data that holds one byte value only gets a code with that one symbol,
/// and a tree with two: the symbol's code is one bit long, never empty.
pub proof fn lemma_single_value_code(data: Seq<u8>)
    requires
        data.len() > 0,
        forall|j: int| 0 <= j < data.len() ==> #[trigger] data[j] == data[0],
    ensures
        symbol_count(weight_table(data)) == 1,
        weight_table(data)[data[0] as int] == 255,
        symbol_count(tree_table(weight_table(data))) == 2,
        tree_table(weight_table(data))[data[0] as int] == 255,
{
    let table = weight_table(data);
    let blank = Seq::new(TABLE_SIZE as nat, |value: int| 0u8);
    lemma_weight_table_uniform(data);
    assert(table =~= blank.update(data[0] as int, 255));
    lemma_no_symbols(blank, TABLE_SIZE as int);
    lemma_symbol_added(blank, data[0] as int, 255, TABLE_SIZE as int);
    if table[0] != 0 {
        lemma_symbol_added(table, 1, 1, TABLE_SIZE as int);
    } else {
        lemma_symbol_added(table, 0, 1, TABLE_SIZE as int);
    }
}

} // verus!
