//! The key-value tree: keys, values, reads and writes.
//!
//! Keys and values are held as what they stand for. Turning them into bytes and
//! back is left to the program around the library.

use vstd::prelude::*;

use crate::changelog::ChangelogError;
use crate::piece_text::{AddressView, PieceTextAddress};

verus! {

/// The table of pieces.
pub open spec fn piece_table() -> Seq<char> {
    "_piecetext_pieces"@
}

/// The table of buffers.
pub open spec fn buffer_table() -> Seq<char> {
    "_piecetext_buffers"@
}

pub fn piece_table_name() -> (s: String)
    ensures
        s@ == piece_table(),
{
    "_piecetext_pieces".to_owned()
}

pub fn buffer_table_name() -> (s: String)
    ensures
        s@ == buffer_table(),
{
    "_piecetext_buffers".to_owned()
}

/// A value that rows are indexed by.
#[derive(Clone, Debug, PartialEq, Eq)]
pub enum IndexValue {
    Int(i64),
    Text(String),
    Other(Vec<u8>),
}

pub enum IndexValueView {
    Int(i64),
    Text(Seq<char>),
    Other(Seq<u8>),
}

impl View for IndexValue {
    type V = IndexValueView;

    open spec fn view(&self) -> IndexValueView {
        match *self {
            IndexValue::Int(i) => IndexValueView::Int(i),
            IndexValue::Text(s) => IndexValueView::Text(s@),
            IndexValue::Other(b) => IndexValueView::Other(b@),
        }
    }
}

/// A key of the tree.
#[derive(Clone, Debug, PartialEq, Eq)]
pub enum StorageKey {
    /// A cell of a table.
    Column { table: String, row_id: i64, column: String },
    /// An entry of a column's index.
    Index { table: String, column: String, value: IndexValue, row_id: i64 },
    /// The first and the last row of a document, and the cell it belongs to.
    PieceHead { list_number: i64 },
    PieceTail { list_number: i64 },
    PieceParent { list_number: i64 },
    /// The next free row id of a table.
    NextId { table: String },
    /// Where the manifests of changes are kept.
    PieceTextEdit { address: PieceTextAddress, op_id: [u8; 16] },
    PieceTextCleanupPieces { address: PieceTextAddress, op_id: i64 },
    PieceTextCleanupBuffers { address: PieceTextAddress, op_id: i64 },
    /// A key of another kind.
    Other(Vec<u8>),
    /// Bytes that are no key, and what the parser of keys said of them.
    Malformed { raw: Vec<u8>, reason: String },
}

pub enum KeyView {
    Column { table: Seq<char>, row_id: i64, column: Seq<char> },
    Index { table: Seq<char>, column: Seq<char>, value: IndexValueView, row_id: i64 },
    PieceHead { list_number: i64 },
    PieceTail { list_number: i64 },
    PieceParent { list_number: i64 },
    NextId { table: Seq<char> },
    PieceTextEdit { address: AddressView, op_id: Seq<u8> },
    PieceTextCleanupPieces { address: AddressView, op_id: i64 },
    PieceTextCleanupBuffers { address: AddressView, op_id: i64 },
    Other(Seq<u8>),
    Malformed { raw: Seq<u8>, reason: Seq<char> },
}

impl View for StorageKey {
    type V = KeyView;

    open spec fn view(&self) -> KeyView {
        match *self {
            StorageKey::Column { table, row_id, column } => KeyView::Column {
                table: table@,
                row_id,
                column: column@,
            },
            StorageKey::Index { table, column, value, row_id } => KeyView::Index {
                table: table@,
                column: column@,
                value: value@,
                row_id,
            },
            StorageKey::PieceHead { list_number } => KeyView::PieceHead { list_number },
            StorageKey::PieceTail { list_number } => KeyView::PieceTail { list_number },
            StorageKey::PieceParent { list_number } => KeyView::PieceParent { list_number },
            StorageKey::NextId { table } => KeyView::NextId { table: table@ },
            StorageKey::PieceTextEdit { address, op_id } => KeyView::PieceTextEdit {
                address: address@,
                op_id: op_id@,
            },
            StorageKey::PieceTextCleanupPieces { address, op_id } => KeyView::PieceTextCleanupPieces {
                address: address@,
                op_id,
            },
            StorageKey::PieceTextCleanupBuffers { address, op_id } => KeyView::PieceTextCleanupBuffers {
                address: address@,
                op_id,
            },
            StorageKey::Other(b) => KeyView::Other(b@),
            StorageKey::Malformed { raw, reason } => KeyView::Malformed { raw: raw@, reason: reason@ },
        }
    }
}

/// A value of the tree.
#[derive(Clone, Debug, PartialEq, Eq)]
pub enum StoredValue {
    /// A stored integer or text, or a stored value of another type.
    Int(i64),
    Text(String),
    Other(Vec<u8>),
    /// The row that an index entry points to.
    RowId(i64),
    /// The cell that a document belongs to.
    Parent(PieceTextAddress),
    /// Bytes that hold none of these.
    Raw(Vec<u8>),
}

pub enum ValueView {
    Int(i64),
    Text(Seq<char>),
    Other(Seq<u8>),
    RowId(i64),
    Parent(AddressView),
    Raw(Seq<u8>),
}

impl View for StoredValue {
    type V = ValueView;

    open spec fn view(&self) -> ValueView {
        match *self {
            StoredValue::Int(i) => ValueView::Int(i),
            StoredValue::Text(s) => ValueView::Text(s@),
            StoredValue::Other(b) => ValueView::Other(b@),
            StoredValue::RowId(i) => ValueView::RowId(i),
            StoredValue::Parent(a) => ValueView::Parent(a@),
            StoredValue::Raw(b) => ValueView::Raw(b@),
        }
    }
}

/// One write to the tree.
#[derive(Clone, Debug, PartialEq, Eq)]
pub enum BatchOp {
    Put { key: StorageKey, value: StoredValue },
    Delete { key: StorageKey },
}

pub enum BatchOpView {
    Put { key: KeyView, value: ValueView },
    Delete { key: KeyView },
}

impl View for BatchOp {
    type V = BatchOpView;

    open spec fn view(&self) -> BatchOpView {
        match *self {
            BatchOp::Put { key, value } => BatchOpView::Put { key: key@, value: value@ },
            BatchOp::Delete { key } => BatchOpView::Delete { key: key@ },
        }
    }
}

impl BatchOpView {
    /// The key that is written.
    pub open spec fn key(self) -> KeyView {
        match self {
            BatchOpView::Put { key, .. } => key,
            BatchOpView::Delete { key } => key,
        }
    }
}

impl BatchOp {
    /// The key that is written.
    pub fn key(&self) -> (k: &StorageKey)
        ensures
            k@ == self@.key(),
    {
        match self {
            BatchOp::Put { key, .. } => key,
            BatchOp::Delete { key } => key,
        }
    }
}

/// The views of several writes.
pub open spec fn batch_view(ops: Seq<BatchOp>) -> Seq<BatchOpView> {
    ops.map_values(|op: BatchOp| op@)
}

/// One read of the tree: one key, one key with its value left as bytes, or the
/// entries of an index for one value.
#[derive(Clone, Debug, PartialEq, Eq)]
pub enum ReadOp {
    Key(StorageKey),
    Bytes(StorageKey),
    IndexValue { table: String, column: String, value: IndexValue },
}

pub enum ReadOpView {
    Key(KeyView),
    Bytes(KeyView),
    IndexValue { table: Seq<char>, column: Seq<char>, value: IndexValueView },
}

impl View for ReadOp {
    type V = ReadOpView;

    open spec fn view(&self) -> ReadOpView {
        match *self {
            ReadOp::Key(k) => ReadOpView::Key(k@),
            ReadOp::Bytes(k) => ReadOpView::Bytes(k@),
            ReadOp::IndexValue { table, column, value } => ReadOpView::IndexValue {
                table: table@,
                column: column@,
                value: value@,
            },
        }
    }
}

/// The keys and values that a read returned.
#[derive(Clone, Debug, PartialEq, Eq)]
pub struct ProvenRead {
    pub results: Vec<(StorageKey, StoredValue)>,
}

impl View for ProvenRead {
    type V = Seq<(KeyView, ValueView)>;

    open spec fn view(&self) -> Seq<(KeyView, ValueView)> {
        self.results@.map_values(|kv: (StorageKey, StoredValue)| (kv.0@, kv.1@))
    }
}

/// What a reader answers to each read.
pub type Answers = spec_fn(ReadOpView) -> Result<Seq<(KeyView, ValueView)>, ChangelogError>;

/// Reads of one state of the tree.
///
/// A reader answers as it likes, and may fail: nothing is taken for granted of
/// what an answer holds. It answers from one state, so the same read has the
/// same answer however often it is made.
///
/// A verified reader overrides `answers` and `log`: of their defaults nothing is
/// known, so what `read` ensures cannot be shown of them.
pub trait OpReader {
    /// The answers that the reader gives. A reader that is not verified leaves
    /// them unsaid.
    open spec fn answers(&self) -> Answers {
        arbitrary()
    }

    /// The reads that were made, in order. A reader that is not verified leaves
    /// them unsaid.
    open spec fn log(&self) -> Seq<ReadOpView> {
        arbitrary()
    }

    fn read(&mut self, op: ReadOp) -> (r: Result<ProvenRead, ChangelogError>)
        ensures
            final(self).answers() == old(self).answers(),
            final(self).log() == old(self).log().push(op@),
            match (old(self).answers())(op@) {
                Ok(results) => r matches Ok(read) && read@ == results,
                Err(e) => r == Err::<ProvenRead, ChangelogError>(e),
            },
    ;
}

/// A reader that had made the reads `before` made those `wanted`, all of them
/// where `all` is set and else up to some point, and no others.
pub open spec fn made(before: Seq<ReadOpView>, after: Seq<ReadOpView>, wanted: Seq<ReadOpView>, all: bool) -> bool {
    &&& before.is_prefix_of(after)
    &&& after.is_prefix_of(before + wanted)
    &&& all ==> after == before + wanted
}

pub proof fn lemma_made_none(log: Seq<ReadOpView>, wanted: Seq<ReadOpView>)
    ensures
        made(log, log, wanted, false),
        made(log, log, Seq::empty(), true),
{
    assert((log + wanted).subrange(0, log.len() as int) =~= log);
    assert(log + Seq::<ReadOpView>::empty() =~= log);
}

/// Reads, and then others.
pub proof fn lemma_made_then(
    before: Seq<ReadOpView>,
    middle: Seq<ReadOpView>,
    after: Seq<ReadOpView>,
    first: Seq<ReadOpView>,
    second: Seq<ReadOpView>,
    all: bool,
)
    requires
        made(before, middle, first, true),
        made(middle, after, second, all),
    ensures
        made(before, after, first + second, all),
{
    assert(before + (first + second) =~= middle + second);
    assert(before =~= after.subrange(0, before.len() as int));
}

/// What was read up to some point is so much of a longer list.
pub proof fn lemma_made_up_to(
    before: Seq<ReadOpView>,
    after: Seq<ReadOpView>,
    first: Seq<ReadOpView>,
    second: Seq<ReadOpView>,
    all: bool,
)
    requires
        made(before, after, first, all),
    ensures
        made(before, after, first + second, false),
{
    let whole = before + (first + second);
    assert(whole.subrange(0, after.len() as int) =~= (before + first).subrange(0, after.len() as int));
}

pub proof fn lemma_made_one(before: Seq<ReadOpView>, op: ReadOpView)
    ensures
        made(before, before.push(op), seq![op], true),
{
    assert(before + seq![op] =~= before.push(op));
    assert(before =~= before.push(op).subrange(0, before.len() as int));
    assert(before.push(op) =~= before.push(op).subrange(0, before.push(op).len() as int));
}

// ---------- copies ----------

pub fn clone_bytes(bytes: &Vec<u8>) -> (b: Vec<u8>)
    ensures
        b@ == bytes@,
{
    let mut b: Vec<u8> = Vec::new();
    let mut i: usize = 0;
    while i < bytes.len()
        invariant
            i <= bytes.len(),
            b@ == bytes@.take(i as int),
        decreases bytes.len() - i,
    {
        b.push(bytes[i]);
        assert(bytes@.take(i + 1) =~= bytes@.take(i as int).push(bytes@[i as int]));
        i = i + 1;
    }
    assert(bytes@.take(bytes@.len() as int) =~= bytes@);
    b
}

pub fn clone_index_value(value: &IndexValue) -> (v: IndexValue)
    ensures
        v@ == value@,
{
    match value {
        IndexValue::Int(i) => IndexValue::Int(*i),
        IndexValue::Text(s) => IndexValue::Text(s.clone()),
        IndexValue::Other(b) => IndexValue::Other(clone_bytes(b)),
    }
}

pub fn clone_value(value: &StoredValue) -> (v: StoredValue)
    ensures
        v@ == value@,
{
    match value {
        StoredValue::Int(i) => StoredValue::Int(*i),
        StoredValue::Text(s) => StoredValue::Text(s.clone()),
        StoredValue::Other(b) => StoredValue::Other(clone_bytes(b)),
        StoredValue::RowId(i) => StoredValue::RowId(*i),
        StoredValue::Parent(a) => StoredValue::Parent(
            PieceTextAddress { table: a.table.clone(), row_id: a.row_id, column: a.column.clone() },
        ),
        StoredValue::Raw(b) => StoredValue::Raw(clone_bytes(b)),
    }
}

pub fn clone_key(key: &StorageKey) -> (k: StorageKey)
    ensures
        k@ == key@,
{
    match key {
        StorageKey::Column { table, row_id, column } => StorageKey::Column {
            table: table.clone(),
            row_id: *row_id,
            column: column.clone(),
        },
        StorageKey::Index { table, column, value, row_id } => StorageKey::Index {
            table: table.clone(),
            column: column.clone(),
            value: clone_index_value(value),
            row_id: *row_id,
        },
        StorageKey::PieceHead { list_number } => StorageKey::PieceHead { list_number: *list_number },
        StorageKey::PieceTail { list_number } => StorageKey::PieceTail { list_number: *list_number },
        StorageKey::PieceParent { list_number } => StorageKey::PieceParent {
            list_number: *list_number,
        },
        StorageKey::NextId { table } => StorageKey::NextId { table: table.clone() },
        StorageKey::PieceTextEdit { address, op_id } => StorageKey::PieceTextEdit {
            address: address.duplicate(),
            op_id: *op_id,
        },
        StorageKey::PieceTextCleanupPieces { address, op_id } => StorageKey::PieceTextCleanupPieces {
            address: address.duplicate(),
            op_id: *op_id,
        },
        StorageKey::PieceTextCleanupBuffers { address, op_id } => StorageKey::PieceTextCleanupBuffers {
            address: address.duplicate(),
            op_id: *op_id,
        },
        StorageKey::Other(b) => StorageKey::Other(clone_bytes(b)),
        StorageKey::Malformed { raw, reason } => StorageKey::Malformed {
            raw: clone_bytes(raw),
            reason: reason.clone(),
        },
    }
}

// ---------- comparisons ----------

/// Whether two byte sequences are the same.
pub fn same_bytes(a: &[u8], b: &[u8]) -> (r: bool)
    ensures
        r == (a@ == b@),
{
    if a.len() != b.len() {
        return false;
    }
    let mut i: usize = 0;
    while i < a.len()
        invariant
            a.len() == b.len(),
            i <= a.len(),
            forall|j: int| 0 <= j < i ==> a@[j] == b@[j],
        decreases a.len() - i,
    {
        if a[i] != b[i] {
            return false;
        }
        i = i + 1;
    }
    assert(a@ =~= b@);
    true
}

fn same_op_id(a: &[u8; 16], b: &[u8; 16]) -> (r: bool)
    ensures
        r == (a@ == b@),
{
    let mut i: usize = 0;
    while i < 16
        invariant
            i <= 16,
            forall|j: int| 0 <= j < i ==> a@[j] == b@[j],
        decreases 16 - i,
    {
        if a[i] != b[i] {
            return false;
        }
        i = i + 1;
    }
    assert(a@ =~= b@);
    true
}

/// Whether two index values are the same.
pub fn same_index_value(a: &IndexValue, b: &IndexValue) -> (r: bool)
    ensures
        r == (a@ == b@),
{
    match (a, b) {
        (IndexValue::Int(x), IndexValue::Int(y)) => *x == *y,
        (IndexValue::Text(x), IndexValue::Text(y)) => *x == *y,
        (IndexValue::Other(x), IndexValue::Other(y)) => same_bytes(x, y),
        _ => false,
    }
}

/// Whether two keys are the same.
pub fn same_key(a: &StorageKey, b: &StorageKey) -> (r: bool)
    ensures
        r == (a@ == b@),
{
    match (a, b) {
        (
            StorageKey::Column { table: t1, row_id: r1, column: c1 },
            StorageKey::Column { table: t2, row_id: r2, column: c2 },
        ) => *r1 == *r2 && *t1 == *t2 && *c1 == *c2,
        (
            StorageKey::Index { table: t1, column: c1, value: v1, row_id: r1 },
            StorageKey::Index { table: t2, column: c2, value: v2, row_id: r2 },
        ) => *r1 == *r2 && *t1 == *t2 && *c1 == *c2 && same_index_value(v1, v2),
        (
            StorageKey::PieceHead { list_number: a },
            StorageKey::PieceHead { list_number: b },
        ) => *a == *b,
        (
            StorageKey::PieceTail { list_number: a },
            StorageKey::PieceTail { list_number: b },
        ) => *a == *b,
        (
            StorageKey::PieceParent { list_number: a },
            StorageKey::PieceParent { list_number: b },
        ) => *a == *b,
        (StorageKey::NextId { table: a }, StorageKey::NextId { table: b }) => *a == *b,
        (
            StorageKey::PieceTextEdit { address: a1, op_id: o1 },
            StorageKey::PieceTextEdit { address: a2, op_id: o2 },
        ) => a1.same(a2) && same_op_id(o1, o2),
        (
            StorageKey::PieceTextCleanupPieces { address: a1, op_id: o1 },
            StorageKey::PieceTextCleanupPieces { address: a2, op_id: o2 },
        ) => a1.same(a2) && *o1 == *o2,
        (
            StorageKey::PieceTextCleanupBuffers { address: a1, op_id: o1 },
            StorageKey::PieceTextCleanupBuffers { address: a2, op_id: o2 },
        ) => a1.same(a2) && *o1 == *o2,
        (StorageKey::Other(a), StorageKey::Other(b)) => same_bytes(a, b),
        (
            StorageKey::Malformed { raw: a, reason: r },
            StorageKey::Malformed { raw: b, reason: q },
        ) => same_bytes(a, b) && *r == *q,
        _ => false,
    }
}

// ---------- integers as bytes ----------

/// The number that bytes stand for, most significant byte first.
pub open spec fn be_nat(bytes: Seq<u8>) -> nat
    decreases bytes.len(),
{
    if bytes.len() == 0 {
        0
    } else {
        256 * be_nat(bytes.drop_last()) + bytes.last() as nat
    }
}

/// The 64-bit integer that eight bytes stand for, in two's complement.
pub open spec fn be_i64(bytes: Seq<u8>) -> i64 {
    let n = be_nat(bytes);
    if n >= 0x8000_0000_0000_0000 {
        (n - 0x1_0000_0000_0000_0000) as i64
    } else {
        n as i64
    }
}

/// `len` bytes that stand for a number, most significant byte first.
pub open spec fn nat_be(n: nat, len: nat) -> Seq<u8>
    decreases len,
{
    if len == 0 {
        Seq::empty()
    } else {
        nat_be(n / 256, (len - 1) as nat).push((n % 256) as u8)
    }
}

/// The eight bytes of a 64-bit integer.
pub open spec fn i64_be(i: i64) -> Seq<u8> {
    nat_be(
        if i < 0 {
            (i + 0x1_0000_0000_0000_0000) as nat
        } else {
            i as nat
        },
        8,
    )
}

spec fn pow256(n: nat) -> nat
    decreases n,
{
    if n == 0 {
        1
    } else {
        256 * pow256((n - 1) as nat)
    }
}

proof fn lemma_be_nat_bound(bytes: Seq<u8>)
    ensures
        be_nat(bytes) < pow256(bytes.len()),
    decreases bytes.len(),
{
    if bytes.len() > 0 {
        lemma_be_nat_bound(bytes.drop_last());
    }
}

proof fn lemma_nat_be(n: nat, len: nat)
    requires
        n < pow256(len),
    ensures
        nat_be(n, len).len() == len,
        be_nat(nat_be(n, len)) == n,
    decreases len,
{
    if len > 0 {
        assert(n / 256 < pow256((len - 1) as nat)) by {
            assert(n < 256 * pow256((len - 1) as nat));
        }
        lemma_nat_be(n / 256, (len - 1) as nat);
        let s = nat_be(n, len);
        assert(s.drop_last() =~= nat_be(n / 256, (len - 1) as nat));
    }
}

proof fn lemma_pow256_small()
    ensures
        pow256(8) == 0x1_0000_0000_0000_0000,
        forall|n: nat| n < 8 ==> 256 * #[trigger] pow256(n) <= 0x1_0000_0000_0000_0000,
{
    reveal_with_fuel(pow256, 9);
    assert forall|n: nat| n < 8 implies 256 * #[trigger] pow256(n) <= 0x1_0000_0000_0000_0000 by {
        if n == 0 {
        } else if n == 1 {
        } else if n == 2 {
        } else if n == 3 {
        } else if n == 4 {
        } else if n == 5 {
        } else if n == 6 {
        } else {
            assert(n == 7);
        }
    }
}

/// The eight bytes of an integer stand for that integer.
pub proof fn law_i64_bytes_round_trip(i: i64)
    ensures
        i64_be(i).len() == 8,
        be_i64(i64_be(i)) == i,
{
    lemma_pow256_small();
    let n: nat = if i < 0 {
        (i + 0x1_0000_0000_0000_0000) as nat
    } else {
        i as nat
    };
    lemma_nat_be(n, 8);
}

/// The most significant byte of an integer comes first, and a negative integer is
/// written as its complement to two to the power of 64.
pub proof fn law_i64_bytes_in_order(i: i64)
    ensures
        ({
            let b = i64_be(i);
            &&& b.len() == 8
            &&& b[0] * 0x100_0000_0000_0000 + b[1] * 0x1_0000_0000_0000 + b[2] * 0x100_0000_0000 + b[3]
                * 0x1_0000_0000 + b[4] * 0x100_0000 + b[5] * 0x1_0000 + b[6] * 0x100 + b[7] == (if i < 0 {
                i + 0x1_0000_0000_0000_0000
            } else {
                i as int
            })
        }),
{
    lemma_pow256_small();
    let n: nat = if i < 0 {
        (i + 0x1_0000_0000_0000_0000) as nat
    } else {
        i as nat
    };
    lemma_nat_be(n, 8);
    let b = i64_be(i);
    reveal_with_fuel(be_nat, 9);
    let b7 = b.drop_last();
    let b6 = b7.drop_last();
    let b5 = b6.drop_last();
    let b4 = b5.drop_last();
    let b3 = b4.drop_last();
    let b2 = b3.drop_last();
    let b1 = b2.drop_last();
    assert(be_nat(b1.drop_last()) == 0);
    assert(be_nat(b1) == b[0]);
    assert(be_nat(b2) == be_nat(b1) * 256 + b[1]);
    assert(be_nat(b3) == be_nat(b2) * 256 + b[2]);
    assert(be_nat(b4) == be_nat(b3) * 256 + b[3]);
    assert(be_nat(b5) == be_nat(b4) * 256 + b[4]);
    assert(be_nat(b6) == be_nat(b5) * 256 + b[5]);
    assert(be_nat(b7) == be_nat(b6) * 256 + b[6]);
    assert(be_nat(b) == be_nat(b7) * 256 + b[7]);
}

/// Reads a 64-bit integer from eight bytes.
pub fn i64_from_be(bytes: &Vec<u8>) -> (i: i64)
    requires
        bytes.len() == 8,
    ensures
        i == be_i64(bytes@),
{
    let mut n: u64 = 0;
    let mut k: usize = 0;
    while k < 8
        invariant
            bytes.len() == 8,
            k <= 8,
            n == be_nat(bytes@.take(k as int)),
        decreases 8 - k,
    {
        proof {
            lemma_pow256_small();
            lemma_be_nat_bound(bytes@.take(k as int));
            assert(bytes@.take(k + 1).drop_last() =~= bytes@.take(k as int));
        }
        n = n * 256 + bytes[k] as u64;
        k = k + 1;
    }
    proof {
        assert(bytes@.take(8) =~= bytes@);
    }
    if n >= 0x8000_0000_0000_0000 {
        let rest: u64 = 0xffff_ffff_ffff_ffff - n;
        -(rest as i64) - 1
    } else {
        n as i64
    }
}

/// The eight bytes of an integer.
pub fn i64_to_be(i: i64) -> (bytes: Vec<u8>)
    ensures
        bytes@ == i64_be(i),
{
    let n: u64 = if i < 0 {
        0xffff_ffff_ffff_ffff - ((-(i + 1)) as u64)
    } else {
        i as u64
    };
    nat_to_be(n, 8)
}

fn nat_to_be(n: u64, len: usize) -> (bytes: Vec<u8>)
    ensures
        bytes@ == nat_be(n as nat, len as nat),
    decreases len,
{
    if len == 0 {
        Vec::new()
    } else {
        let mut bytes = nat_to_be(n / 256, len - 1);
        bytes.push((n % 256) as u8);
        bytes
    }
}

} // verus!
