//! Changelog entries and the errors of the library.

use vstd::prelude::*;

use crate::faults::{
    EditFault, EnvelopeFault, EnvelopeKind, KeyFault, KeyFaultView, OpFault, OpFaultView, OpName, OpType, PieceTextFault,
    StorageFault,
};
use crate::storage::{KeyView, StorageKey};
use crate::wording::{render, words_text, Word};

verus! {

/// What went wrong.
#[derive(Debug, PartialEq, Eq)]
pub enum ChangelogError {
    /// Reported from outside the library, by a reader or an access check.
    Generic(String),
    /// A piece-text value is malformed.
    PieceText(PieceTextFault),
    /// What was read from the tree cannot be used.
    Storage(StorageFault),
    /// A coordinate could not be resolved.
    Resolve(EditFault),
    /// An edit could not be planned over authenticated reads.
    Overlay(EditFault),
    /// An entry's key does not fit its envelope.
    KeyMismatch(KeyFault),
    /// Bytes are no envelope of the kind, and what their decoder said of them.
    Undecodable(EnvelopeKind, String),
    /// An envelope is malformed.
    Envelope(EnvelopeFault),
    /// An operation is refused.
    Refused(OpName, OpFault),
    /// An error met in the course of an operation.
    Within(OpName, Box<ChangelogError>),
}

/// What an error says.
pub enum ErrorView {
    Generic(String),
    PieceText(PieceTextFault),
    Storage(StorageFault),
    Resolve(EditFault),
    Overlay(EditFault),
    KeyMismatch(KeyFaultView),
    Undecodable(EnvelopeKind, Seq<char>),
    Envelope(EnvelopeFault),
    Refused(OpName, OpFaultView),
    Within(OpName, Box<ErrorView>),
}

impl ChangelogError {
    pub open spec fn says(self) -> ErrorView
        decreases self,
    {
        match self {
            ChangelogError::Generic(s) => ErrorView::Generic(s),
            ChangelogError::PieceText(f) => ErrorView::PieceText(f),
            ChangelogError::Storage(f) => ErrorView::Storage(f),
            ChangelogError::Resolve(f) => ErrorView::Resolve(f),
            ChangelogError::Overlay(f) => ErrorView::Overlay(f),
            ChangelogError::KeyMismatch(f) => ErrorView::KeyMismatch(f@),
            ChangelogError::Undecodable(kind, cause) => ErrorView::Undecodable(kind, cause@),
            ChangelogError::Envelope(f) => ErrorView::Envelope(f),
            ChangelogError::Refused(op, f) => ErrorView::Refused(op, f@),
            ChangelogError::Within(op, e) => ErrorView::Within(op, Box::new((*e).says())),
        }
    }
}

impl View for ChangelogError {
    type V = ErrorView;

    open spec fn view(&self) -> ErrorView {
        (*self).says()
    }
}

impl ChangelogError {
    /// What the error's message is made of.
    pub open spec fn words(self) -> Seq<Word>
        decreases self,
    {
        match self {
            ChangelogError::Generic(s) => seq![Word::Name(s)],
            ChangelogError::PieceText(f) => f.words(),
            ChangelogError::Storage(f) => f.words(),
            ChangelogError::Resolve(EditFault::UnknownCoordinate { coord, .. }) => seq![
                Word::Lit("unknown piece-text coordinate: no row covers buffer_id="),
                Word::Num(coord.buffer_id), Word::Lit(" byte_pos="), Word::Num(coord.byte_pos as i64),
            ],
            ChangelogError::Resolve(f) => f.words(),
            ChangelogError::Overlay(f) => seq![Word::Lit("piece_text_overlay: ")] + f.words(),
            ChangelogError::KeyMismatch(f) => f.words(),
            ChangelogError::Undecodable(kind, cause) => seq![
                Word::Lit("failed to decode "), Word::Lit(kind.name()), Word::Lit(": "),
                Word::Name(cause),
            ],
            ChangelogError::Envelope(f) => f.words(),
            ChangelogError::Refused(op, f) => seq![Word::Lit(op.name()), Word::Lit(": ")] + f.words(),
            ChangelogError::Within(op, e) => seq![Word::Lit(op.name()), Word::Lit(": ")] + e.words(),
        }
    }

    fn to_words(&self) -> (v: Vec<Word>)
        ensures
            v@ =~= self.words(),
        decreases self,
    {
        match self {
            ChangelogError::Generic(s) => vec![Word::Name(s.clone())],
            ChangelogError::PieceText(f) => f.to_words(),
            ChangelogError::Storage(f) => f.to_words(),
            ChangelogError::Resolve(EditFault::UnknownCoordinate { coord, .. }) => vec![
                Word::Lit("unknown piece-text coordinate: no row covers buffer_id="),
                Word::Num(coord.buffer_id), Word::Lit(" byte_pos="), Word::Num(coord.byte_pos as i64),
            ],
            ChangelogError::Resolve(f) => f.to_words(),
            ChangelogError::Overlay(f) => {
                let mut v = vec![Word::Lit("piece_text_overlay: ")];
                let mut tail = f.to_words();
                v.append(&mut tail);
                v
            },
            ChangelogError::KeyMismatch(f) => f.to_words(),
            ChangelogError::Undecodable(kind, cause) => vec![
                Word::Lit("failed to decode "), Word::Lit(kind.name()), Word::Lit(": "),
                Word::Name(cause.clone()),
            ],
            ChangelogError::Envelope(f) => f.to_words(),
            ChangelogError::Refused(op, f) => {
                let mut v = vec![Word::Lit(op.name()), Word::Lit(": ")];
                let mut tail = f.to_words();
                v.append(&mut tail);
                v
            },
            ChangelogError::Within(op, e) => {
                let mut v = vec![Word::Lit(op.name()), Word::Lit(": ")];
                let mut tail = e.to_words();
                v.append(&mut tail);
                v
            },
        }
    }

    /// The error's message.
    pub fn message(&self) -> (m: String)
        ensures
            m@ == words_text(self.words()),
    {
        let words = self.to_words();
        render(&words)
    }
}

/// A key with the bytes that an entry has for it.
#[derive(Clone, Debug, PartialEq, Eq)]
pub struct KvData {
    pub key: StorageKey,
    pub value: Vec<u8>,
}

#[verifier::ext_equal]
pub struct KvView {
    pub key: KeyView,
    pub value: Seq<u8>,
}

impl View for KvData {
    type V = KvView;

    open spec fn view(&self) -> KvView {
        KvView { key: self.key@, value: self.value@ }
    }
}

pub open spec fn entries_view(entries: Seq<KvData>) -> Seq<KvView> {
    Seq::new(entries.len(), |i: int| entries[i]@)
}

/// What a change asks for.
#[derive(Clone, Debug, PartialEq, Eq)]
pub struct LogMessage {
    pub op_type: OpType,
    pub tree_path: Vec<u8>,
    pub entries: Vec<KvData>,
}

#[verifier::ext_equal]
pub struct MessageView {
    pub op_type: OpType,
    pub tree_path: Seq<u8>,
    pub entries: Seq<KvView>,
}

impl View for LogMessage {
    type V = MessageView;

    open spec fn view(&self) -> MessageView {
        MessageView {
            op_type: self.op_type,
            tree_path: self.tree_path@,
            entries: entries_view(self.entries@),
        }
    }
}

/// A change and who made it.
#[derive(Clone, Debug, PartialEq, Eq)]
pub struct ChangelogEntry {
    pub timestamp: u64,
    pub uid: u32,
    pub parent_change: u64,
    pub message: LogMessage,
    pub sig_ref: u32,
    pub parent_clc: [u8; 32],
    pub signature: Vec<u8>,
}

/// The path of the root of the tree.
pub open spec fn root_path() -> Seq<u8> {
    seq![47u8]
}

/// The path of the root of the tree: a slash.
pub fn root_tree_path() -> (p: Vec<u8>)
    ensures
        p@ == root_path(),
{
    vec![47u8]
}

/// What is wrong with a message that should carry one manifest, if anything.
pub open spec fn message_fault(message: MessageView, op_type: OpType) -> Option<EnvelopeFault> {
    if message.op_type != op_type {
        Some(EnvelopeFault::WrongOp { expected: op_type, found: message.op_type })
    } else if message.tree_path != root_path() {
        Some(EnvelopeFault::TreePath(op_type))
    } else if message.entries.len() != 1 {
        Some(EnvelopeFault::EntryCount { op_type, count: message.entries.len() as usize })
    } else {
        None
    }
}

/// Rejects a message that is not one manifest of the kind expected.
pub fn check_message(message: &LogMessage, op_type: OpType) -> (r: Result<(), ChangelogError>)
    ensures
        r == (match message_fault(message@, op_type) {
            Some(f) => Err::<(), ChangelogError>(ChangelogError::Envelope(f)),
            None => Ok(()),
        }),
        r is Ok ==> message.entries.len() == 1,
{
    if message.op_type != op_type {
        return Err(
            ChangelogError::Envelope(
                EnvelopeFault::WrongOp { expected: op_type, found: message.op_type },
            ),
        );
    }
    let at_root = message.tree_path.len() == 1 && message.tree_path[0] == 47;
    proof {
        assert(at_root == (message.tree_path@ =~= root_path()));
    }
    if !at_root {
        return Err(ChangelogError::Envelope(EnvelopeFault::TreePath(op_type)));
    }
    if message.entries.len() != 1 {
        return Err(
            ChangelogError::Envelope(
                EnvelopeFault::EntryCount { op_type, count: message.entries.len() },
            ),
        );
    }
    Ok(())
}

} // verus!
