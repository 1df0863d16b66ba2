# changelog_core

The rules by which entries of a changelog are checked and turned into writes to
an authenticated tree, written and proved in Verus.

An entry names an operation: an edit of a text document, a cleanup of rows or
buffers that an edit has left behind, an update of rows, a refresh of a user's
keys, the removal of a user. For each operation the library decides whether the
entry may go ahead, given what a reader of the tree answers, and which writes it
amounts to.

## Documents

A document is a doubly linked list of pieces, each a range of bytes of a buffer.
Inserts split pieces and link new ones; deletions mark pieces as deleted. Text is
kept as four bytes a scalar, so no operation may cut a piece at any other place.

- `piece_text`, `piece_text_cleanup`: the manifests of edits and cleanups, their
  limits and their canonical bytes.
- `piece_text_resolution`, `piece_text_resolver`: where a position in a buffer
  lies in a document.
- `piece_text_edit`: inserts and deletions over any store of rows.
- `piece_text_planner`: edits of a document that is all in memory.
- `piece_text_overlay`, `piece_text_staging`: edits that read only the rows they
  need and stage their writes.

## Operations

`ops` holds the operations. Each takes a reader of the tree and the outcomes of
the checks that are made outside the library (who may write, what the schema
says, how a raw key is put together), and gives the writes or the first thing
that stands against them. Keys and values of the tree are typed (`storage`); the
code around the library turns them into bytes.

## What is proved

Contracts say what a function returns, errors included, and on which inputs. An
error says why in the decoder's words where bytes are no envelope, and holds the key
in question where a key is refused. A reader keeps a log, for the proofs alone, of
what was read of it; the contracts say which reads are made and in what order. Beyond
that, public proof functions named `law_..` state what holds of several together:

- `piece_text_laws`: an insert puts its bytes at one place of the text and
  changes nothing else; a deletion takes out what lies between two places; both
  keep pieces on scalar boundaries.
- `piece_text_edit_laws`: whole edits, over the tree and in memory, make the writes
  that the chain of pieces calls for.
- `piece_text_agreement_laws`: on the same rows, however they are linked and whether
  or not they overlap, edits over the tree and in memory go through alike and make
  the same writes. `piece_text_alike` has the proof, operation by operation.
- `piece_text_plan_laws`: what an insert or a deletion that is planned on a
  snapshot does to the snapshot's text.
- `piece_text_snapshot_laws`: a snapshot with a plan's output written is again one
  that a plan can be made on, and its rows stay apart.
- `piece_text_net_changes`: whatever calls are made on a document under edit, only
  net changes are written.
- `ops::piece_text_edit_op_laws`: the writes of an accepted edit lead from a tree
  that stores a document to one that stores the edited document.
- `ops::piece_text_cleanup_laws`: a cleanup leaves the text as it was, with the
  other rows linked to each other; it writes so many times and to such keys, and
  reads only single keys.
- `ops::piece_text_tree`: a row whose cells a tree holds is read back as it is.
- `ops::piece_text_edit_op`, `ops::piece_text_cleanup_pieces_op`: what is said of a
  buffer is read once, and no row is read for a cleanup but those that go.
- `ops::update_op_laws`: an update reads no cell twice, and puts every entry's value
  under the entry's own key.
- `ops::key_history`: a user's key ranges follow on each other.
- `piece_text`, `piece_text_cleanup`: envelopes are read from no other bytes than
  those they are written as.

`wire` and `wording` hold the few functions that call other crates; what is taken
on trust of those is said there.

`app` has the library's errors and manifests with the traits that `std` and serde
ask for.
