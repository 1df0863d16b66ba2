//! The inserts among the operations of an edit.

use vstd::prelude::*;

use crate::piece_text::{insert_total, PieceTextEditItemManifest};

verus! {

/// How many of the first operations insert something.
#[verifier::opaque]
pub open spec fn inserts_before(ops: Seq<PieceTextEditItemManifest>, n: int) -> int
    decreases n,
{
    if n <= 0 {
        0
    } else {
        inserts_before(ops, n - 1) + (if ops[n - 1] is Insert {
            1int
        } else {
            0
        })
    }
}

pub proof fn lemma_inserts_before(a: Seq<PieceTextEditItemManifest>, b: Seq<PieceTextEditItemManifest>, n: int)
    requires
        n <= a.len(),
        n <= b.len(),
        forall|i: int| 0 <= i < n ==> #[trigger] a[i] == b[i],
    ensures
        inserts_before(a, n) == inserts_before(b, n),
        inserts_before(a, n) >= 0,
    decreases n,
{
    reveal(inserts_before);
    if n > 0 {
        lemma_inserts_before(a, b, n - 1);
        assert(a[n - 1] == b[n - 1]);
    }
}

pub proof fn lemma_inserts_ascend(ops: Seq<PieceTextEditItemManifest>, i: int, n: int)
    requires
        0 <= i <= n <= ops.len(),
    ensures
        0 <= inserts_before(ops, i) <= inserts_before(ops, n),
    decreases n,
{
    reveal(inserts_before);
    lemma_inserts_before(ops, ops, i);
    if i < n {
        lemma_inserts_ascend(ops, i, n - 1);
    }
}

pub proof fn lemma_inserts_next(ops: Seq<PieceTextEditItemManifest>, n: int)
    requires
        0 <= n < ops.len(),
    ensures
        inserts_before(ops, 0) == 0,
        inserts_before(ops, n + 1) == inserts_before(ops, n) + (if ops[n] is Insert {
            1int
        } else {
            0
        }),
{
    reveal(inserts_before);
}

pub proof fn lemma_insert_total(ops: Seq<PieceTextEditItemManifest>)
    ensures
        insert_total(ops) == inserts_before(ops, ops.len() as int),
    decreases ops.len(),
{
    reveal(inserts_before);
    if ops.len() > 0 {
        let rest = ops.drop_last();
        lemma_insert_total(rest);
        lemma_inserts_before(rest, ops, rest.len() as int);
    }
}

} // verus!
