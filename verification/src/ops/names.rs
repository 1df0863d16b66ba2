//! The order of names.

use vstd::prelude::*;
use vstd::string::StringExecFns;

verus! {

/// From a position on, a name comes before another, character by character.
pub open spec fn before_from(a: Seq<char>, b: Seq<char>, i: int) -> bool
    decreases a.len() - i,
{
    if i >= b.len() {
        false
    } else if i >= a.len() {
        true
    } else if a[i] == b[i] {
        before_from(a, b, i + 1)
    } else {
        (a[i] as int) < b[i] as int
    }
}

/// The names part at the position: up to there they are the same, and there the one
/// ends or has the smaller character.
pub open spec fn parts_at(a: Seq<char>, b: Seq<char>, i: int) -> bool {
    &&& 0 <= i <= a.len()
    &&& i < b.len()
    &&& forall|k: int| 0 <= k < i ==> #[trigger] a[k] == b[k]
    &&& i == a.len() || (a[i] as int) < b[i] as int
}

/// A name comes before another in a dictionary.
pub open spec fn comes_before(a: Seq<char>, b: Seq<char>) -> bool {
    exists|i: int| #[trigger] parts_at(a, b, i)
}

proof fn lemma_name_order(a: Seq<char>, b: Seq<char>, i: int)
    requires
        0 <= i <= a.len(),
        i <= b.len(),
        forall|k: int| 0 <= k < i ==> #[trigger] a[k] == b[k],
    ensures
        before_from(a, b, i) <==> comes_before(a, b),
    decreases a.len() - i,
{
    if i < b.len() && i < a.len() && a[i] == b[i] {
        lemma_name_order(a, b, i + 1);
    } else {
        if before_from(a, b, i) {
            assert(parts_at(a, b, i));
        }
        if comes_before(a, b) {
            let j = choose|j: int| #[trigger] parts_at(a, b, j);
            if j < i {
                assert(a[j] == b[j]);
            } else if i < j {
                assert(a[i] == b[i]);
            }
        }
    }
}

/// Names are in the order of a dictionary.
pub proof fn law_name_order(a: Seq<char>, b: Seq<char>)
    ensures
        before_from(a, b, 0) <==> comes_before(a, b),
{
    lemma_name_order(a, b, 0);
}

pub(crate) fn name_before(a: &String, b: &String) -> (r: bool)
    ensures
        r == before_from(a@, b@, 0),
{
    let x = a.as_str();
    let y = b.as_str();
    let n: usize = x.unicode_len();
    let m: usize = y.unicode_len();
    let mut i: usize = 0;
    while i < n && i < m
        invariant
            i <= n,
            i <= m,
            x@ == a@,
            y@ == b@,
            n == a@.len(),
            m == b@.len(),
            before_from(a@, b@, 0) == before_from(a@, b@, i as int),
        decreases n - i,
    {
        let c = x.get_char(i);
        let d = y.get_char(i);
        if c != d {
            return (c as u32) < (d as u32);
        }
        i = i + 1;
    }
    i < m
}

pub open spec fn names_view(names: Seq<String>) -> Seq<Seq<char>> {
    Seq::new(names.len(), |i: int| names[i]@)
}

/// Puts a name in its place among ordered names, unless it is there.
pub open spec fn insert_name(names: Seq<Seq<char>>, name: Seq<char>) -> Seq<Seq<char>>
    decreases names.len(),
{
    if names.len() == 0 || before_from(names.last(), name, 0) {
        names.push(name)
    } else if names.last() == name {
        names
    } else {
        insert_name(names.drop_last(), name).push(names.last())
    }
}

proof fn lemma_insert_name_place(names: Seq<Seq<char>>, name: Seq<char>, n: int)
    requires
        0 <= n <= names.len(),
        forall|j: int|
            n <= j < names.len() ==> !before_from(#[trigger] names[j], name, 0) && names[j] != name,
        n == 0 || before_from(names[n - 1], name, 0),
    ensures
        insert_name(names, name) == names.insert(n, name),
    decreases names.len(),
{
    if n < names.len() {
        assert(!before_from(names[names.len() - 1], name, 0));
        lemma_insert_name_place(names.drop_last(), name, n);
        assert(names.insert(n, name) =~= names.drop_last().insert(n, name).push(names.last()));
    } else {
        assert(names.insert(n, name) =~= names.push(name));
    }
}

proof fn lemma_insert_name_there(names: Seq<Seq<char>>, name: Seq<char>, n: int)
    requires
        0 <= n < names.len(),
        forall|j: int|
            n < j < names.len() ==> !before_from(#[trigger] names[j], name, 0) && names[j] != name,
        !before_from(names[n], name, 0),
        names[n] == name,
    ensures
        insert_name(names, name) == names,
    decreases names.len(),
{
    if n < names.len() - 1 {
        assert(!before_from(names[names.len() - 1], name, 0));
        lemma_insert_name_there(names.drop_last(), name, n);
        assert(names.drop_last().push(names.last()) =~= names);
    }
}

pub(crate) fn add_name(names: &mut Vec<String>, name: &String)
    ensures
        names_view(final(names)@) == insert_name(names_view(old(names)@), name@),
{
    let ghost view = names_view(names@);
    let mut n: usize = names.len();
    while n > 0
        invariant
            n <= names.len(),
            names@ == old(names)@,
            view == names_view(names@),
            forall|j: int|
                n <= j < view.len() ==> !before_from(#[trigger] view[j], name@, 0) && view[j] != name@,
        ensures
            n == 0 || before_from(view[n - 1], name@, 0),
        decreases n,
    {
        assert(view[n - 1] == names@[n - 1]@);
        if name_before(&names[n - 1], name) {
            break;
        }
        if names[n - 1] == *name {
            proof {
                lemma_insert_name_there(view, name@, n - 1);
            }
            return;
        }
        n = n - 1;
    }
    proof {
        lemma_insert_name_place(view, name@, n as int);
    }
    names.insert(n, name.clone());
    assert(names_view(names@) =~= view.insert(n as int, name@));
}

} // verus!
