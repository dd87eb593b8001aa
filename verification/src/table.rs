//! Tables keyed by identifier.
//!
//! A table is a sequence of `(identifier, value)` entries in strictly
//! ascending identifier order, so each identifier occurs at most once and the
//! entries are enumerated in one fixed order.

use vstd::prelude::*;
use crate::id::Id;

verus! {

/// The entries stand in strictly ascending identifier order.
pub open spec fn ascending<V>(t: Seq<(Id, V)>) -> bool {
    forall|i: int, j: int| 0 <= i < j < t.len() ==> (#[trigger] t[i]).0@ < (#[trigger] t[j]).0@
}

/// The table holds an entry for `id`.
pub open spec fn present<V>(t: Seq<(Id, V)>, id: Id) -> bool {
    exists|i: int| 0 <= i < t.len() && (#[trigger] t[i]).0 == id
}

/// The position of the entry for `id`.
pub open spec fn slot<V>(t: Seq<(Id, V)>, id: Id) -> int {
    choose|i: int| 0 <= i < t.len() && (#[trigger] t[i]).0 == id
}

/// The value that the table holds for `id`.
pub open spec fn get<V>(t: Seq<(Id, V)>, id: Id) -> V {
    t[slot(t, id)].1
}

/// The number of leading entries whose identifier is below `id`.
pub open spec fn rank<V>(t: Seq<(Id, V)>, id: Id) -> int
    decreases t.len(),
{
    if t.len() == 0 || t[0].0@ >= id@ {
        0
    } else {
        1 + rank(t.skip(1), id)
    }
}

/// The table with `v` stored for `id`: the entry for `id` is overwritten, or
/// a new entry is placed where the order asks for it.
pub open spec fn store<V>(t: Seq<(Id, V)>, id: Id, v: V) -> Seq<(Id, V)> {
    let k = rank(t, id);
    if k < t.len() && t[k].0 == id {
        t.update(k, (id, v))
    } else {
        t.insert(k, (id, v))
    }
}

/// The identifiers of a table, in its order.
pub open spec fn keys<V>(t: Seq<(Id, V)>) -> Seq<Id> {
    Seq::new(t.len(), |i: int| t[i].0)
}

/// The rank is a position of the table; the identifiers before it are below
/// `id`, and the identifier at it is not.
pub proof fn lemma_rank<V>(t: Seq<(Id, V)>, id: Id)
    ensures
        0 <= rank(t, id) <= t.len(),
        forall|j: int| 0 <= j < rank(t, id) ==> (#[trigger] t[j]).0@ < id@,
        rank(t, id) < t.len() ==> t[rank(t, id)].0@ >= id@,
    decreases t.len(),
{
    if t.len() == 0 || t[0].0@ >= id@ {
    } else {
        let rest = t.skip(1);
        lemma_rank(rest, id);
        assert forall|j: int| 0 <= j < rank(t, id) implies (#[trigger] t[j]).0@ < id@ by {
            if j > 0 {
                assert(rest[j - 1] == t[j]);
            }
        }
        if rank(t, id) < t.len() {
            assert(rest[rank(rest, id)] == t[rank(t, id)]);
        }
    }
}

/// A position that parts the identifiers below `id` from the rest is the rank.
pub proof fn lemma_rank_is<V>(t: Seq<(Id, V)>, id: Id, k: int)
    requires
        0 <= k <= t.len(),
        forall|j: int| 0 <= j < k ==> (#[trigger] t[j]).0@ < id@,
        k < t.len() ==> t[k].0@ >= id@,
    ensures
        rank(t, id) == k,
    decreases t.len(),
{
    if k == 0 {
    } else {
        let rest = t.skip(1);
        assert(t[0].0@ < id@);
        assert forall|j: int| 0 <= j < k - 1 implies (#[trigger] rest[j]).0@ < id@ by {
            assert(rest[j] == t[j + 1]);
        }
        if k - 1 < rest.len() {
            assert(rest[k - 1] == t[k]);
        }
        lemma_rank_is(rest, id, k - 1);
    }
}

/// In an ascending table the entry for an identifier stands at one position.
pub proof fn lemma_slot<V>(t: Seq<(Id, V)>, id: Id, i: int)
    requires
        ascending(t),
        0 <= i < t.len(),
        t[i].0 == id,
    ensures
        present(t, id),
        slot(t, id) == i,
        get(t, id) == t[i].1,
{
    let j = slot(t, id);
    if j < i {
        assert(t[j].0@ < t[i].0@);
    }
    if i < j {
        assert(t[i].0@ < t[j].0@);
    }
}

/// What `store` does to the order, to the identifiers and to the values.
pub proof fn lemma_store<V>(t: Seq<(Id, V)>, id: Id, v: V)
    requires
        ascending(t),
    ensures
        ascending(store(t, id, v)),
        present(store(t, id, v), id),
        get(store(t, id, v), id) == v,
        forall|other: Id| other != id ==> present(store(t, id, v), other) == present(t, other),
        forall|other: Id| other != id && present(t, other) ==> get(store(t, id, v), other) == get(t, other),
        store(t, id, v).len() == if present(t, id) { t.len() } else { t.len() + 1 },
        present(t, id) ==> store(t, id, v) == t.update(slot(t, id), (id, v)),
{
    broadcast use Id::same_number;
    let k = rank(t, id);
    let r = store(t, id, v);
    lemma_rank(t, id);
    if k < t.len() && t[k].0 == id {
        lemma_slot(t, id, k);
        assert(r[k].0 == id);
        assert forall|i: int, j: int| 0 <= i < j < r.len() implies (#[trigger] r[i]).0@ < (#[trigger] r[j]).0@ by {
            assert(r[i].0 == t[i].0 && r[j].0 == t[j].0);
            assert(t[i].0@ < t[j].0@);
        }
        lemma_slot(r, id, k);
        assert forall|other: Id| other != id implies present(r, other) == present(t, other) by {
            if present(t, other) {
                let i = slot(t, other);
                assert(r[i].0 == other);
            }
            if present(r, other) {
                let i = slot(r, other);
                assert(t[i].0 == other);
            }
        }
        assert forall|other: Id| other != id && present(t, other) implies get(r, other) == get(t, other) by {
            let i = slot(t, other);
            assert(r[i] == t[i]);
            lemma_slot(r, other, i);
        }
    } else {
        assert(!present(t, id)) by {
            if present(t, id) {
                let i = slot(t, id);
                if i < k {
                    assert(t[i].0@ < id@);
                } else {
                    assert(t[k].0@ >= id@);
                    if i > k {
                        assert(t[k].0@ < t[i].0@);
                    }
                }
            }
        }
        assert(r[k] == (id, v));
        assert forall|i: int, j: int| 0 <= i < j < r.len() implies (#[trigger] r[i]).0@ < (#[trigger] r[j]).0@ by {
            if j < k {
                assert(r[i] == t[i] && r[j] == t[j]);
                assert(t[i].0@ < t[j].0@);
            } else if j == k {
                assert(r[i] == t[i]);
                assert(t[i].0@ < id@);
            } else if i < k {
                assert(r[i] == t[i] && r[j] == t[j - 1]);
                assert(t[i].0@ < id@);
                assert(t[k].0@ >= id@);
                if j - 1 > k {
                    assert(t[k].0@ < t[j - 1].0@);
                }
            } else if i == k {
                assert(r[j] == t[j - 1]);
                assert(t[k].0@ >= id@ && t[k].0 != id);
                if j - 1 > k {
                    assert(t[k].0@ < t[j - 1].0@);
                }
            } else {
                assert(r[i] == t[i - 1] && r[j] == t[j - 1]);
                assert(t[i - 1].0@ < t[j - 1].0@);
            }
        }
        lemma_slot(r, id, k);
        assert forall|other: Id| other != id implies present(r, other) == present(t, other) by {
            if present(t, other) {
                let i = slot(t, other);
                if i < k {
                    assert(r[i] == t[i]);
                } else {
                    assert(r[i + 1] == t[i]);
                }
            }
            if present(r, other) {
                let i = slot(r, other);
                if i < k {
                    assert(r[i] == t[i]);
                } else {
                    assert(r[i] == t[i - 1]);
                }
            }
        }
        assert forall|other: Id| other != id && present(t, other) implies get(r, other) == get(t, other) by {
            let i = slot(t, other);
            if i < k {
                assert(r[i] == t[i]);
                lemma_slot(r, other, i);
            } else {
                assert(r[i + 1] == t[i]);
                lemma_slot(r, other, i + 1);
            }
        }
    }
}

/// Every identifier of the table is below `bound`.
pub open spec fn below<V>(t: Seq<(Id, V)>, bound: nat) -> bool {
    forall|i: int| 0 <= i < t.len() ==> (#[trigger] t[i]).0@ < bound
}

/// An identifier above all others is stored at the end.
pub proof fn lemma_store_fresh<V>(t: Seq<(Id, V)>, id: Id, v: V)
    requires
        below(t, id@),
    ensures
        store(t, id, v) == t.push((id, v)),
        !present(t, id),
{
    lemma_rank_is(t, id, t.len() as int);
    assert(t.insert(t.len() as int, (id, v)) =~= t.push((id, v)));
}

/// Two tables with the same identifiers in the same order agree on where
/// each identifier stands.
pub proof fn lemma_same_keys<A, B>(t: Seq<(Id, A)>, u: Seq<(Id, B)>, id: Id)
    requires
        t.len() == u.len(),
        forall|i: int| 0 <= i < t.len() ==> (#[trigger] t[i]).0 == u[i].0,
    ensures
        rank(t, id) == rank(u, id),
        present(t, id) == present(u, id),
        ascending(t) == ascending(u),
        ascending(t) && present(t, id) ==> slot(t, id) == slot(u, id),
{
    lemma_rank(t, id);
    let k = rank(t, id);
    assert forall|j: int| 0 <= j < k implies (#[trigger] u[j]).0@ < id@ by {
        assert(t[j].0 == u[j].0);
    }
    if k < t.len() {
        assert(t[k].0 == u[k].0);
    }
    lemma_rank_is(u, id, k);
    if present(t, id) {
        let i = slot(t, id);
        assert(t[i].0 == u[i].0);
    }
    if present(u, id) {
        let i = slot(u, id);
        assert(t[i].0 == u[i].0);
    }
    if ascending(t) {
        assert forall|i: int, j: int| 0 <= i < j < u.len() implies (#[trigger] u[i]).0@ < (#[trigger] u[j]).0@ by {
            assert(t[i].0 == u[i].0 && t[j].0 == u[j].0);
            assert(t[i].0@ < t[j].0@);
        }
    }
    if ascending(u) {
        assert forall|i: int, j: int| 0 <= i < j < t.len() implies (#[trigger] t[i]).0@ < (#[trigger] t[j]).0@ by {
            assert(t[i].0 == u[i].0 && t[j].0 == u[j].0);
            assert(u[i].0@ < u[j].0@);
        }
    }
    if ascending(t) && present(t, id) {
        let i = slot(t, id);
        assert(t[i].0 == u[i].0);
        lemma_slot(u, id, i);
    }
}

/// The table with `f` applied to each value.
pub open spec fn mapped<A, B>(t: Seq<(Id, A)>, f: spec_fn(A) -> B) -> Seq<(Id, B)> {
    Seq::new(t.len(), |i: int| (t[i].0, f(t[i].1)))
}

/// Storing a value and then applying `f` gives what storing the value's
/// image gives.
pub proof fn lemma_store_mapped<A, B>(t: Seq<(Id, A)>, f: spec_fn(A) -> B, id: Id, a: A)
    ensures
        mapped(store(t, id, a), f) == store(mapped(t, f), id, f(a)),
{
    lemma_same_keys(t, mapped(t, f), id);
    lemma_rank(t, id);
    assert(mapped(store(t, id, a), f) =~= store(mapped(t, f), id, f(a)));
}

/// Looks `id` up and returns the position of its entry.
pub fn find<V>(t: &Vec<(Id, V)>, id: Id) -> (found: Option<usize>)
    requires
        ascending(t@),
    ensures
        found is Some == present(t@, id),
        found is Some ==> found->0 == slot(t@, id),
{
    let mut i: usize = 0;
    while i < t.len()
        invariant
            i <= t.len(),
            ascending(t@),
            forall|j: int| 0 <= j < i ==> (#[trigger] t@[j]).0 != id,
        decreases t.len() - i,
    {
        if t[i].0 == id {
            proof {
                lemma_slot(t@, id, i as int);
            }
            return Some(i);
        }
        i += 1;
    }
    None
}

/// A copy of the table.
pub fn copy_of<V: Copy>(t: &Vec<(Id, V)>) -> (copy: Vec<(Id, V)>)
    ensures
        copy@ == t@,
{
    let mut copy: Vec<(Id, V)> = Vec::new();
    let mut i: usize = 0;
    while i < t.len()
        invariant
            i <= t.len(),
            copy@ == t@.take(i as int),
        decreases t.len() - i,
    {
        copy.push(t[i]);
        assert(t@.take(i + 1) =~= t@.take(i as int).push(t@[i as int]));
        i += 1;
    }
    assert(t@.take(t.len() as int) =~= t@);
    copy
}

/// The identifiers of the table, in its order.
pub fn keys_of<V>(t: &Vec<(Id, V)>) -> (ids: Vec<Id>)
    ensures
        ids@ == keys(t@),
{
    let mut ids: Vec<Id> = Vec::new();
    let mut i: usize = 0;
    while i < t.len()
        invariant
            i <= t.len(),
            ids@.len() == i,
            forall|j: int| 0 <= j < i ==> ids@[j] == (#[trigger] t@[j]).0,
        decreases t.len() - i,
    {
        ids.push(t[i].0);
        i += 1;
    }
    assert(ids@ =~= keys(t@));
    ids
}

/// Stores `v` for `id`, keeping the order.
pub fn put<V>(t: &mut Vec<(Id, V)>, id: Id, v: V)
    ensures
        final(t)@ == store(old(t)@, id, v),
{
    let mut i: usize = 0;
    while i < t.len() && t[i].0.number() < id.number()
        invariant
            i <= t.len(),
            *t == *old(t),
            forall|j: int| 0 <= j < i ==> (#[trigger] t@[j]).0@ < id@,
        decreases t.len() - i,
    {
        i += 1;
    }
    proof {
        lemma_rank_is(t@, id, i as int);
    }
    if i < t.len() && t[i].0 == id {
        t[i] = (id, v);
    } else {
        t.insert(i, (id, v));
    }
}

} // verus!
