//! System-wide properties, stated and proved once over the specs the
//! public contracts use.

use vstd::prelude::*;
use crate::controller::{counter_step, initial_index, initial_tree, lemma_input_ids_distinct};
use crate::page::{id_at, PageManager};
use crate::tree::node_at;

verus! {

/// Draining twice with no intervening mutation yields an empty batch on
/// the second drain: `drain_changes` leaves the dirty set empty, and a
/// manager with an empty dirty set drains to an empty batch.
pub proof fn lemma_second_drain_empty(m: PageManager)
    requires
        m.dirty_v().len() == 0,
    ensures
        m.drain_batch().len() == 0,
{
}

/// The counter after applying `ids` in order, starting from `c`.
pub open spec fn counter_after(c: nat, ids: Seq<Seq<char>>) -> nat
    decreases ids.len(),
{
    if ids.len() == 0 {
        c
    } else {
        counter_after(counter_step(c, ids[0]), ids.drop_first())
    }
}

/// How many of `ids` equal `id`.
pub open spec fn count_of(ids: Seq<Seq<char>>, id: Seq<char>) -> nat
    decreases ids.len(),
{
    if ids.len() == 0 {
        0
    } else {
        (if ids[0] == id {
            1nat
        } else {
            0nat
        }) + count_of(ids.drop_first(), id)
    }
}

/// For any interleaving of "button" and "decrease" inputs, the counter
/// never goes below zero (it is a natural number by construction) and
/// never exceeds its start plus the number of "button" inputs applied.
/// Every prefix of such a sequence is again such a sequence, so the bound
/// holds at every intermediate point as well.
pub proof fn lemma_counter_bounded(c: nat, ids: Seq<Seq<char>>)
    requires
        forall|i: int| 0 <= i < ids.len() ==> ids[i] == "button"@ || ids[i] == "decrease"@,
    ensures
        counter_after(c, ids) <= c + count_of(ids, "button"@),
    decreases ids.len(),
{
    lemma_input_ids_distinct();
    if ids.len() > 0 {
        assert(ids[0] == "button"@ || ids[0] == "decrease"@);
        assert(forall|i: int|
            0 <= i < ids.drop_first().len() ==> ids.drop_first()[i] == ids[i + 1]);
        lemma_counter_bounded(counter_step(c, ids[0]), ids.drop_first());
    }
}

/// The constructed initial tree carries exactly the ids that the index
/// registers: "data", "button", "increase_5", "decrease", "decrease_5",
/// "button3", "Output" and "TextInput", each at one path, each unique.
pub proof fn lemma_initial_tree_ids()
    ensures
        forall|q: Seq<usize>|
            (#[trigger] id_at(initial_tree(), q)).is_some() ==> initial_index().contains(
                (id_at(initial_tree(), q).unwrap(), q),
            ),
        forall|j: int|
            0 <= j < initial_index().len() ==> id_at(
                initial_tree(),
                (#[trigger] initial_index()[j]).1,
            ) == Some(initial_index()[j].0),
        forall|j1: int, j2: int|
            0 <= j1 < j2 < initial_index().len() ==> initial_index()[j1].0
                != initial_index()[j2].0,
{
    lemma_input_ids_distinct();
    let t = initial_tree();
    let ix = initial_index();
    assert forall|q: Seq<usize>| (#[trigger] id_at(t, q)).is_some() implies ix.contains(
        (id_at(t, q).unwrap(), q),
    ) by {
        if q.len() > 0 {
            let a = q[0] as int;
            if a < 7 {
                let ca = t.children[a];
                assert(node_at(t, q) == node_at(ca, q.drop_first()));
                if q.len() == 1 {
                    assert(node_at(ca, q.drop_first()) == Some(ca));
                    assert(q =~= seq![q[0]]);
                    if a == 1 {
                        assert(ix[0] == (id_at(t, q).unwrap(), q));
                    } else if a == 4 {
                        assert(ix[5] == (id_at(t, q).unwrap(), q));
                    } else if a == 5 {
                        assert(ix[6] == (id_at(t, q).unwrap(), q));
                    } else if a == 6 {
                        assert(ix[7] == (id_at(t, q).unwrap(), q));
                    }
                } else {
                    let b = q[1] as int;
                    assert(q.drop_first()[0] == q[1]);
                    if a == 2 || a == 3 {
                        if b < 4 {
                            let cb = ca.children[b];
                            assert(node_at(ca, q.drop_first()) == node_at(
                                cb,
                                q.drop_first().drop_first(),
                            ));
                            if q.len() == 2 {
                                assert(node_at(cb, q.drop_first().drop_first()) == Some(cb));
                                assert(q =~= seq![q[0], q[1]]);
                                if a == 2 && b == 2 {
                                    assert(ix[1] == (id_at(t, q).unwrap(), q));
                                } else if a == 2 && b == 3 {
                                    assert(ix[2] == (id_at(t, q).unwrap(), q));
                                } else if a == 3 && b == 2 {
                                    assert(ix[3] == (id_at(t, q).unwrap(), q));
                                } else if a == 3 && b == 3 {
                                    assert(ix[4] == (id_at(t, q).unwrap(), q));
                                }
                            } else {
                                assert(cb.children.len() == 0);
                                assert(q.drop_first().drop_first().len() > 0);
                                assert(node_at(cb, q.drop_first().drop_first()).is_none());
                            }
                        }
                    } else {
                        assert(ca.children.len() == 0);
                        assert(node_at(ca, q.drop_first()).is_none());
                    }
                }
            }
        }
    }
    assert forall|j: int| 0 <= j < ix.len() implies id_at(t, (#[trigger] ix[j]).1) == Some(
        ix[j].0,
    ) by {
        reveal_with_fuel(node_at, 4);
        assert(seq![1usize].drop_first() =~= Seq::<usize>::empty());
        assert(seq![4usize].drop_first() =~= Seq::<usize>::empty());
        assert(seq![5usize].drop_first() =~= Seq::<usize>::empty());
        assert(seq![6usize].drop_first() =~= Seq::<usize>::empty());
        assert(id_at(t, seq![1usize]) == Some("data"@));
        assert(id_at(t, seq![4usize]) == Some("button3"@));
        assert(id_at(t, seq![5usize]) == Some("Output"@));
        assert(id_at(t, seq![6usize]) == Some("TextInput"@));
        assert(seq![2usize, 2usize].drop_first() =~= seq![2usize]);
        assert(seq![2usize, 3usize].drop_first() =~= seq![3usize]);
        assert(seq![3usize, 2usize].drop_first() =~= seq![2usize]);
        assert(seq![3usize, 3usize].drop_first() =~= seq![3usize]);
        assert(seq![2usize].drop_first() =~= Seq::<usize>::empty());
        assert(seq![3usize].drop_first() =~= Seq::<usize>::empty());
        assert(id_at(t, seq![2usize, 2usize]) == Some("button"@));
        assert(id_at(t, seq![2usize, 3usize]) == Some("increase_5"@));
        assert(id_at(t, seq![3usize, 2usize]) == Some("decrease"@));
        assert(id_at(t, seq![3usize, 3usize]) == Some("decrease_5"@));
    }
}

} // verus!
