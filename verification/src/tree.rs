//! Path addressing over abstract element trees, and the frame lemmas that
//! describe how addressing behaves across attribute updates and appends.

use vstd::prelude::*;
use crate::element::ElementV;

verus! {

/// The node addressed by `p` below `t`: `t` itself for the empty path, else
/// the node addressed by the rest of `p` below child `p[0]`; `None` as soon
/// as an index is out of range.
pub open spec fn node_at(t: ElementV, p: Seq<usize>) -> Option<ElementV>
    decreases p.len(),
{
    if p.len() == 0 {
        Some(t)
    } else if (p[0] as int) < t.children.len() {
        node_at(t.children[p[0] as int], p.drop_first())
    } else {
        None
    }
}

/// `t` with the node addressed by `p` replaced by `n`; `t` itself if `p`
/// addresses no node.
pub open spec fn update_at(t: ElementV, p: Seq<usize>, n: ElementV) -> ElementV
    decreases p.len(),
{
    if p.len() == 0 {
        n
    } else if (p[0] as int) < t.children.len() {
        ElementV {
            children: t.children.update(
                p[0] as int,
                update_at(t.children[p[0] as int], p.drop_first(), n),
            ),
            ..t
        }
    } else {
        t
    }
}

/// Paths with equal heads and the tails in prefix relation are themselves
/// in prefix relation.
pub proof fn lemma_tail_prefix(a: Seq<usize>, b: Seq<usize>)
    requires
        a.len() > 0,
        b.len() > 0,
        a[0] == b[0],
        a.drop_first().is_prefix_of(b.drop_first()),
    ensures
        a.is_prefix_of(b),
{
    assert(a.drop_first() == b.drop_first().subrange(0, a.drop_first().len() as int));
    assert forall|i: int| 0 <= i < a.len() implies a[i] == b.subrange(0, a.len() as int)[i] by {
        if i > 0 {
            assert(a.drop_first()[i - 1] == b.drop_first().subrange(
                0,
                a.drop_first().len() as int,
            )[i - 1]);
        }
    }
    assert(a =~= b.subrange(0, a.len() as int));
}

/// Replacing the node at `p` by one with the same id and the same children
/// changes no path's validity and no node's id: afterwards `p` addresses the
/// replacement, and every other path addresses a node exactly as before.
pub proof fn lemma_update_frame(t: ElementV, p: Seq<usize>, n: ElementV)
    requires
        node_at(t, p).is_some(),
        n.id == node_at(t, p).unwrap().id,
        n.children == node_at(t, p).unwrap().children,
    ensures
        node_at(update_at(t, p, n), p) == Some(n),
        forall|q: Seq<usize>|
            #[trigger] node_at(update_at(t, p, n), q).is_some() == node_at(t, q).is_some(),
        forall|q: Seq<usize>|
            node_at(t, q).is_some() ==> (#[trigger] node_at(update_at(t, p, n), q)).unwrap().id
                == node_at(t, q).unwrap().id,
        forall|q: Seq<usize>|
            node_at(t, q).is_some() && !p.is_prefix_of(q) && !q.is_prefix_of(p) ==> #[trigger] node_at(
                update_at(t, p, n),
                q,
            ) == node_at(t, q),
    decreases p.len(),
{
    let u = update_at(t, p, n);
    if p.len() == 0 {
        assert forall|q: Seq<usize>| #[trigger] node_at(u, q).is_some() == node_at(t, q).is_some()
            && (node_at(t, q).is_some() ==> node_at(u, q).unwrap().id == node_at(t, q).unwrap().id)
            by {
            if q.len() > 0 {
                assert(node_at(u, q) == node_at(t, q));
            }
        }
    } else {
        let p0 = p[0] as int;
        assert(node_at(t, p) == node_at(t.children[p0], p.drop_first()));
        assert(0 <= p0 < t.children.len());
        let child = t.children[p0];
        lemma_update_frame(child, p.drop_first(), n);
        let uc = update_at(child, p.drop_first(), n);
        assert(p.len() != 0);
        assert(update_at(t, p, n) == (ElementV {
            children: t.children.update(
                p[0] as int,
                update_at(t.children[p[0] as int], p.drop_first(), n),
            ),
            ..t
        }));
        assert(u.children.len() == t.children.len());
        assert forall|q: Seq<usize>| #[trigger] node_at(u, q).is_some() == node_at(t, q).is_some()
            && (node_at(t, q).is_some() ==> node_at(u, q).unwrap().id == node_at(t, q).unwrap().id)
            && (node_at(t, q).is_some() && !p.is_prefix_of(q) && !q.is_prefix_of(p) ==> node_at(
            u,
            q,
        ) == node_at(t, q)) by {
            if q.len() > 0 {
                let q0 = q[0] as int;
                if q0 == p0 {
                    assert(node_at(u, q) == node_at(uc, q.drop_first()));
                    assert(node_at(t, q) == node_at(child, q.drop_first()));
                    if !p.is_prefix_of(q) && p.drop_first().is_prefix_of(q.drop_first()) {
                        lemma_tail_prefix(p, q);
                    }
                    if !q.is_prefix_of(p) && q.drop_first().is_prefix_of(p.drop_first()) {
                        lemma_tail_prefix(q, p);
                    }
                } else if q0 < t.children.len() {
                    assert(node_at(u, q) == node_at(t.children[q0], q.drop_first()));
                    assert(node_at(t, q) == node_at(t.children[q0], q.drop_first()));
                }
            } else {
                assert(q.is_prefix_of(p)) by {
                    assert(q =~= p.subrange(0, 0));
                }
            }
        }
        assert(node_at(u, p) == node_at(uc, p.drop_first()));
    }
}

/// `m` with `c` appended at the end of its child list.
pub open spec fn with_appended(m: ElementV, c: ElementV) -> ElementV {
    ElementV { children: m.children.push(c), ..m }
}

/// `t` with `c` appended as the last child of the node addressed by `p`.
pub open spec fn append_at(t: ElementV, p: Seq<usize>, c: ElementV) -> ElementV {
    update_at(t, p, with_appended(node_at(t, p).unwrap(), c))
}

/// The path that addresses `c` after `append_at(t, p, c)`: `p` extended by
/// the old child count of the node at `p`.
pub open spec fn appended_path(t: ElementV, p: Seq<usize>) -> Seq<usize> {
    p.push(node_at(t, p).unwrap().children.len() as usize)
}

/// Appending a subtree below the node at `p` keeps every existing path
/// addressing a node with the same id, makes the new subtree addressable
/// below `p` at the old child count, and adds no other paths.
pub proof fn lemma_append_frame(t: ElementV, p: Seq<usize>, c: ElementV)
    requires
        node_at(t, p).is_some(),
        node_at(t, p).unwrap().children.len() < usize::MAX,
    ensures
        forall|q: Seq<usize>|
            node_at(t, q).is_some() ==> (#[trigger] node_at(append_at(t, p, c), q)).is_some()
                && node_at(append_at(t, p, c), q).unwrap().id == node_at(t, q).unwrap().id,
        forall|r: Seq<usize>|
            #[trigger] node_at(append_at(t, p, c), appended_path(t, p) + r) == node_at(c, r),
        forall|q: Seq<usize>|
            (#[trigger] node_at(append_at(t, p, c), q)).is_some() ==> node_at(t, q).is_some()
                || appended_path(t, p).is_prefix_of(q),
    decreases p.len(),
{
    let a = append_at(t, p, c);
    let m = node_at(t, p).unwrap();
    let kk = m.children.len() as usize;
    let np = appended_path(t, p);
    if p.len() == 0 {
        assert(a == with_appended(t, c));
        assert(a.children == t.children.push(c));
        assert forall|q: Seq<usize>|
            node_at(t, q).is_some() ==> (#[trigger] node_at(a, q)).is_some() && node_at(
                a,
                q,
            ).unwrap().id == node_at(t, q).unwrap().id by {
            if node_at(t, q).is_some() && q.len() > 0 {
                let q0 = q[0] as int;
                assert(a.children[q0] == t.children[q0]);
                assert(node_at(a, q) == node_at(t, q));
            }
        }
        assert forall|r: Seq<usize>| #[trigger] node_at(a, np + r) == node_at(c, r) by {
            assert((np + r).len() > 0);
            assert((np + r)[0] == kk);
            assert(a.children[kk as int] == c);
            assert((np + r).drop_first() =~= r);
            assert(node_at(a, np + r) == node_at(a.children[kk as int], r));
        }
        assert forall|q: Seq<usize>| (#[trigger] node_at(a, q)).is_some() implies node_at(
            t,
            q,
        ).is_some() || np.is_prefix_of(q) by {
            if q.len() > 0 {
                let q0 = q[0] as int;
                if q0 == kk as int {
                    assert(np =~= q.subrange(0, 1));
                } else {
                    assert(q0 < t.children.len());
                    assert(node_at(a, q) == node_at(t, q));
                }
            }
        }
    } else {
        let p0 = p[0] as int;
        assert(node_at(t, p) == node_at(t.children[p0], p.drop_first()));
        assert(0 <= p0 < t.children.len());
        let child = t.children[p0];
        lemma_append_frame(child, p.drop_first(), c);
        let ac = append_at(child, p.drop_first(), c);
        assert(a == (ElementV { children: t.children.update(p0, ac), ..t }));
        assert(a.children.len() == t.children.len());
        assert(np[0] == p0 && np.len() == p.len() + 1);
        assert(np.drop_first() =~= appended_path(child, p.drop_first()));
        assert forall|q: Seq<usize>|
            node_at(t, q).is_some() ==> (#[trigger] node_at(a, q)).is_some() && node_at(
                a,
                q,
            ).unwrap().id == node_at(t, q).unwrap().id by {
            if node_at(t, q).is_some() && q.len() > 0 {
                let q0 = q[0] as int;
                if q0 == p0 {
                    assert(node_at(a, q) == node_at(ac, q.drop_first()));
                    assert(node_at(t, q) == node_at(child, q.drop_first()));
                } else {
                    assert(node_at(a, q) == node_at(t.children[q0], q.drop_first()));
                    assert(node_at(t, q) == node_at(t.children[q0], q.drop_first()));
                }
            }
        }
        assert forall|r: Seq<usize>| #[trigger] node_at(a, np + r) == node_at(c, r) by {
            assert((np + r)[0] == p0);
            assert((np + r).drop_first() =~= appended_path(child, p.drop_first()) + r);
            assert(node_at(a, np + r) == node_at(ac, (np + r).drop_first()));
            assert(node_at(ac, appended_path(child, p.drop_first()) + r) == node_at(c, r));
        }
        assert forall|q: Seq<usize>| (#[trigger] node_at(a, q)).is_some() implies node_at(
            t,
            q,
        ).is_some() || np.is_prefix_of(q) by {
            if q.len() > 0 {
                let q0 = q[0] as int;
                if q0 == p0 {
                    assert(node_at(a, q) == node_at(ac, q.drop_first()));
                    if !node_at(child, q.drop_first()).is_some() {
                        assert(appended_path(child, p.drop_first()).is_prefix_of(q.drop_first()));
                        lemma_tail_prefix(np, q);
                    } else {
                        assert(node_at(t, q) == node_at(child, q.drop_first()));
                    }
                } else {
                    assert(node_at(a, q) == node_at(t, q));
                }
            }
        }
    }
}

} // verus!
