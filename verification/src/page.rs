//! The page manager: one page, an id index over its tree, and a dirty set
//! that accumulates changed nodes in first-dirtied order until it is drained
//! as a batch of change records.
//!
//! Mutation goes through the manager's setters; each successful setter both
//! applies the change and finalizes dirty-tracking for the touched node, so
//! every change is reported exactly once by the next drain.

use vstd::prelude::*;
use crate::element::{Element, ElementKind, ElementV, view_children, lemma_view_children_index, lemma_view_children_update};
use crate::path::{UiPath, paths_equal};
use crate::tree::{node_at, update_at, append_at, appended_path, with_appended, lemma_update_frame, lemma_append_frame};

verus! {

/// A named document: owner identity, title, and the root of the tree. The
/// unit transmitted wholesale on first synchronization.
pub struct Page {
    pub owner: String,
    pub title: String,
    pub root: Element,
}

impl Page {
    /// An independent copy of the page.
    pub fn duplicate(&self) -> (r: Page)
        ensures
            r.owner@ == self.owner@,
            r.title@ == self.title@,
            r.root@ == self.root@,
    {
        Page { owner: self.owner.clone(), title: self.title.clone(), root: self.root.duplicate() }
    }
}

/// How a dirtied node is referred to in a change record: by its id when the
/// index maps that id to the node, by its path otherwise.
pub enum DirtyKey {
    ById(String),
    ByPath(UiPath),
}

/// The abstract value of a [`DirtyKey`].
pub enum KeyV {
    ById(Seq<char>),
    ByPath(Seq<usize>),
}

impl DirtyKey {
    /// The abstract value of this key.
    pub open spec fn view(&self) -> KeyV {
        match self {
            DirtyKey::ById(s) => KeyV::ById(s@),
            DirtyKey::ByPath(p) => KeyV::ByPath(p@),
        }
    }

    /// An independent copy of this key.
    pub fn duplicate(&self) -> (r: DirtyKey)
        ensures
            r@ == self@,
    {
        match self {
            DirtyKey::ById(s) => DirtyKey::ById(s.clone()),
            DirtyKey::ByPath(p) => DirtyKey::ByPath(p.duplicate()),
        }
    }
}

/// Whether two keys refer to the same target.
pub fn keys_equal(a: &DirtyKey, b: &DirtyKey) -> (r: bool)
    ensures
        r == (a@ == b@),
{
    match (a, b) {
        (DirtyKey::ById(x), DirtyKey::ById(y)) => *x == *y,
        (DirtyKey::ByPath(x), DirtyKey::ByPath(y)) => paths_equal(x, y),
        _ => false,
    }
}

/// One record of a drained batch: the dirtied node's key and the latest
/// snapshot of its attributes, not every intermediate mutation.
pub struct ChangeRecord {
    pub target: DirtyKey,
    pub kind: ElementKind,
    pub text: String,
    pub selectable: bool,
}

/// The abstract value of a [`ChangeRecord`].
pub struct ChangeV {
    pub target: KeyV,
    pub kind: ElementKind,
    pub text: Seq<char>,
    pub selectable: bool,
}

impl ChangeRecord {
    /// The abstract value of this record.
    pub open spec fn view(&self) -> ChangeV {
        ChangeV {
            target: self.target@,
            kind: self.kind,
            text: self.text@,
            selectable: self.selectable,
        }
    }
}

/// The abstract values of a batch of change records.
pub open spec fn records_v(v: Seq<ChangeRecord>) -> Seq<ChangeV> {
    Seq::new(v.len(), |j: int| v[j]@)
}

/// The id of the node addressed by `p`, if `p` addresses a node and it has
/// one.
pub open spec fn id_at(t: ElementV, p: Seq<usize>) -> Option<Seq<char>> {
    match node_at(t, p) {
        Some(n) => n.id,
        None => None,
    }
}

/// The path paired with the first occurrence of `i` in the index.
pub open spec fn spec_find(s: Seq<(Seq<char>, Seq<usize>)>, i: Seq<char>) -> Option<Seq<usize>>
    decreases s.len(),
{
    if s.len() == 0 {
        None
    } else if s[0].0 == i {
        Some(s[0].1)
    } else {
        spec_find(s.drop_first(), i)
    }
}

/// A found id is paired with its path somewhere in the index.
pub proof fn lemma_spec_find_entry(s: Seq<(Seq<char>, Seq<usize>)>, i: Seq<char>)
    requires
        spec_find(s, i).is_some(),
    ensures
        exists|j: int| 0 <= j < s.len() && s[j] == (i, spec_find(s, i).unwrap()),
    decreases s.len(),
{
    if s.len() > 0 && s[0].0 != i {
        lemma_spec_find_entry(s.drop_first(), i);
        let j = choose|j: int|
            0 <= j < s.drop_first().len() && s.drop_first()[j] == (
            i,
            spec_find(s.drop_first(), i).unwrap(),
            );
        assert(s[j + 1] == (i, spec_find(s, i).unwrap()));
    }
}

/// Extending the index does not change where an already-present id is found.
pub proof fn lemma_spec_find_extend(
    s: Seq<(Seq<char>, Seq<usize>)>,
    t: Seq<(Seq<char>, Seq<usize>)>,
    i: Seq<char>,
)
    requires
        spec_find(s, i).is_some(),
    ensures
        spec_find(s + t, i) == spec_find(s, i),
    decreases s.len(),
{
    assert(s.len() > 0);
    assert((s + t)[0] == s[0]);
    if s[0].0 != i {
        lemma_spec_find_extend(s.drop_first(), t, i);
        assert((s + t).drop_first() =~= s.drop_first() + t);
    }
}

/// The (id, absolute path) pairs carried by the subtree `t`, in preorder,
/// when the root of `t` stands at `base`.
pub open spec fn id_pairs(t: ElementV, base: Seq<usize>) -> Seq<(Seq<char>, Seq<usize>)>
    decreases t, 0int,
{
    (match t.id {
        Some(i) => seq![(i, base)],
        None => Seq::empty(),
    }) + id_pairs_from(t.children, base, 0)
}

/// The pairs of the subtrees `s[k..]`, each child `c` rooted at
/// `base.push(c)`.
pub open spec fn id_pairs_from(s: Seq<ElementV>, base: Seq<usize>, k: int) -> Seq<
    (Seq<char>, Seq<usize>),
>
    decreases s, (if 0 <= k <= s.len() { s.len() - k } else { 0 }),
{
    if 0 <= k < s.len() && k <= usize::MAX as int {
        id_pairs(s[k], base.push(k as usize)) + id_pairs_from(s, base, k + 1)
    } else {
        Seq::empty()
    }
}

/// When `base + r` addresses in `big` what `r` addresses in `c`, every
/// pair of `id_pairs(c, base)` names a path that, in `big`, addresses a
/// node carrying exactly that id.
pub proof fn lemma_id_pairs_resolve(big: ElementV, c: ElementV, base: Seq<usize>)
    requires
        forall|r: Seq<usize>| #[trigger] node_at(big, base + r) == node_at(c, r),
    ensures
        forall|j: int| 0 <= j < id_pairs(c, base).len() ==> id_at(
            big,
            (#[trigger] id_pairs(c, base)[j]).1,
        ) == Some(id_pairs(c, base)[j].0),
    decreases c, c.children.len() + 2,
{
    let own: Seq<(Seq<char>, Seq<usize>)> = match c.id {
        Some(i) => seq![(i, base)],
        None => Seq::empty(),
    };
    assert(base + Seq::<usize>::empty() =~= base);
    assert(node_at(big, base) == node_at(c, Seq::<usize>::empty()));
    lemma_id_pairs_from_resolve(big, c, c.children, base, 0);
    assert forall|j: int| 0 <= j < id_pairs(c, base).len() implies id_at(
        big,
        (#[trigger] id_pairs(c, base)[j]).1,
    ) == Some(id_pairs(c, base)[j].0) by {
        if j < own.len() {
            assert(id_pairs(c, base)[j] == (c.id.unwrap(), base));
        } else {
            assert(id_pairs(c, base)[j] == id_pairs_from(c.children, base, 0)[j - own.len()]);
        }
    }
}

/// Helper for [`lemma_id_pairs_resolve`], covering the children `s[k..]` of
/// the node `c` whose children sequence is `s`.
pub proof fn lemma_id_pairs_from_resolve(
    big: ElementV,
    c: ElementV,
    s: Seq<ElementV>,
    base: Seq<usize>,
    k: int,
)
    requires
        s == c.children,
        forall|r: Seq<usize>| #[trigger] node_at(big, base + r) == node_at(c, r),
    ensures
        forall|j: int| 0 <= j < id_pairs_from(s, base, k).len() ==> id_at(
            big,
            (#[trigger] id_pairs_from(s, base, k)[j]).1,
        ) == Some(id_pairs_from(s, base, k)[j].0),
    decreases c, (if 0 <= k <= s.len() { s.len() - k + 1 } else { 0int }),
{
    if 0 <= k < s.len() && k <= usize::MAX as int {
        let kb = base.push(k as usize);
        assert((k as usize) as int == k);
        assert forall|r: Seq<usize>| #[trigger] node_at(big, kb + r) == node_at(s[k], r) by {
            let rr = seq![k as usize] + r;
            assert(base + rr =~= kb + r);
            assert(node_at(big, base + rr) == node_at(c, rr));
            assert(rr.drop_first() =~= r);
            assert(rr[0] == k as usize);
            assert(node_at(c, rr) == node_at(s[k], r));
        }
        lemma_id_pairs_resolve(big, s[k], kb);
        lemma_id_pairs_from_resolve(big, c, s, base, k + 1);
        let head = id_pairs(s[k], kb);
        assert forall|j: int| 0 <= j < id_pairs_from(s, base, k).len() implies id_at(
            big,
            (#[trigger] id_pairs_from(s, base, k)[j]).1,
        ) == Some(id_pairs_from(s, base, k)[j].0) by {
            if j < head.len() {
                assert(id_pairs_from(s, base, k)[j] == head[j]);
            } else {
                assert(id_pairs_from(s, base, k)[j] == id_pairs_from(s, base, k + 1)[j
                    - head.len()]);
            }
        }
    }
}


/// The abstract values of a sequence of index entries.
pub open spec fn pairs_v(v: Seq<(String, UiPath)>) -> Seq<(Seq<char>, Seq<usize>)> {
    Seq::new(v.len(), |j: int| (v[j].0@, v[j].1@))
}

/// Whether a dirty key can be resolved against tree `t` and index `idx`.
pub open spec fn key_valid(t: ElementV, idx: Seq<(Seq<char>, Seq<usize>)>, k: KeyV) -> bool {
    match k {
        KeyV::ById(i) => spec_find(idx, i).is_some(),
        KeyV::ByPath(p) => node_at(t, p).is_some(),
    }
}

/// The record a drain emits for dirty key `k`: the key itself plus the
/// latest attributes of the node it resolves to.
pub open spec fn snapshot_of(t: ElementV, idx: Seq<(Seq<char>, Seq<usize>)>, k: KeyV) -> ChangeV {
    let n = match k {
        KeyV::ById(i) => node_at(t, spec_find(idx, i).unwrap()).unwrap(),
        KeyV::ByPath(p) => node_at(t, p).unwrap(),
    };
    ChangeV { target: k, kind: n.kind, text: n.text, selectable: n.selectable }
}

/// Owns one page, the id index over its tree, and the dirty set accumulated
/// since the last drain, in first-dirtied order.
pub struct PageManager {
    pub page: Page,
    pub index: Vec<(String, UiPath)>,
    pub dirty: Vec<DirtyKey>,
}

impl PageManager {
    /// The abstract tree owned by this manager.
    pub open spec fn tree(&self) -> ElementV {
        self.page.root@
    }

    /// The abstract id index: (id, path) in registration order.
    pub open spec fn index_v(&self) -> Seq<(Seq<char>, Seq<usize>)> {
        pairs_v(self.index@)
    }

    /// The abstract dirty set, in first-dirtied order.
    pub open spec fn dirty_v(&self) -> Seq<KeyV> {
        Seq::new(self.dirty@.len(), |j: int| self.dirty@[j]@)
    }

    /// Whether `k` is already recorded as dirty.
    pub open spec fn dirty_has(&self, k: KeyV) -> bool {
        exists|i: int| 0 <= i < self.dirty_v().len() && self.dirty_v()[i] == k
    }

    /// Well-formedness: every index entry addresses a node carrying exactly
    /// its id; every dirty key resolves; no key is recorded twice.
    pub open spec fn wf(&self) -> bool {
        &&& forall|j: int|
            0 <= j < self.index_v().len() ==> id_at(self.tree(), (#[trigger] self.index_v()[j]).1)
                == Some(self.index_v()[j].0)
        &&& forall|i: int|
            0 <= i < self.dirty_v().len() ==> key_valid(
                self.tree(),
                self.index_v(),
                #[trigger] self.dirty_v()[i],
            )
        &&& forall|i1: int, i2: int|
            0 <= i1 < i2 < self.dirty_v().len() ==> self.dirty_v()[i1] != self.dirty_v()[i2]
    }

    /// The batch the next drain would emit: one record per dirty key, in
    /// first-dirtied order, carrying the node's latest attributes.
    pub open spec fn drain_batch(&self) -> Seq<ChangeV> {
        Seq::new(
            self.dirty_v().len(),
            |i: int| snapshot_of(self.tree(), self.index_v(), self.dirty_v()[i]),
        )
    }

    /// A fresh manager: a page with a bare label root, an empty index, and
    /// an empty dirty set.
    pub fn new(owner: String, title: String) -> (r: PageManager)
        ensures
            r.wf(),
            r.tree() == (ElementV {
                kind: ElementKind::Label,
                id: None,
                text: Seq::empty(),
                selectable: false,
                children: Seq::empty(),
            }),
            r.page.owner@ == owner@,
            r.page.title@ == title@,
            r.index_v() == Seq::<(Seq<char>, Seq<usize>)>::empty(),
            r.dirty_v() == Seq::<KeyV>::empty(),
    {
        let root = Element::new(ElementKind::Label);
        let r = PageManager {
            page: Page { owner, title, root },
            index: Vec::new(),
            dirty: Vec::new(),
        };
        proof {
            assert(r.index_v() =~= Seq::<(Seq<char>, Seq<usize>)>::empty());
            assert(r.dirty_v() =~= Seq::<KeyV>::empty());
        }
        r
    }

    /// An immutable borrow of the whole page, for wholesale transmission.
    pub fn snapshot(&self) -> (r: &Page)
        ensures
            *r == self.page,
    {
        &self.page
    }

    /// Resolves a root-relative path to the node it addresses, or nothing
    /// if an index along the path is out of range.
    pub fn resolve_by_path(&self, path: &UiPath) -> (r: Option<&Element>)
        ensures
            match r {
                Some(n) => node_at(self.tree(), path@) == Some(n@),
                None => node_at(self.tree(), path@).is_none(),
            },
    {
        proof {
            assert(path.steps@.skip(0) =~= path@);
        }
        node_ref_at(&self.page.root, &path.steps, 0)
    }

    /// The path registered for `id`, if any: the first index entry with
    /// that id.
    fn find_path(&self, id: &String) -> (r: Option<UiPath>)
        ensures
            match spec_find(self.index_v(), id@) {
                Some(p) => r matches Some(q) && q@ == p,
                None => r is None,
            },
    {
        proof {
            assert(self.index_v().skip(0) =~= self.index_v());
        }
        let mut j: usize = 0;
        while j < self.index.len()
            invariant
                j <= self.index.len(),
                spec_find(self.index_v(), id@) == spec_find(
                    self.index_v().skip(j as int),
                    id@,
                ),
            decreases self.index.len() - j,
        {
            let entry = &self.index[j];
            proof {
                assert(self.index_v().skip(j as int)[0] == self.index_v()[j as int]);
            }
            if entry.0 == *id {
                return Some(entry.1.duplicate());
            }
            proof {
                assert(self.index_v().skip(j as int).drop_first() =~= self.index_v().skip(
                    j as int + 1,
                ));
            }
            j += 1;
        }
        proof {
            assert(self.index_v().skip(j as int) =~= Seq::<(Seq<char>, Seq<usize>)>::empty());
        }
        None
    }

    /// Resolves an id to the node the index registers it for; nothing if
    /// the id is absent from the index.
    pub fn resolve_by_id(&self, id: &String) -> (r: Option<&Element>)
        requires
            self.wf(),
        ensures
            match spec_find(self.index_v(), id@) {
                Some(p) => r matches Some(n) && node_at(self.tree(), p) == Some(n@),
                None => r is None,
            },
    {
        match self.find_path(id) {
            Some(p) => {
                proof {
                    lemma_spec_find_entry(self.index_v(), id@);
                }
                match self.resolve_by_path(&p) {
                    Some(n) => Some(n),
                    None => unreached(),
                }
            },
            None => None,
        }
    }

    /// Records `key` as dirty unless it already is; first-dirtied order is
    /// kept, repeated dirtying collapses.
    fn mark_dirty(&mut self, key: DirtyKey)
        requires
            key_valid(old(self).tree(), old(self).index_v(), key@),
        ensures
            final(self).page == old(self).page,
            final(self).index == old(self).index,
            final(self).dirty_v() == (if old(self).dirty_has(key@) {
                old(self).dirty_v()
            } else {
                old(self).dirty_v().push(key@)
            }),
    {
        let mut i: usize = 0;
        while i < self.dirty.len()
            invariant
                i <= self.dirty.len(),
                *self == *old(self),
                forall|j: int| 0 <= j < i ==> old(self).dirty_v()[j] != key@,
            decreases self.dirty.len() - i,
        {
            let hit = keys_equal(&self.dirty[i], &key);
            proof {
                assert(self.dirty@[i as int]@ == old(self).dirty_v()[i as int]);
            }
            if hit {
                return ;
            }
            i += 1;
        }
        let ghost kv = key@;
        proof {
            assert(!old(self).dirty_has(kv));
        }
        self.dirty.push(key);
        proof {
            assert(self.dirty_v() =~= old(self).dirty_v().push(kv));
        }
    }

    /// Atomically returns the batch of change records accumulated since the
    /// previous drain and clears the dirty set. Draining with nothing dirty
    /// yields an empty batch, never a failure.
    pub fn drain_changes(&mut self) -> (r: Vec<ChangeRecord>)
        requires
            old(self).wf(),
        ensures
            final(self).wf(),
            final(self).page == old(self).page,
            final(self).index == old(self).index,
            final(self).dirty_v() == Seq::<KeyV>::empty(),
            r@.len() == old(self).dirty_v().len(),
            forall|i: int| 0 <= i < r@.len() ==> (#[trigger] r@[i])@ == old(self).drain_batch()[i],
    {
        let mut out: Vec<ChangeRecord> = Vec::new();
        let mut i: usize = 0;
        while i < self.dirty.len()
            invariant
                *self == *old(self),
                self.wf(),
                i <= self.dirty.len(),
                out@.len() == i,
                forall|j: int| 0 <= j < i ==> (#[trigger] out@[j])@ == old(self).drain_batch()[j],
            decreases self.dirty.len() - i,
        {
            proof {
                assert(key_valid(self.tree(), self.index_v(), self.dirty_v()[i as int]));
            }
            let rec = match &self.dirty[i] {
                DirtyKey::ById(s) => {
                    proof {
                        lemma_spec_find_entry(self.index_v(), s@);
                    }
                    let n = match self.find_path(s) {
                        Some(p) => match self.resolve_by_path(&p) {
                            Some(n) => n,
                            None => unreached(),
                        },
                        None => unreached(),
                    };
                    ChangeRecord {
                        target: DirtyKey::ById(s.clone()),
                        kind: n.kind,
                        text: n.text.clone(),
                        selectable: n.selectable,
                    }
                },
                DirtyKey::ByPath(q) => {
                    let n = match self.resolve_by_path(q) {
                        Some(n) => n,
                        None => unreached(),
                    };
                    ChangeRecord {
                        target: DirtyKey::ByPath(q.duplicate()),
                        kind: n.kind,
                        text: n.text.clone(),
                        selectable: n.selectable,
                    }
                },
            };
            out.push(rec);
            proof {
                assert(out@[i as int]@ == old(self).drain_batch()[i as int]);
            }
            i += 1;
        }
        self.dirty = Vec::new();
        proof {
            assert(self.dirty_v() =~= Seq::<KeyV>::empty());
        }
        out
    }
}

/// Walks `steps[i..]` down from `e` to the addressed node.
fn node_ref_at<'a>(e: &'a Element, steps: &Vec<usize>, i: usize) -> (r: Option<&'a Element>)
    requires
        i <= steps.len(),
    ensures
        match r {
            Some(n) => node_at(e@, steps@.skip(i as int)) == Some(n@),
            None => node_at(e@, steps@.skip(i as int)).is_none(),
        },
    decreases steps.len() - i,
{
    proof {
        lemma_view_children_index(e.children@);
    }
    if i == steps.len() {
        proof {
            assert(steps@.skip(i as int) =~= Seq::<usize>::empty());
        }
        Some(e)
    } else {
        let k = steps[i];
        proof {
            assert(steps@.skip(i as int).len() > 0);
            assert(steps@.skip(i as int)[0] == steps@[i as int]);
            assert(steps@.skip(i as int).drop_first() =~= steps@.skip(i as int + 1));
        }
        if k < e.children.len() {
            proof {
                assert(e@.children[k as int] == e.children@[k as int]@);
            }
            node_ref_at(&e.children[k], steps, i + 1)
        } else {
            None
        }
    }
}


/// The dirty set after recording `k`: unchanged if already present, else
/// `k` appended.
pub open spec fn dirty_after(d: Seq<KeyV>, k: KeyV) -> Seq<KeyV> {
    if exists|i: int| 0 <= i < d.len() && d[i] == k {
        d
    } else {
        d.push(k)
    }
}

/// The key under which the node at `p` (with value `m`, in index `idx`) is
/// recorded: its id when the index maps that id to `p`, else its path.
pub open spec fn key_of(idx: Seq<(Seq<char>, Seq<usize>)>, p: Seq<usize>, m: ElementV) -> KeyV {
    match m.id {
        Some(i) => if spec_find(idx, i) == Some(p) {
            KeyV::ById(i)
        } else {
            KeyV::ByPath(p)
        },
        None => KeyV::ByPath(p),
    }
}

/// One attribute assignment, applied through the manager at a path.
enum SetOp {
    Kind(ElementKind),
    Text(String),
}

/// The value of node `m` after applying `op`.
spec fn applied(m: ElementV, op: SetOp) -> ElementV {
    match op {
        SetOp::Kind(k) => ElementV { kind: k, ..m },
        SetOp::Text(s) => ElementV { text: s@, ..m },
    }
}

/// Applies `op` to the node addressed by `steps[i..]` below `e`.
fn apply_at(e: &mut Element, steps: &Vec<usize>, i: usize, op: SetOp) -> (ok: bool)
    requires
        i <= steps.len(),
    ensures
        match node_at(old(e)@, steps@.skip(i as int)) {
            Some(m) => ok && final(e)@ == update_at(old(e)@, steps@.skip(i as int), applied(m, op)),
            None => !ok && final(e)@ == old(e)@,
        },
    decreases steps.len() - i,
{
    proof {
        lemma_view_children_index(e.children@);
    }
    if i == steps.len() {
        proof {
            assert(steps@.skip(i as int) =~= Seq::<usize>::empty());
        }
        match op {
            SetOp::Kind(k) => e.set_kind(k),
            SetOp::Text(s) => e.set_text(s),
        }
        true
    } else {
        let k = steps[i];
        let ghost sfx = steps@.skip(i as int);
        proof {
            assert(sfx.len() > 0);
            assert(sfx[0] == steps@[i as int]);
            assert(sfx.drop_first() =~= steps@.skip(i as int + 1));
        }
        if k < e.children.len() {
            let ghost pre = *e;
            let mut child = e.children.remove(k);
            let ok = apply_at(&mut child, steps, i + 1, op);
            let ghost childf = child;
            e.children.insert(k, child);
            proof {
                assert(pre == *old(e));
                assert(e.children@ =~= pre.children@.update(k as int, childf));
                lemma_view_children_update(pre.children@, k as int, childf);
                assert(pre@.children[k as int] == pre.children@[k as int]@);
                assert(e@.children == view_children(pre.children@).update(k as int, childf@));
                assert(node_at(pre@, sfx) == node_at(pre@.children[k as int], sfx.drop_first()));
                if node_at(pre@, sfx).is_some() {
                    assert(e@ =~= update_at(pre@, sfx, applied(node_at(pre@, sfx).unwrap(), op)));
                } else {
                    assert(childf@ == pre@.children[k as int]);
                    assert forall|j: int| 0 <= j < e@.children.len() implies e@.children[j]
                        == pre@.children[j] by {
                        if j != k as int {
                            assert(e@.children[j] == pre@.children[j]);
                        }
                    }
                    assert(e@.children =~= pre@.children);
                    assert(e@ =~= pre@);
                }
            }
            ok
        } else {
            proof {
                assert(e@.children.len() == e.children@.len());
            }
            false
        }
    }
}

/// Appends `child` as the last child of the node addressed by
/// `steps[i..]` below `e`.
fn append_rec(e: &mut Element, steps: &Vec<usize>, i: usize, child: Element) -> (ok: bool)
    requires
        i <= steps.len(),
    ensures
        match node_at(old(e)@, steps@.skip(i as int)) {
            Some(m) => if m.children.len() < usize::MAX {
                ok && final(e)@ == append_at(old(e)@, steps@.skip(i as int), child@)
            } else {
                !ok && final(e)@ == old(e)@
            },
            None => !ok && final(e)@ == old(e)@,
        },
    decreases steps.len() - i,
{
    proof {
        lemma_view_children_index(e.children@);
    }
    if i == steps.len() {
        proof {
            assert(steps@.skip(i as int) =~= Seq::<usize>::empty());
            assert(e@.children.len() == e.children@.len());
        }
        if e.children.len() < usize::MAX {
            e.append_child(child);
            proof {
                assert(update_at(old(e)@, Seq::<usize>::empty(), with_appended(old(e)@, child@))
                    == with_appended(old(e)@, child@));
            }
            true
        } else {
            false
        }
    } else {
        let k = steps[i];
        let ghost sfx = steps@.skip(i as int);
        proof {
            assert(sfx.len() > 0);
            assert(sfx[0] == steps@[i as int]);
            assert(sfx.drop_first() =~= steps@.skip(i as int + 1));
        }
        if k < e.children.len() {
            let ghost pre = *e;
            let ghost cv = child@;
            let mut ch = e.children.remove(k);
            let ok = append_rec(&mut ch, steps, i + 1, child);
            let ghost childf = ch;
            e.children.insert(k, ch);
            proof {
                assert(pre == *old(e));
                assert(e.children@ =~= pre.children@.update(k as int, childf));
                lemma_view_children_update(pre.children@, k as int, childf);
                assert(pre@.children[k as int] == pre.children@[k as int]@);
                assert(e@.children == view_children(pre.children@).update(k as int, childf@));
                assert(node_at(pre@, sfx) == node_at(pre@.children[k as int], sfx.drop_first()));
                if node_at(pre@, sfx).is_some() {
                    let m = node_at(pre@, sfx).unwrap();
                    if m.children.len() < usize::MAX {
                        assert(childf@ == append_at(pre@.children[k as int], sfx.drop_first(), cv));
                        assert(e@ =~= update_at(pre@, sfx, with_appended(m, cv)));
                    } else {
                        assert(childf@ == pre@.children[k as int]);
                        assert forall|j: int| 0 <= j < e@.children.len() implies e@.children[j]
                            == pre@.children[j] by {
                            if j != k as int {
                                assert(e@.children[j] == pre@.children[j]);
                            }
                        }
                        assert(e@.children =~= pre@.children);
                        assert(e@ =~= pre@);
                    }
                } else {
                    assert(childf@ == pre@.children[k as int]);
                    assert forall|j: int| 0 <= j < e@.children.len() implies e@.children[j]
                        == pre@.children[j] by {
                        if j != k as int {
                            assert(e@.children[j] == pre@.children[j]);
                        }
                    }
                    assert(e@.children =~= pre@.children);
                    assert(e@ =~= pre@);
                }
            }
            ok
        } else {
            proof {
                assert(e@.children.len() == e.children@.len());
            }
            false
        }
    }
}

/// Registers every id inside `e`, rooted at `base`, in `out`, in preorder.
fn collect_id_paths(e: &Element, base: &UiPath, out: &mut Vec<(String, UiPath)>)
    ensures
        pairs_v(final(out)@) == pairs_v(old(out)@) + id_pairs(e@, base@),
    decreases *e,
{
    let ghost ownpairs: Seq<(Seq<char>, Seq<usize>)> = match e@.id {
        Some(i) => seq![(i, base@)],
        None => Seq::empty(),
    };
    match &e.id {
        Some(i) => {
            out.push((i.clone(), base.duplicate()));
            proof {
                assert(pairs_v(out@) =~= pairs_v(old(out)@) + ownpairs);
            }
        },
        None => {
            proof {
                assert(pairs_v(out@) =~= pairs_v(old(out)@) + ownpairs);
            }
        },
    }
    proof {
        lemma_view_children_index(e.children@);
        assert(pairs_v(out@) + id_pairs_from(e@.children, base@, 0) =~= pairs_v(old(out)@)
            + id_pairs(e@, base@));
    }
    let mut k: usize = 0;
    while k < e.children.len()
        invariant
            k <= e.children.len(),
            e.children.len() == e@.children.len(),
            pairs_v(out@) + id_pairs_from(e@.children, base@, k as int) == pairs_v(old(out)@)
                + id_pairs(e@, base@),
        decreases e.children.len() - k,
    {
        let mut childbase = base.duplicate();
        childbase.push_step(k);
        proof {
            lemma_view_children_index(e.children@);
            assert(e@.children[k as int] == e.children@[k as int]@);
        }
        let ghost before = out@;
        collect_id_paths(&e.children[k], &childbase, out);
        proof {
            assert(id_pairs_from(e@.children, base@, k as int) == id_pairs(
                e@.children[k as int],
                base@.push(k),
            ) + id_pairs_from(e@.children, base@, k as int + 1));
            assert(pairs_v(out@) =~= pairs_v(before) + id_pairs(e@.children[k as int], base@.push(k)));
            assert(pairs_v(out@) + id_pairs_from(e@.children, base@, k as int + 1) =~= pairs_v(
                old(out)@,
            ) + id_pairs(e@, base@));
        }
        k += 1;
    }
    proof {
        assert(id_pairs_from(e@.children, base@, k as int) == Seq::<(Seq<char>, Seq<usize>)>::empty());
        assert(pairs_v(out@) =~= pairs_v(out@) + id_pairs_from(e@.children, base@, k as int));
    }
}


impl PageManager {
    /// Sets the kind of the node addressed by `path` and records it dirty;
    /// fails (and changes nothing) if the path addresses no node.
    pub fn set_kind_at(&mut self, path: &UiPath, kind: ElementKind) -> (ok: bool)
        requires
            old(self).wf(),
        ensures
            final(self).wf(),
            final(self).index == old(self).index,
            final(self).page.owner@ == old(self).page.owner@,
            final(self).page.title@ == old(self).page.title@,
            match node_at(old(self).tree(), path@) {
                Some(m) => ok && final(self).tree() == update_at(
                    old(self).tree(),
                    path@,
                    (ElementV { kind, ..m }),
                ) && final(self).dirty_v() == dirty_after(
                    old(self).dirty_v(),
                    key_of(old(self).index_v(), path@, m),
                ),
                None => !ok && final(self).tree() == old(self).tree() && final(self).dirty_v()
                    == old(self).dirty_v(),
            },
    {
        let id_opt: Option<String> = match self.resolve_by_path(path) {
            Some(n) => match &n.id {
                Some(s) => Some(s.clone()),
                None => None,
            },
            None => {
                return false;
            },
        };
        let ghost m = node_at(self.tree(), path@).unwrap();
        let ghost n2 = (ElementV { kind, ..m });
        let ok = apply_at(&mut self.page.root, &path.steps, 0, SetOp::Kind(kind));
        proof {
            assert(path.steps@.skip(0) =~= path@);
            assert(ok);
            assert(self.tree() == update_at(old(self).tree(), path@, n2));
            lemma_update_frame(old(self).tree(), path@, n2);
        }
        let key = match id_opt {
            Some(i) => match self.find_path(&i) {
                Some(q) => if paths_equal(&q, path) {
                    DirtyKey::ById(i)
                } else {
                    DirtyKey::ByPath(path.duplicate())
                },
                None => DirtyKey::ByPath(path.duplicate()),
            },
            None => DirtyKey::ByPath(path.duplicate()),
        };
        proof {
            assert(key@ == key_of(old(self).index_v(), path@, m));
            assert(key_valid(self.tree(), self.index_v(), key@));
        }
        let ghost mid = *self;
        self.mark_dirty(key);
        proof {
            assert(self.dirty_v() == dirty_after(old(self).dirty_v(), key@));
            assert forall|j: int|
                0 <= j < self.index_v().len() implies id_at(
                self.tree(),
                (#[trigger] self.index_v()[j]).1,
            ) == Some(self.index_v()[j].0) by {
                assert(id_at(old(self).tree(), self.index_v()[j].1) == Some(self.index_v()[j].0));
            }
            assert forall|i: int|
                0 <= i < self.dirty_v().len() implies key_valid(
                self.tree(),
                self.index_v(),
                #[trigger] self.dirty_v()[i],
            ) by {
                if i < old(self).dirty_v().len() {
                    assert(key_valid(old(self).tree(), old(self).index_v(), old(self).dirty_v()[i]));
                    assert(self.dirty_v()[i] == old(self).dirty_v()[i]);
                }
            }
            assert forall|i1: int, i2: int|
                0 <= i1 < i2 < self.dirty_v().len() implies self.dirty_v()[i1] != self.dirty_v()[i2]
                by {
                if i2 < old(self).dirty_v().len() {
                } else {
                    assert(!old(self).dirty_has(key@));
                }
            }
        }
        ok
    }

    /// Sets the text of the node registered for `id` and records it dirty
    /// under that id; fails (and changes nothing) if the id is not indexed.
    pub fn set_text_by_id(&mut self, id: &String, text: String) -> (ok: bool)
        requires
            old(self).wf(),
        ensures
            final(self).wf(),
            final(self).index == old(self).index,
            final(self).page.owner@ == old(self).page.owner@,
            final(self).page.title@ == old(self).page.title@,
            match spec_find(old(self).index_v(), id@) {
                Some(p) => ok && final(self).tree() == update_at(
                    old(self).tree(),
                    p,
                    (ElementV { text: text@, ..node_at(old(self).tree(), p).unwrap() }),
                ) && final(self).dirty_v() == dirty_after(old(self).dirty_v(), KeyV::ById(id@)),
                None => !ok && final(self).tree() == old(self).tree() && final(self).dirty_v()
                    == old(self).dirty_v(),
            },
    {
        let p = match self.find_path(id) {
            Some(p) => p,
            None => {
                return false;
            },
        };
        let ghost pv = p@;
        proof {
            lemma_spec_find_entry(self.index_v(), id@);
            assert(id_at(self.tree(), pv) == Some(id@));
        }
        let ghost m = node_at(self.tree(), pv).unwrap();
        let ghost n2 = (ElementV { text: text@, ..m });
        let ok = apply_at(&mut self.page.root, &p.steps, 0, SetOp::Text(text));
        proof {
            assert(p.steps@.skip(0) =~= pv);
            assert(ok);
            assert(self.tree() == update_at(old(self).tree(), pv, n2));
            lemma_update_frame(old(self).tree(), pv, n2);
        }
        proof {
            assert(key_valid(self.tree(), self.index_v(), KeyV::ById(id@)));
        }
        self.mark_dirty(DirtyKey::ById(id.clone()));
        proof {
            assert(self.dirty_v() == dirty_after(old(self).dirty_v(), KeyV::ById(id@)));
            assert forall|j: int|
                0 <= j < self.index_v().len() implies id_at(
                self.tree(),
                (#[trigger] self.index_v()[j]).1,
            ) == Some(self.index_v()[j].0) by {
                assert(id_at(old(self).tree(), self.index_v()[j].1) == Some(self.index_v()[j].0));
            }
            assert forall|i: int|
                0 <= i < self.dirty_v().len() implies key_valid(
                self.tree(),
                self.index_v(),
                #[trigger] self.dirty_v()[i],
            ) by {
                if i < old(self).dirty_v().len() {
                    assert(key_valid(old(self).tree(), old(self).index_v(), old(self).dirty_v()[i]));
                    assert(self.dirty_v()[i] == old(self).dirty_v()[i]);
                }
            }
            assert forall|i1: int, i2: int|
                0 <= i1 < i2 < self.dirty_v().len() implies self.dirty_v()[i1] != self.dirty_v()[i2]
                by {
                if i2 < old(self).dirty_v().len() {
                } else {
                    assert(!old(self).dirty_has(KeyV::ById(id@)));
                }
            }
        }
        true
    }

    /// Appends `child` as the last child of the node addressed by `path`,
    /// registers every id inside `child` in the index, and records the
    /// appended node dirty; fails (and changes nothing) if the path
    /// addresses no node. Assigning an id already present in the index is a
    /// caller error: lookups keep resolving to the first registration.
    pub fn append_child_at(&mut self, path: &UiPath, child: Element) -> (ok: bool)
        requires
            old(self).wf(),
        ensures
            final(self).wf(),
            final(self).page.owner@ == old(self).page.owner@,
            final(self).page.title@ == old(self).page.title@,
            match node_at(old(self).tree(), path@) {
                Some(m) => if m.children.len() < usize::MAX {
                    ok && final(self).tree() == append_at(old(self).tree(), path@, child@)
                        && final(self).index_v() == old(self).index_v() + id_pairs(
                        child@,
                        appended_path(old(self).tree(), path@),
                    ) && final(self).dirty_v() == dirty_after(
                        old(self).dirty_v(),
                        key_of(
                            old(self).index_v() + id_pairs(
                                child@,
                                appended_path(old(self).tree(), path@),
                            ),
                            appended_path(old(self).tree(), path@),
                            child@,
                        ),
                    )
                } else {
                    !ok && final(self).tree() == old(self).tree() && final(self).index
                        == old(self).index && final(self).dirty_v() == old(self).dirty_v()
                },
                None => !ok && final(self).tree() == old(self).tree() && final(self).index
                    == old(self).index && final(self).dirty_v() == old(self).dirty_v(),
            },
    {
        let k = match self.resolve_by_path(path) {
            Some(n) => {
                proof {
                    lemma_view_children_index(n.children@);
                }
                n.children.len()
            },
            None => {
                return false;
            },
        };
        if k == usize::MAX {
            return false;
        }
        let ghost oldtree = self.tree();
        let ghost m = node_at(oldtree, path@).unwrap();
        let ghost cv = child@;
        let ghost np = appended_path(oldtree, path@);
        let mut npx = path.duplicate();
        npx.push_step(k);
        proof {
            assert(npx@ == np);
        }
        let ghost oldindex = self.index@;
        collect_id_paths(&child, &npx, &mut self.index);
        proof {
            assert(self.index_v() == pairs_v(oldindex) + id_pairs(cv, np));
        }
        let cid: Option<String> = match &child.id {
            Some(s) => Some(s.clone()),
            None => None,
        };
        let ok = append_rec(&mut self.page.root, &path.steps, 0, child);
        proof {
            assert(path.steps@.skip(0) =~= path@);
            assert(ok);
            assert(self.tree() == append_at(oldtree, path@, cv));
            lemma_append_frame(oldtree, path@, cv);
            assert(np + Seq::<usize>::empty() =~= np);
            assert(node_at(self.tree(), np) == node_at(cv, Seq::<usize>::empty()));
            lemma_id_pairs_resolve(self.tree(), cv, np);
        }
        let key = match cid {
            Some(i) => match self.find_path(&i) {
                Some(q) => if paths_equal(&q, &npx) {
                    DirtyKey::ById(i)
                } else {
                    DirtyKey::ByPath(npx)
                },
                None => DirtyKey::ByPath(npx),
            },
            None => DirtyKey::ByPath(npx),
        };
        proof {
            assert(key@ == key_of(self.index_v(), np, cv));
            assert(key_valid(self.tree(), self.index_v(), key@));
        }
        self.mark_dirty(key);
        proof {
            assert(self.dirty_v() == dirty_after(old(self).dirty_v(), key@));
            assert forall|j: int|
                0 <= j < self.index_v().len() implies id_at(
                self.tree(),
                (#[trigger] self.index_v()[j]).1,
            ) == Some(self.index_v()[j].0) by {
                if j < old(self).index_v().len() {
                    assert(self.index_v()[j] == old(self).index_v()[j]);
                    assert(id_at(oldtree, old(self).index_v()[j].1) == Some(
                        old(self).index_v()[j].0,
                    ));
                    assert(node_at(oldtree, old(self).index_v()[j].1).is_some());
                } else {
                    assert(self.index_v()[j] == id_pairs(cv, np)[j - old(self).index_v().len()]);
                }
            }
            assert forall|i: int|
                0 <= i < self.dirty_v().len() implies key_valid(
                self.tree(),
                self.index_v(),
                #[trigger] self.dirty_v()[i],
            ) by {
                if i < old(self).dirty_v().len() {
                    assert(key_valid(oldtree, old(self).index_v(), old(self).dirty_v()[i]));
                    assert(self.dirty_v()[i] == old(self).dirty_v()[i]);
                    match old(self).dirty_v()[i] {
                        KeyV::ById(s) => {
                            lemma_spec_find_extend(old(self).index_v(), id_pairs(cv, np), s);
                        },
                        KeyV::ByPath(q) => {
                            assert(node_at(oldtree, q).is_some());
                        },
                    }
                }
            }
            assert forall|i1: int, i2: int|
                0 <= i1 < i2 < self.dirty_v().len() implies self.dirty_v()[i1] != self.dirty_v()[i2]
                by {
                if i2 < old(self).dirty_v().len() {
                } else {
                    assert(!old(self).dirty_has(key@));
                }
            }
        }
        ok
    }
}

} // verus!
