//! The element tree: typed nodes with an optional id, a text attribute, a
//! selectable flag, and an ordered sequence of exclusively owned children.

use vstd::prelude::*;

verus! {

/// The visual kind of a tree node.
#[derive(Clone, Copy, PartialEq, Eq, Structural, Debug)]
pub enum ElementKind {
    /// A container laying its children out as rows.
    Rows,
    /// A container laying its children out as columns.
    Columns,
    /// Flexible empty space between siblings.
    Spacer,
    /// A selectable push button.
    Button,
    /// A selectable text-entry field.
    TextEntry,
    /// A plain text label.
    Label,
}

/// The mathematical value of an [`Element`]: the same attributes over
/// `Seq`, with the subtree as a sequence of child values.
#[verifier::ext_equal]
pub struct ElementV {
    pub kind: ElementKind,
    pub id: Option<Seq<char>>,
    pub text: Seq<char>,
    pub selectable: bool,
    pub children: Seq<ElementV>,
}

/// One node of the UI tree. Children are owned exclusively by their parent;
/// nodes are appended during construction and never removed or reordered.
pub struct Element {
    pub kind: ElementKind,
    pub id: Option<String>,
    pub text: String,
    pub selectable: bool,
    pub children: Vec<Element>,
}

impl Element {
    /// The abstract value of this node and its whole subtree.
    pub open spec fn view(&self) -> ElementV
        decreases self,
    {
        ElementV {
            kind: self.kind,
            id: match self.id {
                Some(s) => Some(s@),
                None => None,
            },
            text: self.text@,
            selectable: self.selectable,
            children: view_children(self.children@),
        }
    }
}

impl Element {
    /// A fresh node of the given kind: no id, empty text, not selectable,
    /// no children.
    pub fn new(kind: ElementKind) -> (r: Element)
        ensures
            r@ == (ElementV {
                kind,
                id: None,
                text: Seq::empty(),
                selectable: false,
                children: Seq::empty(),
            }),
    {
        Element { kind, id: None, text: String::new(), selectable: false, children: Vec::new() }
    }

    /// A plain label holding the given text.
    pub fn from_string(text: &str) -> (r: Element)
        ensures
            r@ == (ElementV {
                kind: ElementKind::Label,
                id: None,
                text: text@,
                selectable: false,
                children: Seq::empty(),
            }),
    {
        Element {
            kind: ElementKind::Label,
            id: None,
            text: text.to_owned(),
            selectable: false,
            children: Vec::new(),
        }
    }

    /// Replaces this node's kind; everything else is untouched.
    pub fn set_kind(&mut self, kind: ElementKind)
        ensures
            final(self)@ == (ElementV { kind, ..old(self)@ }),
    {
        self.kind = kind;
    }

    /// Replaces this node's text; everything else is untouched.
    pub fn set_text(&mut self, text: String)
        ensures
            final(self)@ == (ElementV { text: text@, ..old(self)@ }),
    {
        self.text = text;
    }

    /// Replaces this node's selectable flag; everything else is untouched.
    pub fn set_selectable(&mut self, selectable: bool)
        ensures
            final(self)@ == (ElementV { selectable, ..old(self)@ }),
    {
        self.selectable = selectable;
    }

    /// Assigns an id to this node; everything else is untouched. Uniqueness
    /// across a whole tree is the caller's obligation at append time.
    pub fn set_id(&mut self, id: &str)
        ensures
            final(self)@ == (ElementV { id: Some(id@), ..old(self)@ }),
    {
        self.id = Some(id.to_owned());
    }

    /// An independent copy of this node and its whole subtree.
    pub fn duplicate(&self) -> (r: Element)
        ensures
            r@ == self@,
        decreases *self,
    {
        let id = match &self.id {
            Some(s) => Some(s.clone()),
            None => None,
        };
        let mut children: Vec<Element> = Vec::new();
        let mut k: usize = 0;
        while k < self.children.len()
            invariant
                k <= self.children.len(),
                children@.len() == k,
                forall|i: int| 0 <= i < k ==> #[trigger] children@[i].view()
                    == self.children@[i].view(),
            decreases self.children.len() - k,
        {
            children.push(self.children[k].duplicate());
            k += 1;
        }
        proof {
            lemma_view_children_index(children@);
            lemma_view_children_index(self.children@);
            assert forall|i: int| 0 <= i < children@.len() implies view_children(children@)[i]
                == view_children(self.children@)[i] by {
                assert(children@[i].view() == self.children@[i].view());
            }
            assert(view_children(children@) =~= view_children(self.children@));
        }
        let r = Element {
            kind: self.kind,
            id,
            text: self.text.clone(),
            selectable: self.selectable,
            children,
        };
        r
    }

    /// Appends a child at the end of this node's child list, preserving the
    /// order of the existing children.
    pub fn append_child(&mut self, child: Element)
        ensures
            final(self)@ == (ElementV {
                children: old(self)@.children.push(child@),
                ..old(self)@
            }),
    {
        let ghost pre = self.children@;
        let ghost c = child;
        self.children.push(child);
        proof {
            lemma_view_children_push(pre, c);
        }
    }
}

/// The abstract values of a sequence of nodes, in order.
pub open spec fn view_children(s: Seq<Element>) -> Seq<ElementV>
    decreases s,
{
    if s.len() == 0 {
        Seq::empty()
    } else {
        seq![s[0].view()] + view_children(s.drop_first())
    }
}

/// Appending a node appends its view.
pub proof fn lemma_view_children_push(s: Seq<Element>, e: Element)
    ensures
        view_children(s.push(e)) == view_children(s).push(e.view()),
    decreases s.len(),
{
    if s.len() == 0 {
        assert(s.push(e).drop_first() =~= Seq::<Element>::empty());
        assert(s.push(e)[0] == e);
        assert(view_children(s.push(e)) == seq![e.view()] + view_children(s.push(e).drop_first()));
        assert(view_children(s.push(e)) =~= view_children(s).push(e.view()));
    } else {
        lemma_view_children_push(s.drop_first(), e);
        assert(s.push(e).drop_first() =~= s.drop_first().push(e));
        assert(view_children(s.push(e)) =~= view_children(s).push(e.view()));
    }
}

/// Replacing a node replaces its view.
pub proof fn lemma_view_children_update(s: Seq<Element>, k: int, e: Element)
    requires
        0 <= k < s.len(),
    ensures
        view_children(s.update(k, e)) == view_children(s).update(k, e.view()),
    decreases s.len(),
{
    if k == 0 {
        assert(s.update(k, e).drop_first() =~= s.drop_first());
        assert(view_children(s.update(k, e)) =~= view_children(s).update(k, e.view()));
    } else {
        lemma_view_children_update(s.drop_first(), k - 1, e);
        assert(s.update(k, e).drop_first() =~= s.drop_first().update(k - 1, e));
        lemma_view_children_index(s);
        lemma_view_children_index(s.update(k, e));
        assert(view_children(s.update(k, e)) =~= view_children(s).update(k, e.view()));
    }
}

/// `view_children` maps each node to its view, index by index.
pub proof fn lemma_view_children_index(s: Seq<Element>)
    ensures
        view_children(s).len() == s.len(),
        forall|i: int| 0 <= i < s.len() ==> view_children(s)[i] == #[trigger] s[i].view(),
    decreases s.len(),
{
    if s.len() > 0 {
        lemma_view_children_index(s.drop_first());
        assert forall|i: int| 0 <= i < s.len() implies view_children(s)[i] == #[trigger] s[i]
            .view() by {
            if i > 0 {
                assert(s.drop_first()[i - 1] == s[i]);
                assert(view_children(s)[i] == view_children(s.drop_first())[i - 1]);
            }
        }
    }
}

} // verus!
