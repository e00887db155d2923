//! The peripheral controller: builds the initial page, and maps each
//! inbound input identifier to a counter or text mutation followed by
//! exactly one outbound incremental update.

use vstd::prelude::*;
use vstd::string::StringExecFns;
use crate::element::{Element, ElementKind, ElementV};
use crate::message::{Message, RouterMessage, UiInput, UiMessage};
use crate::numfmt::{dec_string, u64_to_string};
use crate::page::{
    id_pairs, id_pairs_from, records_v, snapshot_of, spec_find, KeyV, PageManager,
};
use crate::path::UiPath;
use crate::tree::{appended_path, node_at, update_at, with_appended};

verus! {

/// A plain label value.
pub open spec fn label_v(text: Seq<char>) -> ElementV {
    ElementV {
        kind: ElementKind::Label,
        id: None,
        text,
        selectable: false,
        children: Seq::empty(),
    }
}

/// A selectable button value with an id.
pub open spec fn button_v(text: Seq<char>, id: Seq<char>) -> ElementV {
    ElementV {
        kind: ElementKind::Button,
        id: Some(id),
        text,
        selectable: true,
        children: Seq::empty(),
    }
}

/// The tree the controller constructs at start-up.
pub open spec fn initial_tree() -> ElementV {
    ElementV {
        kind: ElementKind::Rows,
        id: None,
        text: Seq::empty(),
        selectable: false,
        children: seq![
            label_v("Value is: "@),
            (ElementV {
                kind: ElementKind::Label,
                id: Some("data"@),
                text: "0"@,
                selectable: false,
                children: Seq::empty(),
            }),
            (ElementV {
                kind: ElementKind::Columns,
                id: None,
                text: Seq::empty(),
                selectable: false,
                children: seq![
                    label_v("Increase:"@),
                    (ElementV {
                        kind: ElementKind::Spacer,
                        id: None,
                        text: Seq::empty(),
                        selectable: false,
                        children: Seq::empty(),
                    }),
                    button_v("Increase"@, "button"@),
                    button_v("Increase Five"@, "increase_5"@),
                ],
            }),
            (ElementV {
                kind: ElementKind::Columns,
                id: None,
                text: Seq::empty(),
                selectable: false,
                children: seq![
                    label_v("Decrease:"@),
                    (ElementV {
                        kind: ElementKind::Spacer,
                        id: None,
                        text: Seq::empty(),
                        selectable: false,
                        children: Seq::empty(),
                    }),
                    button_v("Decrease"@, "decrease"@),
                    button_v("Decrease Five"@, "decrease_5"@),
                ],
            }),
            button_v("Reset"@, "button3"@),
            (ElementV {
                kind: ElementKind::Label,
                id: Some("Output"@),
                text: "Output:"@,
                selectable: false,
                children: Seq::empty(),
            }),
            (ElementV {
                kind: ElementKind::TextEntry,
                id: Some("TextInput"@),
                text: "Text Input"@,
                selectable: true,
                children: Seq::empty(),
            }),
        ],
    }
}

/// The id index as construction registers it: every id of the initial
/// tree, each at its path, in registration order.
pub open spec fn initial_index() -> Seq<(Seq<char>, Seq<usize>)> {
    seq![
        ("data"@, seq![1usize]),
        ("button"@, seq![2usize, 2usize]),
        ("increase_5"@, seq![2usize, 3usize]),
        ("decrease"@, seq![3usize, 2usize]),
        ("decrease_5"@, seq![3usize, 3usize]),
        ("button3"@, seq![4usize]),
        ("Output"@, seq![5usize]),
        ("TextInput"@, seq![6usize]),
    ]
}

/// The input identifiers the controller acts on.
pub open spec fn recognized(id: Seq<char>) -> bool {
    ||| id == "button"@
    ||| id == "increase_5"@
    ||| id == "decrease"@
    ||| id == "decrease_5"@
    ||| id == "button3"@
    ||| id == "TextInput"@
}

/// The counter after one input: increments add, decrements saturate at
/// zero, reset clears, anything else leaves it alone.
pub open spec fn counter_step(c: nat, id: Seq<char>) -> nat {
    if id == "button"@ {
        c + 1
    } else if id == "increase_5"@ {
        c + 5
    } else if id == "decrease"@ {
        if c >= 1 {
            (c - 1) as nat
        } else {
            0
        }
    } else if id == "decrease_5"@ {
        if c >= 5 {
            (c - 5) as nat
        } else {
            0
        }
    } else if id == "button3"@ {
        0
    } else {
        c
    }
}

/// The six recognized input identifiers are pairwise distinct.
pub proof fn lemma_input_ids_distinct()
    ensures
        "button"@ != "increase_5"@ && "button"@ != "decrease"@ && "button"@ != "decrease_5"@
            && "button"@ != "button3"@ && "button"@ != "TextInput"@,
        "increase_5"@ != "decrease"@ && "increase_5"@ != "decrease_5"@ && "increase_5"@
            != "button3"@ && "increase_5"@ != "TextInput"@,
        "decrease"@ != "decrease_5"@ && "decrease"@ != "button3"@ && "decrease"@ != "TextInput"@,
        "decrease_5"@ != "button3"@ && "decrease_5"@ != "TextInput"@,
        "button3"@ != "TextInput"@,
        "data"@ != "button"@ && "data"@ != "increase_5"@ && "data"@ != "decrease"@ && "data"@
            != "decrease_5"@ && "data"@ != "button3"@ && "data"@ != "TextInput"@ && "data"@
            != "Output"@,
        "Output"@ != "button"@ && "Output"@ != "increase_5"@ && "Output"@ != "decrease"@
            && "Output"@ != "decrease_5"@ && "Output"@ != "button3"@ && "Output"@ != "TextInput"@,
{
    reveal_strlit("button");
    reveal_strlit("increase_5");
    reveal_strlit("decrease");
    reveal_strlit("decrease_5");
    reveal_strlit("button3");
    reveal_strlit("TextInput");
    reveal_strlit("data");
    reveal_strlit("Output");
    assert("button"@.len() == 6 && "increase_5"@.len() == 10 && "decrease"@.len() == 8
        && "decrease_5"@.len() == 10 && "button3"@.len() == 7 && "TextInput"@.len() == 9
        && "data"@.len() == 4 && "Output"@.len() == 6);
    assert("increase_5"@[0] == 'i' && "decrease_5"@[0] == 'd');
    assert("button"@[0] == 'b' && "Output"@[0] == 'O');
}

/// The application state: one managed page, the counter, and the last
/// committed text.
pub struct Controller {
    pub page: PageManager,
    pub counter: u64,
    pub text: String,
}

impl Controller {
    /// The controller's standing invariant: the page is well formed, the
    /// diff channel is drained between inputs, and the two display ids are
    /// registered.
    pub open spec fn inv(&self) -> bool {
        &&& self.page.wf()
        &&& self.page.dirty_v().len() == 0
        &&& spec_find(self.page.index_v(), "data"@).is_some()
        &&& spec_find(self.page.index_v(), "Output"@).is_some()
    }
}


impl Controller {
    /// Builds the initial page under the given owner identity, performs the
    /// throwaway drain so the diff channel starts clean, and returns the
    /// controller together with the two messages to send first: the
    /// identity property, then the full page.
    pub fn init(owner: String) -> (r: (Controller, Vec<Message>))
        ensures
            r.0.inv(),
            r.0.counter == 0,
            r.0.text@ == Seq::<char>::empty(),
            r.0.page.tree() == initial_tree(),
            r.0.page.index_v() == initial_index(),
            r.0.page.page.owner@ == owner@,
            r.0.page.page.title@ == "Test Page..."@,
            r.1@.len() == 2,
            (r.1@[0] matches Message::Router(RouterMessage::SetIdentityProperty(k, v)) && k@
                == "name"@ && v@ == "Test Peripheral"@),
            (r.1@[1] matches Message::Ui(UiMessage::SetPage(pg)) && pg.root@ == initial_tree()
                && pg.owner@ == owner@ && pg.title@ == "Test Page..."@),
    {
        let mut page = PageManager::new(owner, "Test Page...".to_owned());
        let root = UiPath::root();

        let _ = page.set_kind_at(&root, ElementKind::Rows);
        proof {
            assert(page.tree() == (ElementV {
                kind: ElementKind::Rows,
                id: None,
                text: Seq::empty(),
                selectable: false,
                children: Seq::empty(),
            }));
            assert(page.index_v() == Seq::<(Seq<char>, Seq<usize>)>::empty());
        }

        // "Value is: " label
        let c1 = Element::from_string("Value is: ");
        let ghost c1v = c1@;
        let ghost t1 = page.tree();
        let _ = page.append_child_at(&root, c1);
        proof {
            assert(appended_path(t1, root@) =~= seq![0usize]);
            assert(page.tree() == with_appended(t1, c1v));
            assert(id_pairs(c1v, seq![0usize]) =~~= Seq::<(Seq<char>, Seq<usize>)>::empty()) by {
                reveal_with_fuel(id_pairs, 2);
                reveal_with_fuel(id_pairs_from, 2);
            }
            assert(page.index_v() =~~= Seq::<(Seq<char>, Seq<usize>)>::empty());
        }

        // the counter display
        let mut c2 = Element::from_string("0");
        c2.set_id("data");
        let ghost c2v = c2@;
        let ghost t2 = page.tree();
        let _ = page.append_child_at(&root, c2);
        proof {
            assert(t2.children.len() == 1);
            assert(appended_path(t2, root@) =~= seq![1usize]);
            assert(page.tree() == with_appended(t2, c2v));
            assert(id_pairs(c2v, seq![1usize]) =~~= seq![("data"@, seq![1usize])]) by {
                reveal_with_fuel(id_pairs, 2);
                reveal_with_fuel(id_pairs_from, 2);
            }
            assert(page.index_v() =~~= seq![("data"@, seq![1usize])]);
        }

        // the increase row
        let mut c3 = Element::new(ElementKind::Columns);
        c3.append_child(Element::from_string("Increase:"));
        c3.append_child(Element::new(ElementKind::Spacer));
        let mut b1 = Element::from_string("Increase");
        b1.set_kind(ElementKind::Button);
        b1.set_selectable(true);
        b1.set_id("button");
        c3.append_child(b1);
        let mut b2 = Element::from_string("Increase Five");
        b2.set_kind(ElementKind::Button);
        b2.set_selectable(true);
        b2.set_id("increase_5");
        c3.append_child(b2);
        let ghost c3v = c3@;
        let ghost t3 = page.tree();
        let _ = page.append_child_at(&root, c3);
        proof {
            assert(c3v.children =~~= seq![
                label_v("Increase:"@),
                (ElementV {
                    kind: ElementKind::Spacer,
                    id: None,
                    text: Seq::empty(),
                    selectable: false,
                    children: Seq::empty(),
                }),
                button_v("Increase"@, "button"@),
                button_v("Increase Five"@, "increase_5"@),
            ]);
            assert(t3.children.len() == 2);
            assert(appended_path(t3, root@) =~= seq![2usize]);
            assert(page.tree() == with_appended(t3, c3v));
            assert(id_pairs(c3v, seq![2usize]) =~~= seq![
                ("button"@, seq![2usize, 2usize]),
                ("increase_5"@, seq![2usize, 3usize]),
            ]) by {
                reveal_with_fuel(id_pairs, 6);
                reveal_with_fuel(id_pairs_from, 12);
            }
            assert(page.index_v() =~~= seq![
                ("data"@, seq![1usize]),
                ("button"@, seq![2usize, 2usize]),
                ("increase_5"@, seq![2usize, 3usize]),
            ]);
        }

        // the decrease row
        let mut c4 = Element::new(ElementKind::Columns);
        c4.append_child(Element::from_string("Decrease:"));
        c4.append_child(Element::new(ElementKind::Spacer));
        let mut b3 = Element::from_string("Decrease");
        b3.set_kind(ElementKind::Button);
        b3.set_selectable(true);
        b3.set_id("decrease");
        c4.append_child(b3);
        let mut b4 = Element::from_string("Decrease Five");
        b4.set_kind(ElementKind::Button);
        b4.set_selectable(true);
        b4.set_id("decrease_5");
        c4.append_child(b4);
        let ghost c4v = c4@;
        let ghost t4 = page.tree();
        let _ = page.append_child_at(&root, c4);
        proof {
            assert(c4v.children =~~= seq![
                label_v("Decrease:"@),
                (ElementV {
                    kind: ElementKind::Spacer,
                    id: None,
                    text: Seq::empty(),
                    selectable: false,
                    children: Seq::empty(),
                }),
                button_v("Decrease"@, "decrease"@),
                button_v("Decrease Five"@, "decrease_5"@),
            ]);
            assert(t4.children.len() == 3);
            assert(appended_path(t4, root@) =~= seq![3usize]);
            assert(page.tree() == with_appended(t4, c4v));
            assert(id_pairs(c4v, seq![3usize]) =~~= seq![
                ("decrease"@, seq![3usize, 2usize]),
                ("decrease_5"@, seq![3usize, 3usize]),
            ]) by {
                reveal_with_fuel(id_pairs, 6);
                reveal_with_fuel(id_pairs_from, 12);
            }
            assert(page.index_v() =~~= seq![
                ("data"@, seq![1usize]),
                ("button"@, seq![2usize, 2usize]),
                ("increase_5"@, seq![2usize, 3usize]),
                ("decrease"@, seq![3usize, 2usize]),
                ("decrease_5"@, seq![3usize, 3usize]),
            ]);
        }

        // the reset button
        let mut c5 = Element::from_string("Reset");
        c5.set_kind(ElementKind::Button);
        c5.set_selectable(true);
        c5.set_id("button3");
        let ghost c5v = c5@;
        let ghost t5 = page.tree();
        let _ = page.append_child_at(&root, c5);
        proof {
            assert(t5.children.len() == 4);
            assert(appended_path(t5, root@) =~= seq![4usize]);
            assert(page.tree() == with_appended(t5, c5v));
            assert(id_pairs(c5v, seq![4usize]) =~~= seq![("button3"@, seq![4usize])]) by {
                reveal_with_fuel(id_pairs, 2);
                reveal_with_fuel(id_pairs_from, 2);
            }
        }

        // the text display
        let mut c6 = Element::from_string("Output:");
        c6.set_id("Output");
        let ghost c6v = c6@;
        let ghost t6 = page.tree();
        let _ = page.append_child_at(&root, c6);
        proof {
            assert(t6.children.len() == 5);
            assert(appended_path(t6, root@) =~= seq![5usize]);
            assert(page.tree() == with_appended(t6, c6v));
            assert(id_pairs(c6v, seq![5usize]) =~~= seq![("Output"@, seq![5usize])]) by {
                reveal_with_fuel(id_pairs, 2);
                reveal_with_fuel(id_pairs_from, 2);
            }
        }

        // the text entry
        let mut c7 = Element::from_string("Text Input");
        c7.set_kind(ElementKind::TextEntry);
        c7.set_selectable(true);
        c7.set_id("TextInput");
        let ghost c7v = c7@;
        let ghost t7 = page.tree();
        let _ = page.append_child_at(&root, c7);
        proof {
            assert(t7.children.len() == 6);
            assert(appended_path(t7, root@) =~= seq![6usize]);
            assert(page.tree() == with_appended(t7, c7v));
            assert(id_pairs(c7v, seq![6usize]) =~~= seq![("TextInput"@, seq![6usize])]) by {
                reveal_with_fuel(id_pairs, 2);
                reveal_with_fuel(id_pairs_from, 2);
            }
            assert(page.tree().children =~= seq![c1v, c2v, c3v, c4v, c5v, c6v, c7v]);
            assert(c1v =~~= initial_tree().children[0]);
            assert(c2v =~~= initial_tree().children[1]);
            assert(c3v =~~= initial_tree().children[2]);
            assert(c4v =~~= initial_tree().children[3]);
            assert(c5v =~~= initial_tree().children[4]);
            assert(c6v =~~= initial_tree().children[5]);
            assert(c7v =~~= initial_tree().children[6]);
            assert(page.tree() =~~= initial_tree());
            assert(page.index_v() =~~= initial_index());
        }

        // construction dirtied every appended node: drain once so the first
        // real transmission is exactly the full-page snapshot
        let _ = page.drain_changes();
        proof {
            lemma_input_ids_distinct();
            assert(spec_find(initial_index(), "data"@) == Some(seq![1usize])) by {
                reveal_with_fuel(spec_find, 10);
            }
            assert(spec_find(initial_index(), "Output"@) == Some(seq![5usize])) by {
                reveal_with_fuel(spec_find, 10);
            }
        }

        let ident = Message::Router(
            RouterMessage::SetIdentityProperty("name".to_owned(), "Test Peripheral".to_owned()),
        );
        let setpage = Message::Ui(UiMessage::SetPage(page.snapshot().duplicate()));
        let mut msgs: Vec<Message> = Vec::new();
        msgs.push(ident);
        msgs.push(setpage);
        (Controller { page, counter: 0, text: String::new() }, msgs)
    }
}


/// A recognized identifier that drives the counter (everything recognized
/// except text commit).
pub open spec fn counter_input(id: Seq<char>) -> bool {
    recognized(id) && id != "TextInput"@
}

/// How one UI message relates the controller state before and after, and
/// the reply sent: the transition table of the state machine.
pub open spec fn ui_transition(
    pre: Controller,
    post: Controller,
    msg: UiMessage,
    r: Option<Message>,
) -> bool {
    match msg {
        UiMessage::Input(id, _p, input) => {
            if counter_input(id@) {
                let c2 = counter_step(pre.counter as nat, id@);
                let dp = spec_find(pre.page.index_v(), "data"@).unwrap();
                &&& post.counter as nat == c2
                &&& post.text == pre.text
                &&& post.page.index_v() == pre.page.index_v()
                &&& post.page.tree() == update_at(
                    pre.page.tree(),
                    dp,
                    (ElementV { text: dec_string(c2), ..node_at(pre.page.tree(), dp).unwrap() }),
                )
                &&& (r matches Some(m) && m matches Message::Ui(um) && um
                    matches UiMessage::UpdateElements(b) && records_v(b@) == seq![
                    snapshot_of(post.page.tree(), post.page.index_v(), KeyV::ById("data"@)),
                ])
            } else if id@ == "TextInput"@ {
                match input {
                    UiInput::Text(s) => {
                        let op = spec_find(pre.page.index_v(), "Output"@).unwrap();
                        &&& post.counter == pre.counter
                        &&& post.text@ == s@
                        &&& post.page.index_v() == pre.page.index_v()
                        &&& post.page.tree() == update_at(
                            pre.page.tree(),
                            op,
                            (ElementV {
                                text: "Output: "@ + s@,
                                ..node_at(pre.page.tree(), op).unwrap()
                            }),
                        )
                        &&& (r matches Some(m) && m matches Message::Ui(um) && um
                            matches UiMessage::UpdateElements(b) && records_v(b@) == seq![
                            snapshot_of(
                                post.page.tree(),
                                post.page.index_v(),
                                KeyV::ById("Output"@),
                            ),
                        ])
                    },
                    UiInput::Click => {
                        &&& post.counter == pre.counter
                        &&& post.text == pre.text
                        &&& post.page.index_v() == pre.page.index_v()
                        &&& post.page.tree() == pre.page.tree()
                        &&& (r matches Some(m) && m matches Message::Ui(um) && um
                            matches UiMessage::UpdateElements(b) && b@.len() == 0)
                    },
                }
            } else {
                post == pre && r is None
            }
        },
        _ => post == pre && r is None,
    }
}

impl Controller {
    /// Writes the current counter into the "data" display and drains the
    /// batch into exactly one outbound update.
    fn push_counter_update(&mut self) -> (r: Option<Message>)
        requires
            old(self).inv(),
        ensures
            final(self).inv(),
            final(self).counter == old(self).counter,
            final(self).text == old(self).text,
            final(self).page.index_v() == old(self).page.index_v(),
            final(self).page.tree() == update_at(
                old(self).page.tree(),
                spec_find(old(self).page.index_v(), "data"@).unwrap(),
                (ElementV {
                    text: dec_string(old(self).counter as nat),
                    ..node_at(
                        old(self).page.tree(),
                        spec_find(old(self).page.index_v(), "data"@).unwrap(),
                    ).unwrap()
                }),
            ),
            (r matches Some(m) && m matches Message::Ui(um) && um
                matches UiMessage::UpdateElements(b) && records_v(b@) == seq![
                snapshot_of(final(self).page.tree(), final(self).page.index_v(), KeyV::ById("data"@)),
            ]),
    {
        let data_id: String = "data".to_owned();
        let t = u64_to_string(self.counter);
        let ok = self.page.set_text_by_id(&data_id, t);
        proof {
            assert(ok);
            assert(self.page.dirty_v() =~= Seq::<KeyV>::empty().push(KeyV::ById("data"@)));
        }
        let batch = self.page.drain_changes();
        proof {
            assert(records_v(batch@) =~= seq![
                snapshot_of(self.page.tree(), self.page.index_v(), KeyV::ById("data"@)),
            ]);
        }
        Some(Message::Ui(UiMessage::UpdateElements(batch)))
    }

    /// Handles one UI message: a recognized `Input` mutates the state,
    /// updates the display element, and yields exactly one outbound
    /// `UpdateElements`; everything else is acknowledged without action.
    pub fn handle_ui(&mut self, msg: UiMessage) -> (r: Option<Message>)
        requires
            old(self).inv(),
            old(self).counter <= u64::MAX - 5,
        ensures
            final(self).inv(),
            ui_transition(*old(self), *final(self), msg, r),
    {
        proof {
            lemma_input_ids_distinct();
        }
        match msg {
            UiMessage::Input(element_id, _path, change) => {
                if element_id == String::from_str("button") {
                    self.counter = self.counter + 1;
                    self.push_counter_update()
                } else if element_id == String::from_str("increase_5") {
                    self.counter = self.counter + 5;
                    self.push_counter_update()
                } else if element_id == String::from_str("decrease") {
                    if self.counter >= 1 {
                        self.counter = self.counter - 1;
                    } else {
                        self.counter = 0;
                    }
                    self.push_counter_update()
                } else if element_id == String::from_str("decrease_5") {
                    if self.counter >= 5 {
                        self.counter = self.counter - 5;
                    } else {
                        self.counter = 0;
                    }
                    self.push_counter_update()
                } else if element_id == String::from_str("button3") {
                    self.counter = 0;
                    self.push_counter_update()
                } else if element_id == String::from_str("TextInput") {
                    match change {
                        UiInput::Text(s) => {
                            self.text = s;
                            let disp = String::from_str("Output: ").concat(self.text.as_str());
                            let out_id: String = "Output".to_owned();
                            let ok = self.page.set_text_by_id(&out_id, disp);
                            proof {
                                assert(ok);
                                assert(self.page.dirty_v() =~= Seq::<KeyV>::empty().push(
                                    KeyV::ById("Output"@),
                                ));
                            }
                            let batch = self.page.drain_changes();
                            proof {
                                assert(records_v(batch@) =~= seq![
                                    snapshot_of(
                                        self.page.tree(),
                                        self.page.index_v(),
                                        KeyV::ById("Output"@),
                                    ),
                                ]);
                            }
                            Some(Message::Ui(UiMessage::UpdateElements(batch)))
                        },
                        UiInput::Click => {
                            let batch = self.page.drain_changes();
                            Some(Message::Ui(UiMessage::UpdateElements(batch)))
                        },
                    }
                } else {
                    None
                }
            },
            _ => None,
        }
    }

    /// Dispatches one inbound message: only the UI variant is acted on.
    pub fn handle_message(&mut self, msg: Message) -> (r: Option<Message>)
        requires
            old(self).inv(),
            old(self).counter <= u64::MAX - 5,
        ensures
            final(self).inv(),
            match msg {
                Message::Ui(m) => ui_transition(*old(self), *final(self), m, r),
                _ => *final(self) == *old(self) && r is None,
            },
    {
        match msg {
            Message::Ui(m) => self.handle_ui(m),
            _ => None,
        }
    }
}

} // verus!
