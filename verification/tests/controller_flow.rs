use peripheral_ui::controller::Controller;
use peripheral_ui::message::{Message, RouterMessage, UiInput, UiMessage};
use peripheral_ui::page::DirtyKey;

fn input(id: &str, payload: UiInput) -> Message {
    Message::Ui(UiMessage::Input(id.to_string(), None, payload))
}

fn expect_batch(r: Option<Message>) -> Vec<peripheral_ui::page::ChangeRecord> {
    match r {
        Some(Message::Ui(UiMessage::UpdateElements(b))) => b,
        other => panic!("expected one UpdateElements reply, got {:?}", other.is_some()),
    }
}

#[test]
fn init_produces_identity_then_full_page() {
    let (c, msgs) = Controller::init("owner".to_string());
    assert_eq!(msgs.len(), 2);
    match &msgs[0] {
        Message::Router(RouterMessage::SetIdentityProperty(k, v)) => {
            assert_eq!(k, "name");
            assert_eq!(v, "Test Peripheral");
        },
        _ => panic!("first message must set the identity property"),
    }
    match &msgs[1] {
        Message::Ui(UiMessage::SetPage(pg)) => {
            assert_eq!(pg.owner, "owner");
            assert_eq!(pg.title, "Test Page...");
            assert_eq!(pg.root.children.len(), 7);
        },
        _ => panic!("second message must carry the full page"),
    }
    assert_eq!(c.counter, 0);
    assert_eq!(c.text, "");
}

#[test]
fn initial_tree_ids_are_exactly_the_eight() {
    let (c, _msgs) = Controller::init("owner".to_string());
    let expected = [
        "data",
        "button",
        "increase_5",
        "decrease",
        "decrease_5",
        "button3",
        "Output",
        "TextInput",
    ];
    assert_eq!(c.page.index.len(), expected.len());
    for (entry, want) in c.page.index.iter().zip(expected.iter()) {
        assert_eq!(entry.0, *want);
    }
    for want in expected.iter() {
        let el = c.page.resolve_by_id(&want.to_string()).expect("id must resolve");
        assert_eq!(el.id.as_deref(), Some(*want));
    }
    for (i, entry) in c.page.index.iter().enumerate() {
        for other in c.page.index.iter().skip(i + 1) {
            assert_ne!(entry.0, other.0, "ids must be unique");
        }
    }
}

#[test]
fn button_increments_and_emits_one_record() {
    let (mut c, _msgs) = Controller::init("owner".to_string());
    let r = c.handle_message(input("button", UiInput::Click));
    assert_eq!(c.counter, 1);
    let batch = expect_batch(r);
    assert_eq!(batch.len(), 1);
    match &batch[0].target {
        DirtyKey::ById(s) => assert_eq!(s, "data"),
        _ => panic!("the record must target the id \"data\""),
    }
    assert_eq!(batch[0].text, "1");
    let el = c.page.resolve_by_id(&"data".to_string()).unwrap();
    assert_eq!(el.text, "1");
}

#[test]
fn decrease_at_zero_stays_zero_but_still_emits() {
    let (mut c, _msgs) = Controller::init("owner".to_string());
    let r = c.handle_message(input("decrease", UiInput::Click));
    assert_eq!(c.counter, 0);
    let batch = expect_batch(r);
    assert_eq!(batch.len(), 1);
    match &batch[0].target {
        DirtyKey::ById(s) => assert_eq!(s, "data"),
        _ => panic!("the record must target the id \"data\""),
    }
    assert_eq!(batch[0].text, "0");
}

#[test]
fn increase_five_then_decrease_five_sends_two_separate_diffs() {
    let (mut c, _msgs) = Controller::init("owner".to_string());
    let r1 = c.handle_message(input("increase_5", UiInput::Click));
    let b1 = expect_batch(r1);
    assert_eq!(b1.len(), 1);
    assert_eq!(b1[0].text, "5");
    assert_eq!(c.counter, 5);
    let r2 = c.handle_message(input("decrease_5", UiInput::Click));
    let b2 = expect_batch(r2);
    assert_eq!(b2.len(), 1);
    assert_eq!(b2[0].text, "0");
    assert_eq!(c.counter, 0);
}

#[test]
fn text_input_commits_text_and_updates_output() {
    let (mut c, _msgs) = Controller::init("owner".to_string());
    let r = c.handle_message(input("TextInput", UiInput::Text("hello".to_string())));
    assert_eq!(c.text, "hello");
    let batch = expect_batch(r);
    assert_eq!(batch.len(), 1);
    match &batch[0].target {
        DirtyKey::ById(s) => assert_eq!(s, "Output"),
        _ => panic!("the record must target the id \"Output\""),
    }
    assert_eq!(batch[0].text, "Output: hello");
    let el = c.page.resolve_by_id(&"Output".to_string()).unwrap();
    assert_eq!(el.text, "Output: hello");
}

#[test]
fn text_input_with_click_payload_emits_empty_batch() {
    let (mut c, _msgs) = Controller::init("owner".to_string());
    let r = c.handle_message(input("TextInput", UiInput::Click));
    let batch = expect_batch(r);
    assert_eq!(batch.len(), 0);
    assert_eq!(c.text, "");
}

#[test]
fn unknown_id_changes_nothing_and_sends_nothing() {
    let (mut c, _msgs) = Controller::init("owner".to_string());
    let r = c.handle_message(input("unknown_id", UiInput::Click));
    assert!(r.is_none());
    assert_eq!(c.counter, 0);
    assert_eq!(c.text, "");
    let el = c.page.resolve_by_id(&"data".to_string()).unwrap();
    assert_eq!(el.text, "0");
}

#[test]
fn reset_clears_the_counter() {
    let (mut c, _msgs) = Controller::init("owner".to_string());
    c.handle_message(input("button", UiInput::Click));
    c.handle_message(input("increase_5", UiInput::Click));
    assert_eq!(c.counter, 6);
    let r = c.handle_message(input("button3", UiInput::Click));
    assert_eq!(c.counter, 0);
    let batch = expect_batch(r);
    assert_eq!(batch[0].text, "0");
}

#[test]
fn buttons_interleaved_with_decreases_never_exceed_presses() {
    let (mut c, _msgs) = Controller::init("owner".to_string());
    let seq = [
        "button", "decrease", "decrease", "button", "button", "decrease", "button",
    ];
    let mut presses = 0u64;
    for id in seq.iter() {
        if *id == "button" {
            presses += 1;
        }
        c.handle_message(input(id, UiInput::Click));
        assert!(c.counter <= presses);
    }
    assert_eq!(c.counter, 2);
}

#[test]
fn non_ui_messages_are_ignored() {
    let (mut c, _msgs) = Controller::init("owner".to_string());
    assert!(c.handle_message(Message::Dataset).is_none());
    assert!(c.handle_message(Message::Error).is_none());
    assert!(c.handle_message(Message::Ui(UiMessage::Subscribe)).is_none());
    assert!(c.handle_message(Message::Ui(UiMessage::ClearPage)).is_none());
    assert_eq!(c.counter, 0);
}
