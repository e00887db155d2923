//! The protocol envelope this core consumes and produces. Only the UI
//! variants are acted on; the rest is placeholder surface owned by the
//! richer protocol around this core.

use vstd::prelude::*;
use crate::page::{ChangeRecord, Page};
use crate::path::UiPath;

verus! {

/// An inbound input payload: a plain activation signal, or committed text.
pub enum UiInput {
    Click,
    Text(String),
}

/// UI-protocol messages.
pub enum UiMessage {
    Subscribe,
    Pages,
    GetPage(String),
    Page(Page),
    UpdateElementsFor(String, Vec<ChangeRecord>),
    InputFor(String, String, Option<UiPath>, UiInput),
    SetPage(Page),
    ClearPage,
    UpdateElements(Vec<ChangeRecord>),
    Input(String, Option<UiPath>, UiInput),
    Dataset,
}

/// Router control messages this core produces.
pub enum RouterMessage {
    SetIdentityProperty(String, String),
}

/// The top-level message envelope; only the UI variant is acted on.
pub enum Message {
    Router(RouterMessage),
    Ui(UiMessage),
    Dataset,
    Error,
}

} // verus!
