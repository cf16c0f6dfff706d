//! The messages the application's parts exchange over the event bus.
use vstd::prelude::*;

use crate::event::EventSystem;
use crate::modpack::ModpackOperationEvent;

verus! {

#[derive(Clone, Copy, Debug, PartialEq, Eq, Structural)]
pub enum Severity {
    Info,
    Warning,
    Error,
}

/// Something to tell the user.
#[derive(Debug)]
pub struct NotificationEvent {
    pub title: String,
    pub description: String,
    pub ty: Severity,
}

/// How far loading has come.
#[derive(Clone, Copy, Debug, PartialEq, Eq, Structural)]
pub enum ProgressStatus {
    Indeterminate,
    /// `done` of `total` plugins have arrived.
    Determinate { done: usize, total: usize },
}

/// Loading progress; `None` once loading is complete.
#[derive(Clone, Copy, Debug, PartialEq, Eq, Structural)]
pub struct ProgressEvent(pub Option<ProgressStatus>);

/// A request to open the modpack at a path.
#[derive(Debug)]
pub struct LoadPathEvent(pub String);

#[derive(Clone, Copy, Debug, PartialEq, Eq, Structural)]
pub struct PackStatusEvent {
    pub is_loaded: bool,
}

/// The operations the header offers, under the name the header uses.
pub type PackOperationEvent = ModpackOperationEvent;

/// Opening or leaving a modpack.
#[derive(Debug)]
pub enum ModpackEvent {
    Load(String),
    Exit,
}

/// Every message the application's parts exchange.
#[derive(Debug)]
pub enum AppEvent {
    Notification(NotificationEvent),
    Progress(ProgressEvent),
    Operation(ModpackOperationEvent),
    Modpack(ModpackEvent),
    LoadPath(LoadPathEvent),
    PackStatus(PackStatusEvent),
}

/// What the header shows of the open modpack.
#[derive(Debug)]
pub enum ModpackStatus {
    Empty,
    Active { path: String, is_loaded: bool, can_undo: bool, can_redo: bool },
}

/// State shared by the application's views.
pub struct ApplicationState {
    pub modpack_status: ModpackStatus,
    pub events: EventSystem<AppEvent>,
}

impl ApplicationState {
    /// No modpack open and an empty bus.
    pub fn new() -> (r: ApplicationState)
        ensures
            r.modpack_status is Empty,
            r.events.wf(),
            r.events.events().len() == 0,
            r.events.next_id() == 0,
    {
        ApplicationState { modpack_status: ModpackStatus::Empty, events: EventSystem::new() }
    }
}

} // verus!
