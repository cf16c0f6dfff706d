//! The core of a plugin bisection tool: an event bus, a plugin registry with
//! dependency closure, a bisection engine and an undo/redo history.
pub mod display;
pub mod event;
pub mod files;
pub mod laws;
pub mod loader;
pub mod message;
pub mod metadata;
pub mod modpack;
pub mod plugin;
pub mod resolve;

pub use event::{EventCommander, EventData, EventStorage, EventStorageDyn, EventSystem, EventTracker};
pub use files::{FileExtension, FileStatus, FileSuffix};
pub use loader::ModpackLoader;
pub use message::{
    AppEvent, ApplicationState, LoadPathEvent, ModpackEvent, ModpackStatus, NotificationEvent,
    PackOperationEvent, PackStatusEvent, ProgressEvent, ProgressStatus, Severity,
};
pub use modpack::{AskingEnable, AskingKind, Modpack, ModpackOperationEvent, UndoState};
pub use plugin::{Collision, Plugin, PluginList, PluginMetadata, PluginStatus, Status};
