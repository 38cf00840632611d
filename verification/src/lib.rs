//! A desktop portal service core: the request lifecycle behind a file-chooser
//! portal. An inbound call becomes a registered request object, a window is
//! driven to a terminal outcome, and exactly one response is emitted before
//! the request object is torn down.

pub mod config;
pub mod dbus;
pub mod window;

pub use config::Config;
pub use config::DialogStorage;
pub use config::cfg_dir;
pub use config::cfg_file;
pub use dbus::CallError;
pub use dbus::FilePortal;
pub use dbus::OptValue;
pub use dbus::RePayload;
pub use dbus::Registry;
pub use dbus::RegistryError;
pub use dbus::Req;
pub use dbus::ReqQueue;
pub use dbus::RequestPortalFacade;
pub use dbus::ResponsePayload;
pub use dbus::file_uri_of;
pub use dbus::make_file_portal;
pub use dbus::make_request_path;
pub use dbus::sanitize_sender;
pub use window::Action;
pub use window::FileChooserWin;
pub use window::PickerState;
pub use window::WinEvent;
pub use window::spawn_window;
pub use window::tick;
pub use window::update_windows;
