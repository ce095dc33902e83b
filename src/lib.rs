pub mod channel;
pub mod error;
pub mod event;
pub mod mask;
pub mod registry;

pub use channel::EventQueue;
pub use error::{Error, ErrorKind};
pub use event::{parse_events, Event, StreamEnd, WatchDecriptor, WatcherEvent};
pub use registry::{Notice, Placement, Registry, Subscription};
