//! Expose a running program's values as live-editable parameters.
//!
//! The crate models the value/schema trees exchanged with an external
//! viewer process, the byte-level codec for those trees, the reflection
//! contract (`LiveMod`) that every trackable type satisfies, and the
//! registry and message framing used by the host-side worker threads.

pub mod codec;
pub mod data;
pub mod dynvalue;
pub mod map;
pub mod reflect;
pub mod registry;
pub mod repr;
pub mod target;

pub use data::DeserializeError;
pub use data::Fields;
pub use data::Namespaced;
pub use data::Parameter;
pub use data::Repr;
pub use data::Value;
pub use dynvalue::DynNode;
pub use map::TrackedMap;
pub use reflect::DefaultRepr;
pub use reflect::LiveMod;
pub use reflect::LiveModCtor;
pub use reflect::LiveModDefault;
pub use reflect::LiveModRepr;
pub use reflect::Multiline;
pub use reflect::Slider;
pub use reflect::TriggerFn;
pub use registry::Registry;
pub use registry::SetRequest;
pub use registry::UpdateGate;
pub use repr::BuiltinRepr;
pub use target::ActionTarget;
