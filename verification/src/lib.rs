//! Shared foundation for a family of MIDI-device *access* tools.
//!
//! Each device models its own SysEx codec and parameter set, then implements one
//! trait — [`Device`] — to plug into the generic command engine ([`engine`]) and
//! the authoring tools ([`handle`], [`tools`]). In return it gets, for free and
//! identically across devices:
//!
//! - a uniform **parameter-metadata** model ([`meta`]) — label / group / help /
//!   level / kind / catalog-hint, keyed by a path;
//! - a uniform **catalog** ([`catalog`]) — name-number lookup tables behind the
//!   [`Catalogs`] trait, bundled with params + defaults into one JSON object
//!   ([`Bundle`]);
//! - generic **name resolution** ([`resolve`]) — turn authored value *names*
//!   ("Hall Reverb", "2.0 kHz") into the numeric indices the codec wants;
//! - a **deep-merge** + per-slot padding helper ([`merge`]) for partial presets;
//! - shared **codec** primitives ([`codec`]) — centred-signed, 14-bit split,
//!   nibble-packed, ASCII, checksums, reserved-byte capture, SysEx framing.
//!
//! The document lingua franca between a device and the engine is [`value::Doc`]:
//! the device decodes a dump to a document and encodes a document back to wire
//! bytes; the engine never needs to know the typed model.
//!
//! Pure: no MIDI port, no file and no clock is touched here. What is to be done
//! with those is said by [`engine::Next`], [`midi`] and [`plan`].

pub mod catalog;
pub mod codec;
pub mod device;
pub mod engine;
pub mod exit_codes;
pub mod handle;
pub mod json;
pub mod laws;
pub mod merge;
pub mod meta;
pub mod midi;
pub mod output;
pub mod plan;
pub mod resolve;
pub mod search;
pub mod text;
pub mod tools;
pub mod value;
pub mod yaml;
pub mod yaml_io;

pub use catalog::{Bundle, Catalogs};
pub use codec::{split_sysex, CodecError, RawByte};
pub use device::{Area, Device, DeviceError, Inbound};
pub use handle::{DeviceHandle, MidiConfig};
pub use meta::{choice, Choice, Kind, Level, ParamMeta, Params};
pub use resolve::{label_names, label_names_str, resolve_names, resolve_names_str};
